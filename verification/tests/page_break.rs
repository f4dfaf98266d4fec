use fop_verified::{Area, AreaTree, AreaType, BreakValue, Keep, KeepConstraint, Length, PageBreaker, Point, Rect, Size};

fn pt(v: i32) -> Length {
    Length::from_pt(v)
}

fn block(w: i32, h: i32) -> Area {
    Area::new(AreaType::Block, Rect::from_point_size(Point::zero(), Size::new(pt(w), pt(h))))
}

fn make_breaker() -> PageBreaker {
    PageBreaker::new(pt(595), pt(842), [pt(72); 4])
}

#[test]
fn test_page_breaker_dimensions() {
    let breaker = PageBreaker::new(
        Length::from_mm(210),
        Length::from_mm(297),
        [Length::from_mm(20), Length::from_mm(20), Length::from_mm(20), Length::from_mm(20)],
    );
    assert_eq!(breaker.content_width(), Length::from_mm(170));
    assert_eq!(breaker.content_height(), Length::from_mm(257));
}

#[test]
fn test_create_empty_page() {
    let breaker = make_breaker();
    let mut tree = AreaTree::new();
    let page_id = breaker.create_page(&mut tree).expect("test: should succeed");
    assert!(tree.get(page_id).is_some());
    let page_node = tree.get(page_id).expect("test: should succeed");
    assert_eq!(page_node.area.area_type, AreaType::Page);
}

#[test]
fn test_break_empty_tree() {
    let breaker = make_breaker();
    let mut tree = AreaTree::new();
    let root_id = tree.add_area(block(0, 0));
    let pages = breaker.break_into_pages(&mut tree, root_id).expect("test: should succeed");
    assert_eq!(pages.len(), 1);
}

#[test]
fn test_overflow_detection() {
    let breaker = make_breaker();
    assert_eq!(breaker.content_height(), pt(698));
    assert!(breaker.fits_on_page(pt(100), pt(200)));
    assert!(!breaker.fits_on_page(pt(600), pt(200)));
}

#[test]
fn test_multi_page_breaking() {
    let breaker = make_breaker();
    let mut tree = AreaTree::new();
    let root_id = tree.add_area(block(0, 0));
    for _ in 0..5 {
        let block_id = tree.add_area(block(400, 200));
        tree.append_child(root_id, block_id).expect("test: should succeed");
    }
    let pages = breaker.break_into_pages(&mut tree, root_id).expect("test: should succeed");
    assert!(pages.len() >= 2);
    assert!(tree.children(root_id).is_empty(), "all blocks must be reparented away from the root");
    let content_height = breaker.content_height();
    let mut reparented_blocks = 0;
    for page_id in &pages {
        let regions = tree.children(*page_id);
        assert_eq!(regions.len(), 1, "each page has exactly one region-body");
        let region_id = regions[0];
        assert_eq!(tree.get(region_id).expect("test: region exists").area.area_type, AreaType::Region);
        for block_id in tree.children(region_id) {
            let b = tree.get(block_id).expect("test: block exists");
            assert_eq!(b.area.area_type, AreaType::Block);
            let bottom = b.area.geometry.y.plus(b.area.height());
            assert!(bottom <= content_height, "reparented block overflows its page region");
            reparented_blocks += 1;
        }
    }
    assert_eq!(reparented_blocks, 5, "all 5 blocks must be reparented under a page region");
}

#[test]
fn test_split_area() {
    let breaker = make_breaker();
    let mut tree = AreaTree::new();
    let block_id = tree.add_area(block(400, 800));
    let continuation = breaker.split_area(&mut tree, block_id, pt(300)).expect("test: should succeed");
    assert!(continuation.is_some());
}

#[test]
fn test_keep_with_previous_prevents_break() {
    let breaker = make_breaker();
    let mut tree = AreaTree::new();
    let block1_id = tree.add_area(block(400, 200));
    let mut constraint = KeepConstraint::new();
    constraint.keep_with_previous = Keep::Always;
    let block2_id = tree.add_area(block(400, 200).with_keep_constraint(constraint));
    let children = vec![block1_id, block2_id];
    assert!(breaker.can_break_before(&tree, block1_id, 0, &children));
    assert!(!breaker.can_break_before(&tree, block2_id, 1, &children));
}

#[test]
fn test_keep_with_next_prevents_break() {
    let breaker = make_breaker();
    let mut tree = AreaTree::new();
    let mut constraint = KeepConstraint::new();
    constraint.keep_with_next = Keep::Always;
    let block1_id = tree.add_area(block(400, 200).with_keep_constraint(constraint));
    let block2_id = tree.add_area(block(400, 200));
    let children = vec![block1_id, block2_id];
    assert!(!breaker.can_break_before(&tree, block2_id, 1, &children));
}

#[test]
fn test_keep_together_prevents_break() {
    let breaker = make_breaker();
    let mut tree = AreaTree::new();
    let mut constraint = KeepConstraint::new();
    constraint.keep_together = Keep::Always;
    let block_id = tree.add_area(block(400, 200).with_keep_constraint(constraint));
    let children = vec![block_id];
    assert!(!breaker.can_break_before(&tree, block_id, 0, &children));
}

#[test]
fn test_no_keep_allows_break() {
    let breaker = make_breaker();
    let mut tree = AreaTree::new();
    let block1_id = tree.add_area(block(400, 200));
    let block2_id = tree.add_area(block(400, 200));
    let children = vec![block1_id, block2_id];
    assert!(breaker.can_break_before(&tree, block1_id, 0, &children));
    assert!(breaker.can_break_before(&tree, block2_id, 1, &children));
}

#[test]
fn test_content_width_calculation() {
    assert_eq!(make_breaker().content_width(), pt(451));
}

#[test]
fn test_content_height_calculation() {
    assert_eq!(make_breaker().content_height(), pt(698));
}

#[test]
fn test_content_height_with_footnotes_reduces_available() {
    let breaker = make_breaker();
    let base = breaker.content_height();
    let with_footnote = breaker.content_height_with_footnotes(pt(50));
    assert_eq!(with_footnote, base.minus(pt(50)));
}

#[test]
fn test_fits_on_page_exactly_at_boundary() {
    let breaker = make_breaker();
    let content_h = breaker.content_height();
    assert!(breaker.fits_on_page(Length::zero(), content_h));
}

#[test]
fn test_fits_on_page_over_boundary_does_not_fit() {
    let breaker = make_breaker();
    let content_h = breaker.content_height();
    assert!(!breaker.fits_on_page(pt(1), content_h));
}

#[test]
fn test_split_area_fits_returns_none() {
    let breaker = make_breaker();
    let mut tree = AreaTree::new();
    let area_id = tree.add_area(block(400, 100));
    let result = breaker.split_area(&mut tree, area_id, pt(200)).expect("test: should succeed");
    assert!(result.is_none());
}

#[test]
fn test_split_area_overflow_creates_continuation() {
    let breaker = make_breaker();
    let mut tree = AreaTree::new();
    let area_id = tree.add_area(block(400, 300));
    let continuation = breaker.split_area(&mut tree, area_id, pt(200)).expect("test: should succeed");
    assert!(continuation.is_some());
    let cont_id = continuation.expect("test: should succeed");
    let cont_node = tree.get(cont_id).expect("test: should succeed");
    assert_eq!(cont_node.area.height(), pt(100));
}

#[test]
fn test_break_into_pages_single_block_fits() {
    let breaker = make_breaker();
    let mut tree = AreaTree::new();
    let root_id = tree.add_area(block(0, 0));
    let block_id = tree.add_area(block(400, 100));
    tree.append_child(root_id, block_id).expect("test: should succeed");
    let pages = breaker.break_into_pages(&mut tree, root_id).expect("test: should succeed");
    assert_eq!(pages.len(), 1);
}

#[test]
fn test_count_line_areas_in_block_with_children() {
    let breaker = make_breaker();
    let mut tree = AreaTree::new();
    let block_id = tree.add_area(block(400, 50));
    let line = |t: &mut AreaTree| {
        t.add_area(Area::new(AreaType::Line, Rect::from_point_size(Point::zero(), Size::new(pt(400), pt(12)))))
    };
    let line1_id = line(&mut tree);
    let line2_id = line(&mut tree);
    tree.append_child(block_id, line1_id).expect("test: should succeed");
    tree.append_child(block_id, line2_id).expect("test: should succeed");
    let count = breaker.count_line_areas(&tree, block_id);
    assert_eq!(count, 2, "Block with 2 line children should count 2");
}

#[test]
fn test_page_has_region_child() {
    let breaker = make_breaker();
    let mut tree = AreaTree::new();
    let page_id = breaker.create_page(&mut tree).expect("test: should succeed");
    let children = tree.children(page_id);
    assert_eq!(children.len(), 1, "Page should have one region child");
    let region_node = tree.get(children[0]).expect("test: should succeed");
    assert_eq!(region_node.area.area_type, AreaType::Region);
}

#[test]
fn test_asymmetric_margins() {
    let breaker = PageBreaker::new(pt(612), pt(792), [pt(72), pt(54), pt(72), pt(54)]);
    assert_eq!(breaker.content_width(), pt(504));
    assert_eq!(breaker.content_height(), pt(648));
}

// ---- further checks of the page-breaking rules ----

#[test]
fn forced_break_before_starts_a_new_page_at_the_top() {
    let breaker = make_breaker();
    let mut tree = AreaTree::new();
    let root_id = tree.add_area(block(0, 0));
    let a = tree.add_area(block(400, 100));
    let b = tree.add_area(block(400, 100).with_break_before(BreakValue::Page));
    tree.append_child(root_id, a).unwrap();
    tree.append_child(root_id, b).unwrap();
    let pages = breaker.break_into_pages(&mut tree, root_id).unwrap();
    assert_eq!(pages.len(), 2);
    let region2 = tree.children(pages[1])[0];
    assert_eq!(tree.children(region2), vec![b]);
    assert_eq!(tree.get(b).unwrap().area.geometry.y, Length::zero());
}

#[test]
fn blocks_on_one_page_are_stacked() {
    let breaker = make_breaker();
    let mut tree = AreaTree::new();
    let root_id = tree.add_area(block(0, 0));
    let a = tree.add_area(block(400, 100));
    let b = tree.add_area(block(400, 150));
    tree.append_child(root_id, a).unwrap();
    tree.append_child(root_id, b).unwrap();
    let pages = breaker.break_into_pages(&mut tree, root_id).unwrap();
    assert_eq!(pages.len(), 1);
    assert_eq!(tree.get(a).unwrap().area.geometry.y, Length::zero());
    assert_eq!(tree.get(b).unwrap().area.geometry.y, pt(100));
}

#[test]
fn break_after_even_page_makes_the_page_count_even() {
    let breaker = make_breaker();
    let mut tree = AreaTree::new();
    let root_id = tree.add_area(block(0, 0));
    let a = tree.add_area(block(400, 100).with_break_after(BreakValue::EvenPage));
    let b = tree.add_area(block(400, 100));
    tree.append_child(root_id, a).unwrap();
    tree.append_child(root_id, b).unwrap();
    let pages = breaker.break_into_pages(&mut tree, root_id).unwrap();
    // page 1 holds a; the break after opens page 2, already even
    assert_eq!(pages.len(), 2);
    let region2 = tree.children(pages[1])[0];
    assert_eq!(tree.children(region2), vec![b]);
}

#[test]
fn kept_block_overflows_instead_of_breaking() {
    let breaker = make_breaker();
    let mut tree = AreaTree::new();
    let root_id = tree.add_area(block(0, 0));
    let a = tree.add_area(block(400, 600));
    let mut keep = KeepConstraint::new();
    keep.keep_with_previous = Keep::Always;
    let b = tree.add_area(block(400, 200).with_keep_constraint(keep));
    tree.append_child(root_id, a).unwrap();
    tree.append_child(root_id, b).unwrap();
    let pages = breaker.break_into_pages(&mut tree, root_id).unwrap();
    assert_eq!(pages.len(), 1);
    assert_eq!(tree.get(b).unwrap().area.geometry.y, pt(600));
}

#[test]
fn page_areas_have_the_page_size_and_region_the_content_box() {
    let breaker = make_breaker();
    let mut tree = AreaTree::new();
    let page_id = breaker.create_page(&mut tree).unwrap();
    let page = &tree.get(page_id).unwrap().area;
    assert_eq!(page.geometry.width, pt(595));
    assert_eq!(page.geometry.height, pt(842));
    let region = &tree.get(tree.children(page_id)[0]).unwrap().area;
    assert_eq!(region.geometry.x, pt(72));
    assert_eq!(region.geometry.y, pt(72));
    assert_eq!(region.geometry.width, pt(451));
    assert_eq!(region.geometry.height, pt(698));
}

#[test]
fn footnotes_are_placed_under_a_separator_at_the_bottom() {
    let breaker = make_breaker();
    let mut tree = AreaTree::new();
    let page_id = breaker.create_page(&mut tree).unwrap();
    let note = tree.add_area(Area::new(AreaType::Footnote, Rect::from_point_size(Point::zero(), Size::new(pt(400), pt(20)))));
    tree.add_footnote(page_id, note);
    assert_eq!(tree.footnote_height(page_id), pt(20));
    breaker.place_footnotes(&mut tree, page_id).unwrap();
    // separator at 72 + 698 - 20 = 750pt, footnote 7pt below it
    let children = tree.children(page_id);
    assert_eq!(children.len(), 3);
    let sep = &tree.get(children[1]).unwrap().area;
    assert_eq!(sep.area_type, AreaType::FootnoteSeparator);
    assert_eq!(sep.geometry.y, pt(750));
    assert_eq!(tree.get(note).unwrap().area.geometry.y, pt(757));
    assert_eq!(tree.get(note).unwrap().area.geometry.x, pt(72));
}

#[test]
fn test_split_area_continuation_keeps_traits() {
    let breaker = PageBreaker::new(pt(595), pt(842), [pt(72); 4]);
    let mut tree = AreaTree::new();
    let traits = fop_verified::TraitSet {
        font_size: Some(pt(14)),
        font_family: Some("Times-Roman".to_string()),
        color: Some(fop_verified::Color { r: 10, g: 20, b: 30 }),
        ..Default::default()
    };
    let block = Area::new(AreaType::Block, Rect::new(pt(0), pt(0), pt(100), pt(300))).with_traits(traits);
    let block_id = tree.add_area(block);
    let cont = breaker.split_area(&mut tree, block_id, pt(200)).unwrap().unwrap();
    let c = &tree.get(cont).unwrap().area;
    assert_eq!(c.geometry.height, pt(100));
    assert_eq!(c.traits.font_size, Some(pt(14)));
    assert_eq!(c.traits.font_family.as_deref(), Some("Times-Roman"));
    assert_eq!(c.traits.color, Some(fop_verified::Color { r: 10, g: 20, b: 30 }));
}
