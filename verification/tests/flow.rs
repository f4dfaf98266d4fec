use fop_verified::engine::LayoutEngine;
use fop_verified::page_master::PageRegionGeometry;
use fop_verified::{Area, AreaId, AreaTree, AreaType, BreakValue, Keep, KeepConstraint, Length, PageBreaker, Point, Rect, Size};

fn pt(v: i32) -> Length {
    Length::from_pt(v)
}

fn block(h: i32) -> Area {
    Area::new(AreaType::Block, Rect::from_point_size(Point::zero(), Size::new(pt(200), pt(h))))
}

/// A flow root with the given blocks as children; returns the root and the block ids.
fn flow(tree: &mut AreaTree, blocks: Vec<Area>) -> (AreaId, Vec<AreaId>) {
    let root = tree.add_area(block(0));
    let mut ids = Vec::new();
    for b in blocks {
        let id = tree.add_area(b);
        tree.append_child(root, id).expect("test: append block");
        ids.push(id);
    }
    (root, ids)
}

/// Pages of 200x250pt without margins: a body 250pt high.
fn small_pages() -> PageBreaker {
    PageBreaker::new(pt(200), pt(250), [pt(0); 4])
}

fn region_of(tree: &AreaTree, page: AreaId) -> AreaId {
    tree.children(page)[0]
}

fn y_of(tree: &AreaTree, id: AreaId) -> Length {
    tree.get(id).expect("test: block exists").area.geometry.y
}

fn parent_of(tree: &AreaTree, id: AreaId) -> Option<AreaId> {
    tree.get(id).expect("test: block exists").parent
}

#[test]
fn test_overflow_produces_multiple_pages_with_reparenting() {
    let mut tree = AreaTree::new();
    let (root, ids) = flow(&mut tree, vec![block(100), block(100), block(100), block(100)]);
    let pages = LayoutEngine::new().paginate_flow(&small_pages(), &mut tree, root).expect("test: paginate");
    assert_eq!(pages.len(), 2);
    let region1 = region_of(&tree, pages[0]);
    let region2 = region_of(&tree, pages[1]);
    assert_eq!(tree.children(region1), vec![ids[0], ids[1]]);
    assert_eq!(tree.children(region2), vec![ids[2], ids[3]]);
    for &id in &ids[2..] {
        assert_eq!(parent_of(&tree, id), Some(region2));
    }
    assert_eq!(parent_of(&tree, region2), Some(pages[1]));
    assert_eq!(y_of(&tree, ids[2]), Length::zero());
    assert_eq!(y_of(&tree, ids[3]), pt(100));
    for &id in &ids {
        assert!(y_of(&tree, id).millipoints() + pt(100).millipoints() <= pt(250).millipoints());
    }
    assert!(tree.children(root).is_empty());
}

#[test]
fn test_short_document_is_single_page() {
    let mut tree = AreaTree::new();
    let (root, ids) = flow(&mut tree, vec![block(100), block(100)]);
    let pages = LayoutEngine::new().paginate_flow(&small_pages(), &mut tree, root).expect("test: paginate");
    assert_eq!(pages.len(), 1);
    assert_eq!(tree.children(region_of(&tree, pages[0])), ids);
    assert_eq!(y_of(&tree, ids[1]), pt(100));
}

#[test]
fn test_forced_break_before_starts_new_page() {
    let mut tree = AreaTree::new();
    let (root, ids) = flow(&mut tree, vec![block(50), block(50).with_break_before(BreakValue::Page)]);
    let breaker = PageBreaker::new(pt(200), pt(600), [pt(0); 4]);
    let pages = LayoutEngine::new().paginate_flow(&breaker, &mut tree, root).expect("test: paginate");
    assert_eq!(pages.len(), 2);
    let region1 = region_of(&tree, pages[0]);
    let region2 = region_of(&tree, pages[1]);
    assert_eq!(tree.children(region1).len(), 1);
    assert_eq!(tree.children(region2), vec![ids[1]]);
    assert_eq!(parent_of(&tree, ids[1]), Some(region2));
    assert_eq!(y_of(&tree, ids[1]), Length::zero());
}

#[test]
fn test_keep_with_previous_migrates_pair() {
    let mut tree = AreaTree::new();
    let mut keep = KeepConstraint::new();
    keep.keep_with_previous = Keep::Always;
    let (root, ids) = flow(&mut tree, vec![block(100), block(100), block(100).with_keep_constraint(keep)]);
    let pages = LayoutEngine::new().paginate_flow(&small_pages(), &mut tree, root).expect("test: paginate");
    assert_eq!(pages.len(), 2);
    assert_eq!(tree.children(region_of(&tree, pages[0])), vec![ids[0]]);
    assert_eq!(tree.children(region_of(&tree, pages[1])), vec![ids[1], ids[2]]);
    assert_eq!(y_of(&tree, ids[1]), Length::zero());
    assert_eq!(y_of(&tree, ids[2]), pt(100));
}

#[test]
fn test_flow_whole_page_glued_moves_last_block_alone() {
    let mut tree = AreaTree::new();
    let mut keep = KeepConstraint::new();
    keep.keep_with_previous = Keep::Always;
    let (root, ids) = flow(&mut tree, vec![block(100), block(100).with_keep_constraint(keep), block(100).with_keep_constraint(keep)]);
    let pages = LayoutEngine::new().paginate_flow(&small_pages(), &mut tree, root).expect("test: paginate");
    assert_eq!(pages.len(), 2);
    assert_eq!(tree.children(region_of(&tree, pages[0])), vec![ids[0], ids[1]]);
    assert_eq!(tree.children(region_of(&tree, pages[1])), vec![ids[2]]);
}

#[test]
fn test_flow_forced_break_on_empty_page_is_ignored() {
    let mut tree = AreaTree::new();
    let (root, ids) = flow(&mut tree, vec![block(50).with_break_before(BreakValue::Page), block(50)]);
    let pages = LayoutEngine::new().paginate_flow(&small_pages(), &mut tree, root).expect("test: paginate");
    assert_eq!(pages.len(), 1);
    assert_eq!(tree.children(region_of(&tree, pages[0])), ids);
}

#[test]
fn test_flow_break_after_odd_page_adds_blank_page() {
    let mut tree = AreaTree::new();
    let (root, ids) = flow(&mut tree, vec![block(50).with_break_after(BreakValue::OddPage), block(50)]);
    let pages = LayoutEngine::new().paginate_flow(&small_pages(), &mut tree, root).expect("test: paginate");
    // Page 2 has the wrong parity for an odd-page break: a blank page 2, the block on page 3.
    assert_eq!(pages.len(), 3);
    assert!(tree.children(region_of(&tree, pages[1])).is_empty());
    assert_eq!(tree.children(region_of(&tree, pages[2])), vec![ids[1]]);
}

#[test]
fn test_flow_tall_block_at_top_stays_clipped() {
    let mut tree = AreaTree::new();
    let (root, ids) = flow(&mut tree, vec![block(400), block(10)]);
    let pages = LayoutEngine::new().paginate_flow(&small_pages(), &mut tree, root).expect("test: paginate");
    assert_eq!(pages.len(), 2);
    assert_eq!(tree.children(region_of(&tree, pages[0])), vec![ids[0]]);
    assert_eq!(tree.children(region_of(&tree, pages[1])), vec![ids[1]]);
}

#[test]
fn test_flow_without_blocks_gives_one_page() {
    let mut tree = AreaTree::new();
    let (root, _) = flow(&mut tree, vec![]);
    let pages = LayoutEngine::new().paginate_flow(&small_pages(), &mut tree, root).expect("test: paginate");
    assert_eq!(pages.len(), 1);
}

#[test]
fn test_column_count_one_uses_single_column_pagination() {
    let mut tree = AreaTree::new();
    let (root, _) = flow(&mut tree, vec![block(100), block(100), block(100), block(100)]);
    let pages = LayoutEngine::new().paginate_flow(&small_pages(), &mut tree, root).expect("test: paginate");
    assert_eq!(pages.len(), 2);
    for &page in &pages {
        let blocks = tree.children(region_of(&tree, page));
        assert_eq!(blocks.len(), 2);
        for id in blocks {
            assert_eq!(tree.get(id).expect("test: block exists").area.geometry.x, Length::zero());
        }
    }
}

#[test]
fn test_flow_break_before_parity() {
    let mut tree = AreaTree::new();
    let (root, ids) = flow(&mut tree, vec![block(50), block(50).with_break_before(BreakValue::EvenPage), block(50).with_break_before(BreakValue::EvenPage)]);
    let pages = LayoutEngine::new().paginate_flow(&small_pages(), &mut tree, root).expect("test: paginate");
    // Block 2 opens page 2 (even); block 3 needs an even page after page 2: blank page 3, page 4.
    assert_eq!(pages.len(), 4);
    assert_eq!(tree.children(region_of(&tree, pages[1])), vec![ids[1]]);
    assert!(tree.children(region_of(&tree, pages[2])).is_empty());
    assert_eq!(tree.children(region_of(&tree, pages[3])), vec![ids[2]]);
}

#[test]
fn test_page_breaker_for_body_of_geometry() {
    let zero = Rect::new(Length::zero(), Length::zero(), Length::zero(), Length::zero());
    let geom = PageRegionGeometry {
        page_width: pt(200),
        page_height: pt(300),
        before_rect: Rect::new(pt(0), pt(0), pt(200), pt(40)),
        after_rect: zero,
        start_rect: zero,
        end_rect: zero,
        body_rect: Rect::new(pt(0), pt(40), pt(200), pt(260)),
    };
    let engine = LayoutEngine::new();
    let breaker = engine.page_breaker_for(&geom);
    assert_eq!(breaker.content_height(), pt(260));
    assert_eq!(breaker.content_width(), pt(200));
    let mut tree = AreaTree::new();
    let (root, _) = flow(&mut tree, vec![block(100), block(100), block(100), block(100), block(100)]);
    let pages = engine.paginate_flow(&breaker, &mut tree, root).expect("test: paginate");
    assert_eq!(pages.len(), 3);
    let region = region_of(&tree, pages[0]);
    assert_eq!(tree.get(region).expect("test: region").area.geometry.y, pt(40));
}
