use fop_verified::area::AreaId;
use fop_verified::pagination::{
    break_before_starts_page, keep_group_start, migrate_blocks, overflow_group_start, page_child_priority,
    parity_needs_blank_page,
};
use fop_verified::properties::{is_cjk, measure_text_width, parse_border_style, text_width_factor};
use fop_verified::{Area, AreaTree, AreaType, BorderStyle, BreakValue, Keep, KeepConstraint, Length, PageBreaker, Point, Rect, Size};

fn pt(v: i32) -> Length {
    Length::from_pt(v)
}

fn block_at(y: i32, h: i32) -> Area {
    Area::new(AreaType::Block, Rect::from_point_size(Point::new(pt(0), pt(y)), Size::new(pt(100), pt(h))))
}

fn make_breaker() -> PageBreaker {
    PageBreaker::new(pt(595), pt(842), [pt(72); 4])
}

#[test]
fn test_page_child_priority_order() {
    assert_eq!(page_child_priority(AreaType::Header), 0);
    assert_eq!(page_child_priority(AreaType::Footer), 0);
    assert_eq!(page_child_priority(AreaType::SidebarStart), 0);
    assert_eq!(page_child_priority(AreaType::SidebarEnd), 0);
    assert_eq!(page_child_priority(AreaType::Region), 1);
    assert_eq!(page_child_priority(AreaType::Column), 1);
    assert_eq!(page_child_priority(AreaType::FootnoteSeparator), 2);
    assert_eq!(page_child_priority(AreaType::Footnote), 2);
}

#[test]
fn test_keep_group_start_without_keeps() {
    let breaker = make_breaker();
    let mut tree = AreaTree::new();
    let blocks: Vec<AreaId> = (0..3).map(|i| tree.add_area(block_at(20 * i, 20))).collect();
    assert_eq!(keep_group_start(&breaker, &tree, &blocks), 2);
    assert_eq!(keep_group_start(&breaker, &tree, &[]), 0);
}

#[test]
fn test_keep_group_start_with_keep_with_previous() {
    let breaker = make_breaker();
    let mut tree = AreaTree::new();
    let mut keep = KeepConstraint::new();
    keep.keep_with_previous = Keep::Always;
    let a = tree.add_area(block_at(0, 20));
    let b = tree.add_area(block_at(20, 20));
    let c = tree.add_area(block_at(40, 20).with_keep_constraint(keep));
    let d = tree.add_area(block_at(60, 20).with_keep_constraint(keep));
    assert_eq!(keep_group_start(&breaker, &tree, &[a, b, c, d]), 1);
}

#[test]
fn test_migrate_blocks_keeps_gaps() {
    let mut tree = AreaTree::new();
    let old_region = tree.add_area(Area::new(AreaType::Region, Rect::new(pt(0), pt(0), pt(0), pt(0))));
    let new_region = tree.add_area(Area::new(AreaType::Region, Rect::new(pt(0), pt(0), pt(0), pt(0))));
    let a = tree.add_area(block_at(500, 30));
    let b = tree.add_area(block_at(540, 20));
    tree.append_child(old_region, a).unwrap();
    tree.append_child(old_region, b).unwrap();
    let cursor = migrate_blocks(&mut tree, &[a, b], new_region).unwrap();
    assert_eq!(cursor, pt(60));
    assert_eq!(tree.get(a).unwrap().area.geometry.y, pt(0));
    assert_eq!(tree.get(b).unwrap().area.geometry.y, pt(40));
    assert_eq!(tree.children(new_region), vec![a, b]);
    assert!(tree.children(old_region).is_empty());
    assert_eq!(tree.get(a).unwrap().parent, Some(new_region));
}

#[test]
fn test_migrate_blocks_overlap_gives_no_gap() {
    let mut tree = AreaTree::new();
    let region = tree.add_area(Area::new(AreaType::Region, Rect::new(pt(0), pt(0), pt(0), pt(0))));
    let a = tree.add_area(block_at(100, 50));
    let b = tree.add_area(block_at(120, 10));
    let cursor = migrate_blocks(&mut tree, &[a, AreaId(99), b], region).unwrap();
    assert_eq!(cursor, pt(60));
    assert_eq!(tree.get(b).unwrap().area.geometry.y, pt(50));
}

#[test]
fn test_migrate_blocks_to_unknown_region_fails() {
    let mut tree = AreaTree::new();
    let a = tree.add_area(block_at(100, 50));
    assert!(migrate_blocks(&mut tree, &[a], AreaId(42)).is_err());
    assert_eq!(tree.get(a).unwrap().area.geometry.y, pt(100));
    assert_eq!(migrate_blocks(&mut tree, &[], AreaId(42)).unwrap(), pt(0));
}

#[test]
fn test_is_cjk_ranges() {
    assert!(is_cjk('中'));
    assert!(is_cjk('\u{3000}'));
    assert!(is_cjk('한'));
    assert!(is_cjk('\u{FF21}'));
    assert!(!is_cjk('A'));
    assert!(!is_cjk('\u{2FFF}'));
    assert!(!is_cjk('\u{FFF0}'));
}

#[test]
fn test_parse_border_style_keywords() {
    assert_eq!(parse_border_style(Some("none")), Some(BorderStyle::NoStyle));
    assert_eq!(parse_border_style(Some("solid")), Some(BorderStyle::Solid));
    assert_eq!(parse_border_style(Some("groove")), Some(BorderStyle::Groove));
    assert_eq!(parse_border_style(Some("hidden")), Some(BorderStyle::Hidden));
    assert_eq!(parse_border_style(Some("wavy")), None);
    assert_eq!(parse_border_style(Some("Solid")), None);
    assert_eq!(parse_border_style(None), None);
}

#[test]
fn test_text_width_factor_by_character_class() {
    assert_eq!(text_width_factor("", None), 0);
    assert_eq!(text_width_factor("Hello", None), 50 + 50 + 30 + 30 + 50);
    assert_eq!(text_width_factor("Hello", Some(700)), 55 + 55 + 30 + 30 + 55);
    assert_eq!(text_width_factor("a b", Some(400)), 50 + 25 + 50);
    assert_eq!(text_width_factor("Mw日本", None), 70 + 70 + 100 + 100);
}

#[test]
fn test_measure_text_width_estimates() {
    assert_eq!(measure_text_width("", Length::from_pt(12), None).millipoints(), 0);
    // "Hello" is 2.1 em at normal weight: 25.2 pt at 12 pt.
    assert_eq!(measure_text_width("Hello", Length::from_pt(12), None).millipoints(), 25200);
    // Bold: 2.25 em, 27 pt.
    assert_eq!(measure_text_width("Hello", Length::from_pt(12), Some(700)).millipoints(), 27000);
    // Two CJK characters are two full em.
    assert_eq!(measure_text_width("日本", Length::from_pt(10), None).millipoints(), 20000);
    // 0.25 em of 0.001 pt rounds to nothing; 0.5 em of 0.001 pt rounds half away from zero.
    assert_eq!(measure_text_width(" ", Length::from_millipoints(1), None).millipoints(), 0);
    assert_eq!(measure_text_width("a", Length::from_millipoints(1), None).millipoints(), 1);
}

#[test]
fn test_overflow_moves_the_glued_run() {
    let breaker = make_breaker();
    let mut tree = AreaTree::new();
    let mut keep = KeepConstraint::new();
    keep.keep_with_previous = Keep::Always;
    let a = tree.add_area(block_at(0, 20));
    let b = tree.add_area(block_at(20, 20));
    let c = tree.add_area(block_at(40, 20).with_keep_constraint(keep));
    let blocks = [a, b, c];
    // no overflow: the block ends inside the body
    assert_eq!(overflow_group_start(&breaker, &tree, &blocks, pt(40), pt(60), pt(100)), None);
    // a block at the top never overflows
    assert_eq!(overflow_group_start(&breaker, &tree, &blocks, pt(0), pt(160), pt(100)), None);
    // overflow: c is glued to b, so b and c move
    assert_eq!(overflow_group_start(&breaker, &tree, &blocks, pt(40), pt(160), pt(100)), Some(1));
    // a page that is one glued run moves only its last block
    let d = tree.add_area(block_at(0, 20));
    let e = tree.add_area(block_at(20, 20).with_keep_constraint(keep));
    assert_eq!(overflow_group_start(&breaker, &tree, &[d, e], pt(20), pt(160), pt(100)), Some(1));
}

#[test]
fn test_forced_breaks_and_parity() {
    assert!(!break_before_starts_page(BreakValue::Page, 0, pt(0)));
    assert!(break_before_starts_page(BreakValue::Page, 1, pt(0)));
    assert!(break_before_starts_page(BreakValue::OddPage, 0, pt(5)));
    assert!(!break_before_starts_page(BreakValue::Auto, 3, pt(5)));
    assert!(parity_needs_blank_page(BreakValue::EvenPage, 3));
    assert!(!parity_needs_blank_page(BreakValue::EvenPage, 4));
    assert!(parity_needs_blank_page(BreakValue::OddPage, 4));
    assert!(!parity_needs_blank_page(BreakValue::Page, 3));
}
