use fop_verified::engine::LayoutEngine;
use fop_verified::page_master::{RegionSpec, SimplePageMaster};
use fop_verified::Length;

fn pt(v: i32) -> Length {
    Length::from_pt(v)
}

fn test_master() -> SimplePageMaster {
    SimplePageMaster {
        master_name: "test-master".to_string(),
        page_width: Some(pt(595)),
        page_height: Some(pt(842)),
        margin_top: Some(pt(50)),
        margin_bottom: Some(pt(50)),
        margin_left: Some(pt(60)),
        margin_right: Some(pt(60)),
        regions: vec![
            RegionSpec::Before { extent: Some(pt(30)) },
            RegionSpec::After { extent: Some(pt(20)) },
            RegionSpec::Start { extent: Some(pt(50)) },
            RegionSpec::End { extent: Some(pt(40)) },
            RegionSpec::Body { margin_top: None, margin_bottom: None, margin_left: None, margin_right: None },
        ],
    }
}

#[test]
fn test_page_region_geometry_from_simple_page_master() {
    let engine = LayoutEngine::new();
    let geom = engine.extract_page_region_geometry(&vec![test_master()], "test-master");

    // Page dimensions
    assert_eq!(geom.page_width, pt(595));
    assert_eq!(geom.page_height, pt(842));

    // Content area: x=60, y=50, w=595-120=475, h=842-100=742
    // region-before: x=60, y=50, w=475, h=30
    assert_eq!(geom.before_rect.x, pt(60));
    assert_eq!(geom.before_rect.y, pt(50));
    assert_eq!(geom.before_rect.width, pt(475));
    assert_eq!(geom.before_rect.height, pt(30));

    // region-after: x=60, y=50+742-20=772, w=475, h=20
    assert_eq!(geom.after_rect.x, pt(60));
    assert_eq!(geom.after_rect.y, pt(772));
    assert_eq!(geom.after_rect.width, pt(475));
    assert_eq!(geom.after_rect.height, pt(20));

    // sidebar top = 50+30=80, sidebar h = 742-30-20=692
    // region-start: x=60, y=80, w=50, h=692
    assert_eq!(geom.start_rect.x, pt(60));
    assert_eq!(geom.start_rect.y, pt(80));
    assert_eq!(geom.start_rect.width, pt(50));
    assert_eq!(geom.start_rect.height, pt(692));

    // region-end: x=60+475-40=495, y=80, w=40, h=692
    assert_eq!(geom.end_rect.x, pt(495));
    assert_eq!(geom.end_rect.y, pt(80));
    assert_eq!(geom.end_rect.width, pt(40));
    assert_eq!(geom.end_rect.height, pt(692));

    // region-body: x=60+50=110, y=80, w=475-50-40=385, h=692
    assert_eq!(geom.body_rect.x, pt(110));
    assert_eq!(geom.body_rect.y, pt(80));
    assert_eq!(geom.body_rect.width, pt(385));
    assert_eq!(geom.body_rect.height, pt(692));
}

#[test]
fn test_page_region_geometry_body_margins_and_defaults() {
    let engine = LayoutEngine::new();
    let master = SimplePageMaster {
        master_name: "m".to_string(),
        page_width: None,
        page_height: None,
        margin_top: None,
        margin_bottom: None,
        margin_left: None,
        margin_right: None,
        regions: vec![
            RegionSpec::Before { extent: Some(pt(10)) },
            RegionSpec::Before { extent: Some(pt(20)) },
            RegionSpec::Body { margin_top: Some(pt(5)), margin_bottom: None, margin_left: Some(pt(7)), margin_right: None },
        ],
    };
    let geom = engine.extract_page_region_geometry(&vec![master], "m");
    // the engine's A4 page, one-inch margins; the later region-before wins
    assert_eq!(geom.page_width, Length::from_mm(210));
    assert_eq!(geom.before_rect.height, pt(20));
    assert_eq!(geom.body_rect.x, pt(79));
    assert_eq!(geom.body_rect.y, pt(97));
    assert_eq!(geom.body_rect.width.millipoints(), Length::from_mm(210).millipoints() - 144000 - 7000);
}

#[test]
fn test_page_region_geometry_unknown_master_falls_back() {
    let engine = LayoutEngine::new();
    let geom = engine.extract_page_region_geometry(&vec![test_master()], "other");
    assert_eq!(geom.page_height, Length::from_mm(297));
    assert_eq!(geom.body_rect.x, pt(72));
    assert_eq!(geom.body_rect.y, pt(72));
    assert_eq!(geom.body_rect.height.millipoints(), Length::from_mm(297).millipoints() - 144000);
    assert_eq!(geom.before_rect.width, Length::zero());
}
