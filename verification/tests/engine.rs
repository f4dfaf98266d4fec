use fop_verified::engine::{LayoutEngine, LineCap, LineJoin, ParallelRenderer, StreamingConfig, StreamingLayoutEngine};
use fop_verified::raster::RasterPage;
use fop_verified::Length;

#[test]
fn test_engine_creation() {
    let engine = LayoutEngine::new();
    assert_eq!(engine.page_width, Length::from_mm(210));
    assert_eq!(engine.page_height, Length::from_mm(297));
}

#[test]
fn test_streaming_engine_creation() {
    let engine = StreamingLayoutEngine::new();
    assert_eq!(engine.config.page_width, Length::from_mm(210));
    assert_eq!(engine.config.page_height, Length::from_mm(297));
    assert_eq!(engine.config.max_memory_pages, 10);
}

#[test]
fn test_custom_config() {
    let config = StreamingConfig {
        max_memory_pages: 5,
        page_width: Length::from_tenths_mm(2159),
        page_height: Length::from_tenths_mm(2794),
    };
    let engine = StreamingLayoutEngine::with_config(config);
    assert_eq!(engine.config.max_memory_pages, 5);
    assert_eq!(engine.config.page_width, Length::from_tenths_mm(2159));
}

#[test]
fn test_streaming_config_default_page_width_is_a4() {
    let config = StreamingConfig::default();
    assert_eq!(config.page_width, Length::from_mm(210));
}

#[test]
fn test_streaming_config_default_page_height_is_a4() {
    let config = StreamingConfig::default();
    assert_eq!(config.page_height, Length::from_mm(297));
}

#[test]
fn test_streaming_config_default_max_memory_pages_is_ten() {
    let config = StreamingConfig::default();
    assert_eq!(config.max_memory_pages, 10);
}

#[test]
fn test_streaming_config_clone() {
    let config = StreamingConfig::default();
    let cloned = config.clone();
    assert_eq!(cloned.max_memory_pages, config.max_memory_pages);
    assert_eq!(cloned.page_width, config.page_width);
    assert_eq!(cloned.page_height, config.page_height);
}

#[test]
fn test_streaming_config_debug() {
    let config = StreamingConfig::default();
    let dbg = format!("{:?}", config);
    assert!(dbg.contains("StreamingConfig"));
}

#[test]
fn test_engine_default_equals_new() {
    let a = StreamingLayoutEngine::new();
    let b = StreamingLayoutEngine::default();
    assert_eq!(a.config.max_memory_pages, b.config.max_memory_pages);
    assert_eq!(a.config.page_width, b.config.page_width);
}

#[test]
fn test_engine_with_custom_page_size_letter() {
    let config = StreamingConfig {
        page_width: Length::from_tenths_mm(2159),
        page_height: Length::from_tenths_mm(2794),
        max_memory_pages: 5,
    };
    let engine = StreamingLayoutEngine::with_config(config);
    assert_eq!(engine.config.page_width, Length::from_tenths_mm(2159));
    assert_eq!(engine.config.page_height, Length::from_tenths_mm(2794));
    assert_eq!(engine.config.max_memory_pages, 5);
}

#[test]
fn test_engine_with_large_memory_limit() {
    let config = StreamingConfig { max_memory_pages: 1000, ..Default::default() };
    let engine = StreamingLayoutEngine::with_config(config);
    assert_eq!(engine.config.max_memory_pages, 1000);
}

#[test]
fn test_engine_with_single_page_memory_limit() {
    let config = StreamingConfig { max_memory_pages: 1, ..Default::default() };
    let engine = StreamingLayoutEngine::with_config(config);
    assert_eq!(engine.config.max_memory_pages, 1);
}

#[test]
fn test_parallel_renderer_creation() {
    let renderer = ParallelRenderer::new(4);
    assert_eq!(renderer.num_threads, 4);
}

#[test]
fn test_parallel_renderer_new_various_counts() {
    for n in [0, 1, 4, 16] {
        let r = ParallelRenderer::new(n);
        assert_eq!(r.num_threads, n);
    }
}

#[test]
fn test_raster_page_dimensions_preserved() {
    let page = RasterPage { width: 100, height: 200, pixels: vec![0u8; 100 * 200 * 4] };
    assert_eq!(page.width, 100);
    assert_eq!(page.height, 200);
}

// ---- further checks ----

#[test]
fn a4_is_595_by_842_points_to_the_millipoint() {
    let engine = LayoutEngine::new();
    assert_eq!(engine.page_width.millipoints(), 595276);
    assert_eq!(engine.page_height.millipoints(), 841890);
    assert!(!engine.is_streaming_mode());
    assert!(engine.with_streaming_mode(true).is_streaming_mode());
}

#[test]
fn letter_width_from_tenths_of_millimetres() {
    // 215.9 mm = 8.5 in = 612 pt
    assert_eq!(Length::from_tenths_mm(2159), Length::from_pt(612));
}

#[test]
fn line_style_defaults() {
    assert_eq!(LineCap::default(), LineCap::Butt);
    assert_eq!(LineJoin::default(), LineJoin::Miter);
}

#[test]
fn test_effective_threads_auto() {
    let renderer = ParallelRenderer::new(0);
    let threads = renderer.effective_threads(None);
    assert!(threads >= 1);
    assert_eq!(renderer.effective_threads(Some(6)), 6);
}

#[test]
fn test_effective_threads_explicit() {
    let renderer = ParallelRenderer::new(8);
    assert_eq!(renderer.effective_threads(Some(2)), 8);
    assert_eq!(renderer.effective_threads(None), 8);
}

#[test]
fn test_effective_threads_returns_at_least_one() {
    for n in [0, 1, 2, 4, 8] {
        let r = ParallelRenderer::new(n);
        assert!(r.effective_threads(None) >= 1, "effective_threads should be >= 1 for num_threads={}", n);
        assert!(r.effective_threads(Some(3)) >= 1, "effective_threads should be >= 1 for num_threads={}", n);
    }
}

#[test]
fn test_raster_page_to_png_produces_valid_png_header() {
    let page = RasterPage { width: 2, height: 2, pixels: vec![255u8; 2 * 2 * 4] };
    let png = page.to_png().expect("to_png should succeed");
    assert!(!png.is_empty(), "PNG output should not be empty");
    assert_eq!(&png[0..4], &[0x89, b'P', b'N', b'G'], "Should have PNG magic bytes");
}

#[test]
fn test_raster_page_to_png_refuses_wrong_pixel_count() {
    let page = RasterPage { width: 2, height: 2, pixels: vec![255u8; 15] };
    assert!(page.to_png().is_err());
    let empty = RasterPage { width: 0, height: 2, pixels: vec![] };
    assert!(empty.to_png().is_err());
}

#[test]
fn test_raster_page_png_is_deterministic() {
    let page = RasterPage { width: 3, height: 1, pixels: vec![10, 20, 30, 255, 0, 0, 0, 0, 1, 2, 3, 4] };
    assert_eq!(page.to_png().unwrap(), page.to_png().unwrap());
    assert_eq!(&page.to_png().unwrap()[..8], &[137, 80, 78, 71, 13, 10, 26, 10]);
}

#[test]
fn test_lengths_from_large_millimetre_values() {
    assert_eq!(fop_verified::Length::from_mm(10000).millipoints(), 28346457);
    assert_eq!(fop_verified::Length::from_mm(-10000).millipoints(), -28346457);
    assert_eq!(fop_verified::Length::from_tenths_mm(100000).millipoints(), 28346457);
}
