use fop_verified::{FontMetrics, FontRegistry, Length};

fn to_pt(l: Length) -> f64 {
    l.millipoints() as f64 / 1000.0
}

#[test]
fn test_helvetica_char_width() {
    let metrics = FontMetrics::helvetica();
    assert_eq!(metrics.char_width('A'), 667);
    assert_eq!(metrics.char_width('a'), 556);
    assert_eq!(metrics.char_width(' '), 278);
}

#[test]
fn test_measure_text() {
    let metrics = FontMetrics::helvetica();
    let font_size = Length::from_pt(12);
    let width = metrics.measure_text("Hello", font_size);
    assert!((to_pt(width) - 27.336).abs() < 0.01);
}

#[test]
fn test_unknown_character() {
    let metrics = FontMetrics::helvetica();
    assert_eq!(metrics.char_width('€'), 500);
}

#[test]
fn test_font_registry() {
    let registry = FontRegistry::new();
    assert!(registry.get("Helvetica").is_some());
    assert!(registry.get("Times-Roman").is_some());
    assert!(registry.get("NonExistent").is_none());
}

#[test]
fn test_get_or_default() {
    let registry = FontRegistry::new();
    let metrics = registry.get_or_default("NonExistent");
    assert_eq!(metrics.name, "Helvetica");
}

#[test]
fn test_times_roman() {
    let metrics = FontMetrics::times_roman();
    assert_eq!(metrics.char_width('A'), 722);
    assert_eq!(metrics.char_width('a'), 444);
    assert_eq!(metrics.name, "Times-Roman");
}

#[test]
fn test_courier() {
    let metrics = FontMetrics::courier();
    assert_eq!(metrics.char_width('A'), 600);
    assert_eq!(metrics.char_width('a'), 600);
    assert_eq!(metrics.char_width('i'), 600);
    assert_eq!(metrics.char_width('W'), 600);
    assert_eq!(metrics.char_width(' '), 600);
    assert_eq!(metrics.name, "Courier");
    assert_eq!(metrics.default_width, 600);
}

#[test]
fn test_symbol() {
    let metrics = FontMetrics::symbol();
    assert_eq!(metrics.char_width('α'), 631);
    assert_eq!(metrics.char_width('Ω'), 768);
    assert_eq!(metrics.char_width('∑'), 713);
    assert_eq!(metrics.char_width('∫'), 274);
    assert_eq!(metrics.char_width('∞'), 713);
    assert_eq!(metrics.name, "Symbol");
}

#[test]
fn test_zapf_dingbats() {
    let metrics = FontMetrics::zapf_dingbats();
    assert_eq!(metrics.char_width('✓'), 911);
    assert_eq!(metrics.char_width('★'), 790);
    assert_eq!(metrics.char_width('✉'), 791);
    assert_eq!(metrics.char_width('①'), 974);
    assert_eq!(metrics.name, "ZapfDingbats");
}

#[test]
fn test_font_registry_all_14_fonts() {
    let registry = FontRegistry::new();
    for name in [
        "Helvetica",
        "Helvetica-Bold",
        "Helvetica-Oblique",
        "Helvetica-BoldOblique",
        "Times-Roman",
        "Times-Bold",
        "Times-Italic",
        "Times-BoldItalic",
        "Courier",
        "Courier-Bold",
        "Courier-Oblique",
        "Courier-BoldOblique",
        "Symbol",
        "ZapfDingbats",
    ] {
        assert!(registry.get(name).is_some(), "{} missing", name);
    }
}

#[test]
fn test_courier_measure_text() {
    let metrics = FontMetrics::courier();
    let width = metrics.measure_text("Code", Length::from_pt(12));
    assert!((to_pt(width) - 28.8).abs() < 0.01);
}

#[test]
fn test_font_metrics_display() {
    let helvetica = FontMetrics::helvetica();
    let display = helvetica.describe();
    assert!(display.contains("Helvetica"));
    assert!(display.contains("ascender: 718"));
    assert!(display.contains("descender: -207"));
    assert!(display.contains("cap-height: 718"));
    assert!(display.contains("x-height: 523"));

    let times = FontMetrics::times_roman();
    let display = times.describe();
    assert!(display.contains("Times-Roman"));
    assert!(display.contains("ascender: 683"));

    let courier = FontMetrics::courier();
    let display = courier.describe();
    assert!(display.contains("Courier"));
    assert!(display.contains("descender: -157"));
}

// ---- further checks ----

#[test]
fn measured_width_is_exact_in_millipoints() {
    let metrics = FontMetrics::helvetica();
    // H 722 + e 556 + l 222 + l 222 + o 556 = 2278 units at 12pt
    assert_eq!(metrics.measure_text("Hello", Length::from_pt(12)).millipoints(), 27336);
    // 1 unit at 1 millipoint rounds half away from zero
    assert_eq!(metrics.measure_text("", Length::from_pt(12)).millipoints(), 0);
}

#[test]
fn description_has_the_exact_layout() {
    assert_eq!(
        FontMetrics::helvetica().describe(),
        "Helvetica (ascender: 718, descender: -207, cap-height: 718, x-height: 523)"
    );
}

#[test]
fn bold_and_italic_names_share_the_family_metrics() {
    let registry = FontRegistry::new();
    assert_eq!(registry.get("Times-BoldItalic").unwrap().name, "Times-Roman");
    assert_eq!(registry.get("Courier-Bold").unwrap().char_width('x'), 600);
    assert_eq!(registry.get_or_default("Symbol").name, "Symbol");
}
