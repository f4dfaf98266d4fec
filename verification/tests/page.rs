use fop_verified::geometry::Color;
use fop_verified::length::Length;
use fop_verified::page::{build_spacing_ops, push_pt, push_pt_fixed3, PdfPage};
use fop_verified::pdf_font::FontManager;

fn content_text(page: &PdfPage) -> String {
    String::from_utf8(page.content.clone()).unwrap()
}

#[test]
fn test_push_pt_shortest_form() {
    let mut s = String::new();
    push_pt(&mut s, Length::from_pt(12));
    assert_eq!(s, "12");
    let mut s = String::new();
    push_pt(&mut s, Length::from_millipoints(12500));
    assert_eq!(s, "12.5");
    let mut s = String::new();
    push_pt(&mut s, Length::from_millipoints(-250));
    assert_eq!(s, "-0.25");
    let mut s = String::new();
    push_pt(&mut s, Length::from_millipoints(1001));
    assert_eq!(s, "1.001");
    let mut s = String::new();
    push_pt(&mut s, Length::zero());
    assert_eq!(s, "0");
}

#[test]
fn test_push_pt_fixed3() {
    let mut s = String::new();
    push_pt_fixed3(&mut s, Length::from_pt(100));
    assert_eq!(s, "100.000");
    let mut s = String::new();
    push_pt_fixed3(&mut s, Length::from_millipoints(-1));
    assert_eq!(s, "-0.001");
    let mut s = String::new();
    push_pt_fixed3(&mut s, Length::from_millipoints(72050));
    assert_eq!(s, "72.050");
}

#[test]
fn test_spacing_ops_none_and_zero_give_nothing() {
    assert_eq!(build_spacing_ops(None, None), "");
    assert_eq!(build_spacing_ops(Some(Length::zero()), Some(Length::zero())), "");
}

#[test]
fn test_spacing_ops_letter_and_word() {
    assert_eq!(build_spacing_ops(Some(Length::from_millipoints(500)), None), "0.5000 Tc\n");
    assert_eq!(build_spacing_ops(None, Some(Length::from_pt(2))), "2.0000 Tw\n");
    assert_eq!(
        build_spacing_ops(Some(Length::from_millipoints(-250)), Some(Length::from_millipoints(1500))),
        "-0.2500 Tc\n1.5000 Tw\n"
    );
}

#[test]
fn test_new_page_is_empty() {
    let page = PdfPage::new(Length::from_pt(595), Length::from_pt(842));
    assert_eq!(page.width, Length::from_pt(595));
    assert_eq!(page.height, Length::from_pt(842));
    assert!(page.content.is_empty());
}

#[test]
fn test_add_text_standard_font() {
    let mut page = PdfPage::new(Length::from_pt(595), Length::from_pt(842));
    page.add_text("Hi", Length::from_millipoints(56500), Length::from_pt(700), Length::from_pt(12));
    assert_eq!(content_text(&page), "BT\n/F1 12 Tf\n56.5 700 Td\n(Hi) Tj\nET\n");
}

#[test]
fn test_add_text_with_spacing() {
    let mut page = PdfPage::new(Length::from_pt(595), Length::from_pt(842));
    page.add_text_with_spacing(
        "A B",
        Length::from_pt(10),
        Length::from_pt(20),
        Length::from_pt(11),
        Some(Length::from_millipoints(500)),
        Some(Length::from_pt(1)),
    );
    assert_eq!(content_text(&page), "BT\n/F1 11 Tf\n0.5000 Tc\n1.0000 Tw\n10 20 Td\n(A B) Tj\nET\n");
}

#[test]
fn test_add_text_with_font_uses_hex_and_shifted_name() {
    let mut page = PdfPage::new(Length::from_pt(595), Length::from_pt(842));
    page.add_text_with_font("Aé", Length::from_pt(1), Length::from_pt(2), Length::from_pt(9), 0);
    assert_eq!(content_text(&page), "BT\n/F2 9 Tf\n1 2 Td\n<004100E9> Tj\nET\n");
}

#[test]
fn test_add_text_with_font_surrogate_pair() {
    let mut page = PdfPage::new(Length::from_pt(595), Length::from_pt(842));
    page.add_text_with_font("\u{1F600}", Length::zero(), Length::zero(), Length::from_pt(10), 3);
    assert_eq!(content_text(&page), "BT\n/F5 10 Tf\n0 0 Td\n<D83DDE00> Tj\nET\n");
}

#[test]
fn test_add_text_with_font_tracked_appends_the_same_text() {
    let mut page = PdfPage::new(Length::from_pt(595), Length::from_pt(842));
    let mut manager = FontManager::new();
    page.add_text_with_font_tracked("ab", Length::from_pt(5), Length::from_pt(6), Length::from_pt(8), 0, &mut manager);
    assert_eq!(content_text(&page), "BT\n/F2 8 Tf\n5 6 Td\n<00610062> Tj\nET\n");
    assert_eq!(manager.font_count(), 0);
}

#[test]
fn test_add_image_operators() {
    let mut page = PdfPage::new(Length::from_pt(595), Length::from_pt(842));
    page.add_image(2, Length::from_pt(10), Length::from_millipoints(20500), Length::from_pt(100), Length::from_pt(50));
    assert_eq!(content_text(&page), "q\n100.000 0 0 50.000 10.000 20.500 cm\n/Im2 Do\nQ\n");
}

#[test]
fn test_clip_state_save_and_restore() {
    let mut page = PdfPage::new(Length::from_pt(595), Length::from_pt(842));
    assert!(page.save_clip_state(Length::from_pt(1), Length::from_pt(2), Length::from_pt(3), Length::from_pt(4)).is_ok());
    page.add_text("x", Length::zero(), Length::zero(), Length::from_pt(12));
    assert!(page.restore_clip_state().is_ok());
    assert_eq!(
        content_text(&page),
        "q\n1.000 2.000 3.000 4.000 re W n\nBT\n/F1 12 Tf\n0 0 Td\n(x) Tj\nET\nQ\n"
    );
}

#[test]
fn test_operations_append_in_order() {
    let mut page = PdfPage::new(Length::from_pt(595), Length::from_pt(842));
    page.add_text("a", Length::zero(), Length::zero(), Length::from_pt(12));
    let first = content_text(&page);
    page.add_text("b", Length::zero(), Length::zero(), Length::from_pt(12));
    let both = content_text(&page);
    assert!(both.starts_with(&first));
    assert_eq!(both.len(), 2 * first.len());
}

#[test]
fn test_add_rule_styles_and_colour() {
    let mut page = PdfPage::new(Length::from_pt(595), Length::from_pt(842));
    let grey = Color { r: 128, g: 0, b: 255 };
    page.add_rule(Length::from_pt(10), Length::from_pt(20), Length::from_pt(100), Length::from_millipoints(500), grey, "dashed");
    assert_eq!(
        content_text(&page),
        "0.502 0.000 1.000 RG\n0.500 w\n[6 3] 0 d\n10.000 20.000 m 110.000 20.000 l S\n"
    );
    let mut page = PdfPage::new(Length::from_pt(595), Length::from_pt(842));
    page.add_rule(Length::zero(), Length::zero(), Length::from_pt(5), Length::from_pt(1), Color::black(), "dotted");
    assert!(content_text(&page).contains("[1 2] 0 d\n"));
    let mut page = PdfPage::new(Length::from_pt(595), Length::from_pt(842));
    page.add_rule(Length::zero(), Length::zero(), Length::from_pt(5), Length::from_pt(1), Color::black(), "groove");
    assert!(content_text(&page).contains("[] 0 d\n"));
}

#[test]
fn test_tracked_text_writes_what_untracked_text_writes() {
    let mut p = PdfPage::new(Length::from_pt(595), Length::from_pt(842));
    let mut q = PdfPage::new(Length::from_pt(595), Length::from_pt(842));
    let mut manager = FontManager::new();
    p.add_text_with_font_tracked("héllo", Length::from_pt(5), Length::from_pt(6), Length::from_pt(8), 2, &mut manager);
    q.add_text_with_font("héllo", Length::from_pt(5), Length::from_pt(6), Length::from_pt(8), 2);
    assert_eq!(p.content, q.content);
    assert_eq!(manager.font_count(), 0);
    assert!(manager.get_subsetter(2).is_none());
}
