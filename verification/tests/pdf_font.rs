use fop_verified::pdf_font::{
    cap_height_or_estimate, font_flags, stem_v_for_weight, generate_cidfont_dict, generate_font_descriptor, generate_font_dictionary, generate_font_stream_header,
    generate_to_unicode_cmap, FontManager, FontSubsetter, GlyphMap, PdfFont,
};

fn minimal_pdf_font() -> PdfFont {
    PdfFont {
        font_name: "TestFont".to_string(),
        font_data: vec![0u8; 100],
        flags: 32,
        bbox: [-100, -200, 900, 800],
        italic_angle: 0,
        ascent: 800,
        descent: -200,
        cap_height: 700,
        stem_v: 80,
        widths: vec![500; 95],
        first_char: 32,
        last_char: 126,
        units_per_em: 1000,
        char_to_glyph: GlyphMap::new(),
    }
}

#[test]
fn test_font_manager_creation() {
    let manager = FontManager::new();
    assert_eq!(manager.font_count(), 0);
}

#[test]
fn test_font_manager_default() {
    let manager = FontManager::default();
    assert_eq!(manager.font_count(), 0);
}

#[test]
fn test_font_subsetter_creation() {
    let subsetter = FontSubsetter::new();
    assert!(subsetter.is_empty());
    assert_eq!(subsetter.used_chars().len(), 0);
}

#[test]
fn test_font_subsetter_record_text() {
    let mut subsetter = FontSubsetter::new();
    subsetter.record_text("Hello");
    assert!(!subsetter.is_empty());
    assert_eq!(subsetter.used_chars().len(), 4);
    assert!(subsetter.used_chars().contains(&'H'));
    assert!(subsetter.used_chars().contains(&'e'));
    assert!(subsetter.used_chars().contains(&'l'));
    assert!(subsetter.used_chars().contains(&'o'));
}

#[test]
fn test_font_subsetter_multiple_texts() {
    let mut subsetter = FontSubsetter::new();
    subsetter.record_text("ABC");
    subsetter.record_text("BCD");
    assert_eq!(subsetter.used_chars().len(), 4);
    assert!(subsetter.used_chars().contains(&'A'));
    assert!(subsetter.used_chars().contains(&'B'));
    assert!(subsetter.used_chars().contains(&'C'));
    assert!(subsetter.used_chars().contains(&'D'));
}

#[test]
fn test_font_manager_record_text() {
    let mut manager = FontManager::new();
    manager.record_text(0, "test");
}

#[test]
fn test_subsetter_unicode_support() {
    let mut subsetter = FontSubsetter::new();
    subsetter.record_text("Hello 世界");
    assert!(subsetter.used_chars().contains(&'H'));
    assert!(subsetter.used_chars().contains(&'世'));
    assert!(subsetter.used_chars().contains(&'界'));
}

#[test]
fn test_subsetter_special_characters() {
    let mut subsetter = FontSubsetter::new();
    subsetter.record_text("!@#$%^&*()");
    assert!(subsetter.used_chars().contains(&'!'));
    assert!(subsetter.used_chars().contains(&'@'));
    assert!(subsetter.used_chars().contains(&'#'));
    assert!(subsetter.used_chars().contains(&'('));
    assert!(subsetter.used_chars().contains(&')'));
}

#[test]
fn test_font_subsetter_empty_initially() {
    let s = FontSubsetter::new();
    assert!(s.is_empty());
}

#[test]
fn test_font_subsetter_deduplicates() {
    let mut s = FontSubsetter::new();
    s.record_text("aaa");
    assert_eq!(s.used_chars().len(), 1);
    assert!(s.used_chars().contains(&'a'));
}

#[test]
fn test_font_subsetter_is_not_empty_after_text() {
    let mut s = FontSubsetter::new();
    s.record_text("X");
    assert!(!s.is_empty());
}

#[test]
fn test_font_manager_default_empty() {
    let m = FontManager::default();
    assert_eq!(m.font_count(), 0);
    assert!(m.get_font(0).is_none());
    assert!(m.get_subsetter(0).is_none());
}

#[test]
fn test_font_manager_find_by_name_empty() {
    let m = FontManager::new();
    assert!(m.find_by_name("Arial").is_none());
}

#[test]
fn test_generate_font_descriptor_contains_font_name() {
    let font = minimal_pdf_font();
    let descriptor = generate_font_descriptor(&font, 42);
    assert!(descriptor.contains("TestFont"));
    assert!(descriptor.contains("/FontDescriptor"));
}

#[test]
fn test_generate_font_descriptor_references_stream_obj() {
    let font = minimal_pdf_font();
    let descriptor = generate_font_descriptor(&font, 99);
    assert!(descriptor.contains("99"));
}

#[test]
fn test_generate_font_stream_header_contains_length() {
    let font = minimal_pdf_font();
    let header = generate_font_stream_header(&font);
    assert!(header.contains("/Length"));
    assert!(header.contains("100"));
}

#[test]
fn test_generate_font_dictionary_type0() {
    let font = minimal_pdf_font();
    let dict = generate_font_dictionary(&font, 10, Some(15));
    assert!(dict.contains("/Type /Font"));
    assert!(dict.contains("/Subtype /Type0"));
    assert!(dict.contains("TestFont"));
}

#[test]
fn test_generate_font_dictionary_no_to_unicode() {
    let font = minimal_pdf_font();
    let dict = generate_font_dictionary(&font, 10, None);
    assert!(!dict.contains("/ToUnicode"));
}

#[test]
fn test_generate_to_unicode_cmap_identity_range() {
    let mut font = minimal_pdf_font();
    font.first_char = 65;
    font.last_char = 67;
    font.widths = vec![500; 3];
    let cmap = generate_to_unicode_cmap(&font);
    assert!(cmap.contains("begincmap"));
    assert!(cmap.contains("endcmap"));
    assert!(cmap.contains("<0041> <0041>"));
    assert!(cmap.contains("<0042> <0042>"));
}

#[test]
fn test_generate_to_unicode_cmap_with_char_map() {
    let mut font = minimal_pdf_font();
    font.char_to_glyph.insert('A', 100);
    font.char_to_glyph.insert('Z', 200);
    let cmap = generate_to_unicode_cmap(&font);
    assert!(cmap.contains("begincmap"));
    assert!(cmap.contains("beginbfchar"));
    assert!(cmap.contains("<0041> <0041>"));
}

#[test]
fn test_generate_font_objects_empty_manager() {
    let manager = FontManager::new();
    let objects = manager.generate_font_objects(10).expect("test: should succeed");
    assert!(objects.is_empty());
}

// ---- further checks ----

#[test]
fn subsetter_keeps_characters_sorted() {
    let mut s = FontSubsetter::new();
    s.record_text("dcba");
    assert_eq!(s.used_chars(), &vec!['a', 'b', 'c', 'd']);
}

#[test]
fn embedding_garbage_fails_with_a_parse_error() {
    let mut m = FontManager::new();
    let r = m.embed_font(vec![1, 2, 3, 4]);
    assert!(r.is_err());
    assert_eq!(m.font_count(), 0);
    assert!(PdfFont::from_ttf_data(vec![0u8; 8]).is_err());
}

#[test]
fn char_width_inside_and_outside_the_range() {
    let mut font = minimal_pdf_font();
    font.widths[1] = 278;
    assert_eq!(font.char_width('!'), 278);
    assert_eq!(font.char_width(' '), 500);
    assert_eq!(font.char_width('é'), 500);
    font.units_per_em = 2048;
    assert_eq!(font.char_width('\u{7f}'), 1024);
}

#[test]
fn descriptor_exact_text() {
    let font = minimal_pdf_font();
    assert_eq!(
        generate_font_descriptor(&font, 7),
        "<<\n/Type /FontDescriptor\n/FontName /TestFont\n/Flags 32\n/FontBBox [-100 -200 900 800]\n/ItalicAngle 0\n/Ascent 800\n/Descent -200\n/CapHeight 700\n/StemV 80\n/FontFile2 7 0 R\n>>"
    );
}

#[test]
fn type0_dictionary_with_to_unicode_keeps_the_indentation() {
    let font = minimal_pdf_font();
    assert_eq!(
        generate_font_dictionary(&font, 10, Some(15)),
        "<<\n/Type /Font\n/Subtype /Type0\n/BaseFont /TestFont\n/Encoding /Identity-H\n/DescendantFonts [10 0 R]\n/ToUnicode 15 0 R\n         >>"
    );
}

#[test]
fn cidfont_dictionary_lists_widths_from_first_char() {
    let mut font = minimal_pdf_font();
    font.widths = vec![1, 2];
    let dict = generate_cidfont_dict(&font, 3, 4);
    assert!(dict.contains("/DW 500\n/W [32 [1 2]]\n         /CIDToGIDMap 4 0 R\n>>"));
}

#[test]
fn glyph_map_insert_replaces_in_place() {
    let mut g = GlyphMap::new();
    g.insert('A', 1);
    g.insert('B', 2);
    g.insert('A', 3);
    assert_eq!(g.len(), 2);
    assert_eq!(g.get('A'), Some(3));
    assert_eq!(g.entry(0), ('A', 3));
}

#[test]
fn cap_height_stem_and_flags_helpers() {
    assert_eq!(cap_height_or_estimate(None, 1000), 700);
    assert_eq!(cap_height_or_estimate(None, -7), -4);
    assert_eq!(cap_height_or_estimate(Some(650), 1000), 650);
    assert_eq!(stem_v_for_weight(400), 20);
    assert_eq!(stem_v_for_weight(700), 80);
    assert_eq!(stem_v_for_weight(100), 20);
    assert_eq!(stem_v_for_weight(1000), 120);
    assert_eq!(font_flags(true, -12, true), 32 | 1 | 64 | 0x40000);
    assert_eq!(font_flags(false, 0, false), 32);
}

#[test]
fn test_pdf_font_text_units() {
    let font = minimal_pdf_font();
    assert_eq!(font.text_units(""), 0);
    assert_eq!(font.text_units("AB"), 1000);
    assert_eq!(font.text_units("é"), 500);
    let mut narrow = minimal_pdf_font();
    narrow.widths[('A' as usize) - 32] = 250;
    assert_eq!(narrow.text_units("AAB"), 1000);
}
