use std::collections::HashMap;
use fop_verified::cidfont::{
    encode_pdf_text,
    encode_text_utf16be, generate_cidfont_dict, generate_cidfont_tounicode_cmap, generate_cidtogidmap_stream,
    generate_type0_font_dict,
};
use fop_verified::pdf_font::GlyphMap;

#[test]
fn test_encode_text_utf16be_ascii() {
    let encoded = encode_text_utf16be("Hello");
    assert!(encoded.starts_with("<FEFF"));
    assert!(encoded.ends_with('>'));
    assert!(encoded.contains("0048"));
    assert!(encoded.contains("0065"));
}

#[test]
fn test_encode_text_utf16be_japanese() {
    let encoded = encode_text_utf16be("請求書");
    assert!(encoded.starts_with("<FEFF"));
    assert!(encoded.contains("8ACB"));
    assert!(encoded.contains("6C42"));
    assert!(encoded.contains("66F8"));
}

#[test]
fn test_encode_text_utf16be_mixed() {
    let encoded = encode_text_utf16be("Hello世界");
    assert!(encoded.starts_with("<FEFF"));
    assert!(encoded.contains("0048"));
    assert!(encoded.contains("4E16"));
    assert!(encoded.contains("754C"));
}

#[test]
fn test_tounicode_cmap_generation() {
    let mut char_map = HashMap::new();
    char_map.insert(100, 'A');
    char_map.insert(200, '請');
    let cmap = generate_cidfont_tounicode_cmap(&char_map);
    assert!(cmap.contains("begincmap"));
    assert!(cmap.contains("endbfchar"));
    assert!(cmap.contains("<0064> <0041>"));
    assert!(cmap.contains("<00C8> <8ACB>"));
}

#[test]
fn test_type0_font_dict_structure() {
    let dict = generate_type0_font_dict("NotoSans", 5, 6);
    assert!(dict.contains("/Type /Font"));
    assert!(dict.contains("/Subtype /Type0"));
    assert!(dict.contains("/Encoding /Identity-H"));
    assert!(dict.contains("NotoSans"));
    assert!(dict.contains("5 0 R"));
    assert!(dict.contains("6 0 R"));
}

#[test]
fn test_type0_font_dict_base_font_name_format() {
    let dict = generate_type0_font_dict("MyFont", 10, 11);
    assert!(dict.contains("MyFont-Identity-H"));
}

#[test]
fn test_cidfont_dict_structure() {
    let widths = vec![500u16; 10];
    let dict = generate_cidfont_dict("NotoSans", 3, &widths, 500);
    assert!(dict.contains("/Type /Font"));
    assert!(dict.contains("/Subtype /CIDFontType2"));
    assert!(dict.contains("/Registry (Adobe)"));
    assert!(dict.contains("/Ordering (Identity)"));
    assert!(dict.contains("NotoSans"));
}

#[test]
fn test_cidfont_dict_contains_descriptor_ref() {
    let widths = vec![600u16; 5];
    let dict = generate_cidfont_dict("TestFont", 42, &widths, 600);
    assert!(dict.contains("42 0 R"));
}

#[test]
fn test_cidfont_dict_default_width() {
    let widths: Vec<u16> = vec![];
    let dict = generate_cidfont_dict("Font", 1, &widths, 1000);
    assert!(dict.contains("/DW 1000"));
}

#[test]
fn test_tounicode_cmap_empty_map() {
    let char_map = HashMap::new();
    let cmap = generate_cidfont_tounicode_cmap(&char_map);
    assert!(cmap.contains("begincmap"));
    assert!(cmap.contains("endcmap"));
}

#[test]
fn test_encode_text_utf16be_empty() {
    let encoded = encode_text_utf16be("");
    assert!(encoded.starts_with("<FEFF"));
    assert!(encoded.ends_with('>'));
}

#[test]
fn test_generate_cidtogidmap_stream_empty() {
    let char_to_glyph = GlyphMap::new();
    let used_chars: Vec<char> = Vec::new();
    let map = generate_cidtogidmap_stream(&char_to_glyph, &used_chars);
    assert_eq!(map, vec![0u8; 2]);
}

#[test]
fn test_generate_cidtogidmap_stream_single_char() {
    let mut char_to_glyph = GlyphMap::new();
    char_to_glyph.insert('A', 36);
    let used_chars = vec!['A'];
    let map = generate_cidtogidmap_stream(&char_to_glyph, &used_chars);
    assert_eq!(map.len(), 132);
    assert_eq!(map[130], 0x00);
    assert_eq!(map[131], 0x24);
}

// ---- further checks ----

#[test]
fn surrogate_pairs_for_characters_beyond_the_bmp() {
    // U+1F600 is D83D DE00 in UTF-16
    assert_eq!(encode_text_utf16be("\u{1F600}"), "<FEFFD83DDE00>");
}

#[test]
fn type0_dictionary_exact_text() {
    assert_eq!(
        generate_type0_font_dict("F", 5, 6),
        "<<\n/Type /Font\n/Subtype /Type0\n/BaseFont /F-Identity-H\n/Encoding /Identity-H\n/DescendantFonts [5 0 R]\n/ToUnicode 6 0 R\n>>"
    );
}

#[test]
fn cidfont_widths_are_space_separated() {
    let dict = generate_cidfont_dict("F", 1, &[1, 22, 333], 7);
    assert!(dict.contains("/W [0 [1 22 333 ]]"));
}

#[test]
fn cidtogidmap_big_endian_glyph_ids() {
    let mut g = GlyphMap::new();
    g.insert('B', 0x1234);
    let map = generate_cidtogidmap_stream(&g, &vec!['A', 'B']);
    assert_eq!(map.len(), 2 * (0x42 + 1));
    assert_eq!((map[0x84], map[0x85]), (0x12, 0x34));
    assert_eq!((map[0x82], map[0x83]), (0, 0));
}

#[test]
fn test_encode_pdf_text_has_no_byte_order_mark() {
    assert_eq!(encode_pdf_text("AB"), "<00410042>");
    assert_eq!(encode_pdf_text(""), "<>");
    assert_eq!(encode_pdf_text("😀"), "<D83DDE00>");
    assert_eq!(encode_text_utf16be("A"), "<FEFF0041>");
}
