use fop_verified::to_unicode::{parse_bf_char_line, parse_bf_range_line, parse_hex_u32, parse_to_unicode};
use fop_verified::cidfont::generate_cidfont_tounicode_cmap;
use fop_verified::pdf_font::{generate_to_unicode_cmap, GlyphMap, PdfFont};
use std::collections::HashMap;

#[test]
fn test_parse_hex_u32_simple() {
    assert_eq!(parse_hex_u32("<0041>"), Some(0x0041));
}

#[test]
fn test_parse_hex_u32_without_brackets() {
    assert_eq!(parse_hex_u32("0041"), Some(0x0041));
}

#[test]
fn test_parse_hex_u32_four_digit() {
    assert_eq!(parse_hex_u32("<30A2>"), Some(0x30A2));
}

#[test]
fn test_parse_hex_u32_zero() {
    assert_eq!(parse_hex_u32("<0000>"), Some(0));
}

#[test]
fn test_parse_hex_u32_ff() {
    assert_eq!(parse_hex_u32("<FF>"), Some(0xFF));
}

#[test]
fn test_parse_hex_u32_invalid_returns_none() {
    let v = parse_hex_u32("<GGGG>");
    assert!(v.is_none(), "Invalid hex should return None");
}

#[test]
fn test_parse_hex_u32_empty_returns_none() {
    let v = parse_hex_u32("<>");
    assert!(v.is_none(), "Empty hex should return None");
}

#[test]
fn test_parse_bf_char_line_basic() {
    assert_eq!(parse_bf_char_line("<0041> <0041>"), Some((0x0041u32, 'A')));
}

#[test]
fn test_parse_bf_char_line_japanese() {
    assert_eq!(parse_bf_char_line("<0001> <30A2>"), Some((1u32, '\u{30A2}')));
}

#[test]
fn test_parse_bf_char_line_missing_second_token() {
    let result = parse_bf_char_line("<0041>");
    assert!(result.is_none(), "Should return None with only one token");
}

#[test]
fn test_parse_bf_char_line_space_char() {
    assert_eq!(parse_bf_char_line("<0020> <0020>"), Some((0x0020u32, ' ')));
}

#[test]
fn test_parse_bf_char_line_digit() {
    assert_eq!(parse_bf_char_line("<0030> <0030>"), Some((0x30u32, '0')));
}

#[test]
fn test_parse_to_unicode_empty_cmap() {
    let data = b"/CIDInit /ProcSet findresource begin\nbegincmap\nendcmap\n";
    let map = parse_to_unicode(data);
    assert!(map.is_empty(), "Empty cmap should produce empty mapping");
}

#[test]
fn test_parse_to_unicode_single_bfchar() {
    let cmap = b"begincmap\n1 beginbfchar\n<0001> <0041>\nendbfchar\nendcmap\n";
    let map = parse_to_unicode(cmap);
    assert_eq!(map.get(&1), Some(&'A'));
}

#[test]
fn test_parse_to_unicode_multiple_bfchar() {
    let cmap = b"begincmap\n3 beginbfchar\n<0001> <0041>\n<0002> <0042>\n<0003> <0043>\nendbfchar\nendcmap\n";
    let map = parse_to_unicode(cmap);
    assert_eq!(map.get(&1), Some(&'A'));
    assert_eq!(map.get(&2), Some(&'B'));
    assert_eq!(map.get(&3), Some(&'C'));
}

#[test]
fn test_parse_to_unicode_bfrange_simple() {
    let cmap = b"begincmap\n1 beginbfrange\n<0020> <0022> <0041>\nendbfrange\nendcmap\n";
    let map = parse_to_unicode(cmap);
    assert_eq!(map.get(&0x20), Some(&'A'));
    assert_eq!(map.get(&0x21), Some(&'B'));
    assert_eq!(map.get(&0x22), Some(&'C'));
}

#[test]
fn test_parse_to_unicode_bfrange_single_element() {
    let cmap = b"begincmap\n1 beginbfrange\n<0005> <0005> <0041>\nendbfrange\nendcmap\n";
    let map = parse_to_unicode(cmap);
    assert_eq!(map.get(&5), Some(&'A'));
    assert_eq!(map.len(), 1);
}

#[test]
fn test_parse_to_unicode_bfchar_space() {
    let cmap = b"begincmap\n1 beginbfchar\n<0020> <0020>\nendbfchar\nendcmap\n";
    let map = parse_to_unicode(cmap);
    assert_eq!(map.get(&0x20), Some(&' '));
}

#[test]
fn test_parse_to_unicode_bfrange_digits() {
    let cmap = b"begincmap\n1 beginbfrange\n<0010> <0019> <0030>\nendbfrange\nendcmap\n";
    let map = parse_to_unicode(cmap);
    assert_eq!(map.get(&0x10), Some(&'0'));
    assert_eq!(map.get(&0x19), Some(&'9'));
    assert_eq!(map.len(), 10);
}

#[test]
fn test_parse_to_unicode_bfchar_and_bfrange_combined() {
    let cmap = b"begincmap\n1 beginbfchar\n<0001> <0041>\nendbfchar\n1 beginbfrange\n<0010> <0011> <0042>\nendbfrange\nendcmap\n";
    let map = parse_to_unicode(cmap);
    assert_eq!(map.get(&1), Some(&'A'));
    assert_eq!(map.get(&0x10), Some(&'B'));
    assert_eq!(map.get(&0x11), Some(&'C'));
}

#[test]
fn test_parse_to_unicode_ignores_malformed_lines() {
    let cmap = b"begincmap\n1 beginbfchar\nmalformed line here\n<0001> <0041>\nendbfchar\nendcmap\n";
    let map = parse_to_unicode(cmap);
    let _ = map;
}

// ---- further checks ----

#[test]
fn malformed_lines_are_skipped_and_good_ones_kept() {
    let cmap = b"1 beginbfchar\nmalformed line here\n<0001> <0041>\nendbfchar\n";
    let map = parse_to_unicode(cmap);
    assert_eq!(map.len(), 1);
    assert_eq!(map.get(&1), Some(&'A'));
}

#[test]
fn lines_outside_sections_are_ignored() {
    let map = parse_to_unicode(b"<0001> <0041>\n1 beginbfchar\nendbfchar\n<0002> <0042>\n");
    assert!(map.is_empty());
}

#[test]
fn crlf_lines_and_indentation_are_accepted() {
    let map = parse_to_unicode(b"1 beginbfchar\r\n   <0003> <0043>  \r\nendbfchar\r\n");
    assert_eq!(map.get(&3), Some(&'C'));
}

#[test]
fn hex_accepts_plus_sign_and_lower_case() {
    assert_eq!(parse_hex_u32(" <+ff> "), Some(255));
    assert_eq!(parse_hex_u32("<+>"), None);
    assert_eq!(parse_hex_u32("<100000000>"), None);
}

#[test]
fn surrogate_code_points_are_not_characters() {
    assert_eq!(parse_bf_char_line("<0001> <D800>"), None);
    let mut map = HashMap::new();
    parse_bf_range_line("<0001> <0003> <D7FF>", &mut map);
    assert_eq!(map.len(), 1);
    assert_eq!(map.get(&1), Some(&'\u{D7FF}'));
}

#[test]
fn a_range_ending_before_its_start_is_ignored() {
    let data = b"begincmap\n1 beginbfrange\n<0022> <0020> <0041>\nendbfrange\nendcmap\n";
    assert!(parse_to_unicode(data).is_empty());
    let mixed = b"1 beginbfrange\n<0005> <0001> <0041>\n<0001> <0002> <0041>\n<0003> <0004> <FFFFFFFF>\nendbfrange\n";
    let ok = parse_to_unicode(mixed);
    assert_eq!(ok.len(), 2);
    assert_eq!(ok.get(&1), Some(&'A'));
    assert_eq!(ok.get(&2), Some(&'B'));
    let mut m: HashMap<u32, char> = HashMap::new();
    parse_bf_range_line("<0022> <0020> <0041>", &mut m);
    assert!(m.is_empty());
}

#[test]
fn test_written_to_unicode_cmap_reads_back() {
    let mut map = GlyphMap::new();
    map.insert('A', 3);
    map.insert('é', 7);
    map.insert('😀', 9);
    let font = PdfFont {
        font_name: "T".to_string(),
        font_data: vec![],
        flags: 32,
        bbox: [0, 0, 1000, 1000],
        italic_angle: 0,
        ascent: 800,
        descent: -200,
        cap_height: 700,
        stem_v: 80,
        widths: vec![],
        first_char: 65,
        last_char: 65,
        units_per_em: 1000,
        char_to_glyph: map,
    };
    let cmap = generate_to_unicode_cmap(&font);
    let read = parse_to_unicode(cmap.as_bytes());
    assert_eq!(read.len(), 3);
    assert_eq!(read.get(&0x41), Some(&'A'));
    assert_eq!(read.get(&0xE9), Some(&'é'));
    assert_eq!(read.get(&0x1F600), Some(&'😀'));
}

#[test]
fn test_written_cid_to_unicode_cmap_reads_back() {
    let mut glyphs: HashMap<u16, char> = HashMap::new();
    glyphs.insert(3, 'A');
    glyphs.insert(700, '日');
    glyphs.insert(65535, '😀');
    let cmap = generate_cidfont_tounicode_cmap(&glyphs);
    let read = parse_to_unicode(cmap.as_bytes());
    assert_eq!(read.len(), 3);
    assert_eq!(read.get(&3), Some(&'A'));
    assert_eq!(read.get(&700), Some(&'日'));
    assert_eq!(read.get(&65535), Some(&'😀'));
}

#[test]
fn test_written_range_to_unicode_cmap_reads_back() {
    // A font that maps no characters gets identity lines for its code range; the surrogate
    // code U+D800 in the range is passed over by the reader.
    let font = PdfFont {
        font_name: "R".to_string(),
        font_data: vec![],
        flags: 32,
        bbox: [0, 0, 1000, 1000],
        italic_angle: 0,
        ascent: 800,
        descent: -200,
        cap_height: 700,
        stem_v: 80,
        widths: vec![],
        first_char: 0xD7FE,
        last_char: 0xD800,
        units_per_em: 1000,
        char_to_glyph: GlyphMap::new(),
    };
    let cmap = generate_to_unicode_cmap(&font);
    assert!(cmap.contains("3 beginbfchar\n<D7FE> <D7FE>\n<D7FF> <D7FF>\n<D800> <D800>\nendbfchar\n"));
    let read = parse_to_unicode(cmap.as_bytes());
    assert_eq!(read.len(), 2);
    assert_eq!(read.get(&0xD7FE), Some(&'\u{D7FE}'));
    assert_eq!(read.get(&0xD7FF), Some(&'\u{D7FF}'));
    assert_eq!(read.get(&0xD800), None);
}

#[test]
fn test_written_empty_cid_to_unicode_cmap_reads_back_empty() {
    let glyphs: HashMap<u16, char> = HashMap::new();
    let cmap = generate_cidfont_tounicode_cmap(&glyphs);
    assert!(!cmap.contains("beginbfchar"));
    assert!(parse_to_unicode(cmap.as_bytes()).is_empty());
}
