use fop_verified::pdf_font::{FontManager, PdfFont};
use fop_verified::ttf::{ttf_glyph_advance, ttf_glyph_bounds, ttf_units_per_em};

fn push16(v: &mut Vec<u8>, x: u16) {
    v.extend_from_slice(&x.to_be_bytes());
}

fn push32(v: &mut Vec<u8>, x: u32) {
    v.extend_from_slice(&x.to_be_bytes());
}

/// A small TrueType font: 1000 units per em, ascender 800, descender -200, two glyphs with
/// advances 500 and 600, `A` mapped to glyph 1, and the PostScript name `Tiny`.
fn tiny_font() -> Vec<u8> {
    let mut cmap = Vec::new();
    push16(&mut cmap, 0); // version
    push16(&mut cmap, 1); // one encoding record
    push16(&mut cmap, 3); // Windows
    push16(&mut cmap, 1); // Unicode BMP
    push32(&mut cmap, 12); // subtable offset
    for x in [4u16, 32, 0, 4, 4, 1, 0, 0x41, 0xFFFF, 0, 0x41, 0xFFFF, 0xFFC0, 1, 0, 0] {
        push16(&mut cmap, x);
    }

    let mut head = Vec::new();
    push32(&mut head, 0x0001_0000); // version
    push32(&mut head, 0x0001_0000); // font revision
    push32(&mut head, 0); // checksum adjustment
    push32(&mut head, 0x5F0F_3CF5); // magic
    push16(&mut head, 0); // flags
    push16(&mut head, 1000); // units per em
    head.extend_from_slice(&[0u8; 16]); // created, modified
    for x in [-100i16, -200, 900, 800] {
        head.extend_from_slice(&x.to_be_bytes());
    }
    push16(&mut head, 0); // mac style
    push16(&mut head, 8); // lowest ppem
    push16(&mut head, 2); // direction hint
    push16(&mut head, 0); // index to location format
    push16(&mut head, 0); // glyph data format

    let mut hhea = Vec::new();
    push32(&mut hhea, 0x0001_0000);
    hhea.extend_from_slice(&800i16.to_be_bytes());
    hhea.extend_from_slice(&(-200i16).to_be_bytes());
    push16(&mut hhea, 0); // line gap
    hhea.extend_from_slice(&[0u8; 24]);
    push16(&mut hhea, 2); // number of metrics

    let mut hmtx = Vec::new();
    for x in [500u16, 0, 600, 0] {
        push16(&mut hmtx, x);
    }

    let mut maxp = Vec::new();
    push32(&mut maxp, 0x0000_5000);
    push16(&mut maxp, 2);

    let mut name = Vec::new();
    push16(&mut name, 0); // format
    push16(&mut name, 1); // count
    push16(&mut name, 18); // string offset
    for x in [3u16, 1, 0x0409, 6, 8, 0] {
        push16(&mut name, x);
    }
    for c in "Tiny".encode_utf16() {
        push16(&mut name, c);
    }

    let tables: Vec<(&[u8; 4], Vec<u8>)> =
        vec![(b"cmap", cmap), (b"head", head), (b"hhea", hhea), (b"hmtx", hmtx), (b"maxp", maxp), (b"name", name)];
    let mut out = Vec::new();
    push32(&mut out, 0x0001_0000);
    push16(&mut out, tables.len() as u16);
    push16(&mut out, 0);
    push16(&mut out, 0);
    push16(&mut out, 0);
    let mut offset = 12 + 16 * tables.len();
    for (tag, data) in &tables {
        out.extend_from_slice(&tag[..]);
        push32(&mut out, 0);
        push32(&mut out, offset as u32);
        push32(&mut out, data.len() as u32);
        offset += data.len();
    }
    for (_, data) in &tables {
        out.extend_from_slice(data);
    }
    out
}

#[test]
fn test_units_per_em_of_a_font() {
    assert_eq!(ttf_units_per_em(&tiny_font()), Some(1000));
}

#[test]
fn test_units_per_em_of_garbage() {
    assert_eq!(ttf_units_per_em(&[1, 2, 3, 4]), None);
    assert_eq!(ttf_units_per_em(&[]), None);
}

#[test]
fn test_glyph_advance_from_the_font() {
    let font = tiny_font();
    assert_eq!(ttf_glyph_advance(&font, 0, 1000), Some(500));
    assert_eq!(ttf_glyph_advance(&font, 1, 1000), Some(600));
}

#[test]
fn test_glyph_advance_falls_back_to_the_em() {
    let font = tiny_font();
    assert_eq!(ttf_glyph_advance(&font, 7, 2048), Some(2048));
    assert_eq!(ttf_glyph_advance(&[0u8; 8], 1, 1000), None);
}

#[test]
fn test_glyph_bounds_without_outlines() {
    assert_eq!(ttf_glyph_bounds(&tiny_font(), 1), None);
    assert_eq!(ttf_glyph_bounds(&[0u8; 8], 1), None);
}

#[test]
fn test_pdf_font_from_a_font_file() {
    let font = PdfFont::from_ttf_data(tiny_font()).unwrap();
    assert_eq!(font.font_name, "Tiny");
    assert_eq!(font.units_per_em, 1000);
    assert_eq!(font.ascent, 800);
    assert_eq!(font.descent, -200);
    assert_eq!(font.bbox, [-100, -200, 900, 800]);
    assert_eq!(font.cap_height, 560);
    assert_eq!(font.stem_v, 20);
    assert_eq!(font.flags, 32);
    assert_eq!(font.italic_angle, 0);
    assert_eq!(font.first_char, 32);
    assert_eq!(font.last_char, 126);
    assert_eq!(font.widths.len(), 95);
    assert_eq!(font.widths[(b'A' - 32) as usize], 600);
    assert_eq!(font.widths[0], 500);
    assert_eq!(font.char_width('A'), 600);
    assert_eq!(font.char_width('B'), 500);
}

#[test]
fn test_pdf_font_from_garbage_is_an_error() {
    assert!(PdfFont::from_ttf_data(vec![0u8; 16]).is_err());
}

#[test]
fn test_embedded_font_subset() {
    let mut manager = FontManager::new();
    let index = manager.embed_font(tiny_font()).unwrap();
    assert_eq!(index, 0);
    assert!(manager.get_subsetter(index).unwrap().is_empty());
    assert_eq!(manager.find_by_name("tiny"), Some(0));
    manager.record_text(0, "BA");
    let objects = manager.generate_font_objects(10).unwrap();
    assert_eq!(objects.len(), 1);
    let (d, s, c, t, u, g, subset) = &objects[0];
    assert_eq!((*d, *s, *c, *t, *u, *g), (10, 11, 12, 13, 14, 15));
    assert_eq!(subset.first_char, 65);
    assert_eq!(subset.last_char, 66);
    assert_eq!(subset.widths, vec![600, 500]);
    assert_eq!(subset.char_to_glyph.len(), 1);
    assert_eq!(subset.char_to_glyph.get('A'), Some(1));
    assert_eq!(subset.char_to_glyph.get('B'), None);
}

#[test]
fn test_each_embedded_font_gets_an_empty_subsetter() {
    let mut manager = FontManager::new();
    let first = manager.embed_font(tiny_font()).unwrap();
    manager.record_text(first, "A");
    let second = manager.embed_font(tiny_font()).unwrap();
    assert_eq!(second, 1);
    assert_eq!(manager.font_count(), 2);
    assert!(!manager.get_subsetter(first).unwrap().is_empty());
    assert!(manager.get_subsetter(second).unwrap().is_empty());
    assert!(manager.embed_font(vec![0u8; 4]).is_err());
    assert_eq!(manager.font_count(), 2);
    assert!(manager.get_subsetter(2).is_none());
}
