use fop_verified::simple::{escape_pdf_string, BuiltinFont};

#[test]
fn test_escape_pdf_string_parens() {
    assert_eq!(escape_pdf_string("(hello)"), "\\(hello\\)");
}

#[test]
fn test_escape_pdf_string_backslash() {
    let escaped = escape_pdf_string("back\\slash");
    assert_eq!(escaped, "back\\\\slash");
}

// ---- further checks ----

#[test]
fn control_characters_and_non_ascii_are_escaped() {
    assert_eq!(escape_pdf_string("a\r\n\tb"), "a\\r\\n\\tb");
    // U+00E9 is C3 A9 in UTF-8
    assert_eq!(escape_pdf_string("é"), "\\303\\251");
    // U+4E16 is E4 B8 96
    assert_eq!(escape_pdf_string("世"), "\\344\\270\\226");
}

#[test]
fn builtin_font_names() {
    assert_eq!(BuiltinFont::Helvetica.resource_name(), "F1");
    assert_eq!(BuiltinFont::ZapfDingbats.resource_name(), "F14");
    assert_eq!(BuiltinFont::CourierBoldOblique.base_font_name(), "Courier-BoldOblique");
    let all = BuiltinFont::all();
    assert_eq!(all.len(), 14);
    assert_eq!(all[4], BuiltinFont::TimesRoman);
}

#[test]
fn test_escaped_text_is_ascii_with_escaped_parentheses() {
    let out = escape_pdf_string("(日本) a\\b ((x)) é");
    assert!(out.is_ascii());
    let b = out.as_bytes();
    for i in 0..b.len() {
        if b[i] == b'(' || b[i] == b')' {
            assert!(i > 0 && b[i - 1] == b'\\');
        }
    }
    assert_eq!(escape_pdf_string("(x)"), "\\(x\\)");
}
