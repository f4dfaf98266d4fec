use fop_verified::minimal_pdf::{write_minimal_pdf, write_minimal_pdf_fallback, MinimalPage};

fn page(content: &str) -> MinimalPage {
    MinimalPage {
        width_text: "595.2756".to_string(),
        height_text: "841.8898".to_string(),
        content: content.as_bytes().to_vec(),
    }
}

fn find(hay: &[u8], needle: &[u8]) -> Option<usize> {
    hay.windows(needle.len()).position(|w| w == needle)
}

/// Checks the cross-reference table of `bytes` against the objects it points at.
fn check_xref(bytes: &[u8], objects: usize) {
    let key = b"startxref\n";
    let pos = bytes.windows(key.len()).rposition(|w| w == key).unwrap() + key.len();
    let tail = String::from_utf8(bytes[pos..].to_vec()).unwrap();
    let xref_at: usize = tail.lines().next().unwrap().parse().unwrap();
    assert!(bytes[xref_at..].starts_with(b"xref\n"));
    let table = String::from_utf8(bytes[xref_at..].to_vec()).unwrap();
    let lines: Vec<&str> = table.lines().collect();
    assert_eq!(lines[1], format!("0 {}", objects + 1));
    for k in 1..=objects {
        let entry = lines[2 + k];
        let offset: usize = entry[..10].parse().unwrap();
        let head = format!("{} 0 obj\n", k);
        assert!(bytes[offset..].starts_with(head.as_bytes()), "object {} not at {}", k, offset);
    }
}

#[test]
fn test_minimal_pdf_structure() {
    let pages = vec![page("BT\n/F1 12 Tf\n56.69 793.7 Td\n(Hello World) Tj\nET\n")];
    let bytes = write_minimal_pdf(&pages, "Report");
    assert!(bytes.starts_with(b"%PDF-1.4\n%\xE2\xE3\xCF\xD3\n"));
    assert!(bytes.ends_with(b"%%EOF\n"));
    assert!(find(&bytes, b"(Hello World) Tj").is_some());
    assert!(find(&bytes, b"/BaseFont /ZapfDingbats\n").is_some());
    assert!(find(&bytes, b"/Kids [17 0 R ]\n/Count 1\n").is_some());
    assert!(find(&bytes, b"/MediaBox [0 0 595.2756 841.8898]\n").is_some());
    assert!(find(&bytes, b"19 0 obj\n<<\n/Title (Report)\n>>\nendobj\n").is_some());
    assert!(find(&bytes, b"/Info 19 0 R\n").is_some());
    check_xref(&bytes, 19);
}

#[test]
fn test_minimal_pdf_without_title_has_no_info() {
    let pages = vec![page("a"), page("")];
    let bytes = write_minimal_pdf(&pages, "");
    assert!(find(&bytes, b"/Info").is_none());
    assert!(find(&bytes, b"/Kids [17 0 R 19 0 R ]\n/Count 2\n").is_some());
    assert!(find(&bytes, b"20 0 obj\n<<\n/Length 0\n>>\nstream\n\nendstream\nendobj\n").is_some());
    check_xref(&bytes, 20);
}

#[test]
fn test_minimal_pdf_escapes_title() {
    let bytes = write_minimal_pdf(&[page("x")].into_iter().collect(), "a(b)é");
    assert!(find(&bytes, b"/Title (a\\(b\\)\\303\\251)\n").is_some());
    check_xref(&bytes, 19);
}

#[test]
fn test_minimal_pdf_font_resources() {
    let bytes = write_minimal_pdf(&vec![page("")], "t");
    assert!(find(&bytes, b"/Font <<\n  /F1 3 0 R\n  /F2 4 0 R\n").is_some());
    assert!(find(&bytes, b"  /F14 16 0 R\n>>\n").is_some());
    assert!(find(&bytes, b"3 0 obj\n<<\n/Type /Font\n/Subtype /Type1\n/BaseFont /Helvetica\n>>\nendobj\n").is_some());
}

#[test]
fn test_minimal_pdf_fallback_objects() {
    let bytes = write_minimal_pdf_fallback();
    assert!(bytes.starts_with(b"%PDF-1.4\n"));
    assert!(bytes.ends_with(b"startxref\n110\n%%EOF\n"));
    assert!(bytes[9..].starts_with(b"1 0 obj\n"));
    assert!(bytes[58..].starts_with(b"2 0 obj\n"));
    assert_eq!(find(&bytes, b"xref\n"), Some(110));
}

#[test]
fn test_fallback_xref_offsets_are_right() {
    let bytes = write_minimal_pdf_fallback();
    assert_eq!(&bytes[9..16], b"1 0 obj");
    assert_eq!(&bytes[58..65], b"2 0 obj");
    assert_eq!(&bytes[110..114], b"xref");
    assert!(bytes.ends_with(b"startxref\n110\n%%EOF\n"));
}
