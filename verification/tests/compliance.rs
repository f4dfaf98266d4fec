use fop_verified::compliance::{generate_xmp_metadata, PdfCompliance, SRGB_ICC_PROFILE};

#[test]
fn test_compliance_default() {
    let c = PdfCompliance::default();
    assert_eq!(c, PdfCompliance::Standard);
}

#[test]
fn test_compliance_pdfa_flags() {
    assert!(PdfCompliance::PdfA1b.requires_pdfa());
    assert!(!PdfCompliance::PdfA1b.requires_pdfua());
    assert!(PdfCompliance::PdfA1bUA1.requires_pdfa());
    assert!(PdfCompliance::PdfA1bUA1.requires_pdfua());
    assert!(!PdfCompliance::Standard.requires_pdfa());
}

#[test]
fn test_xmp_metadata_pdfa() {
    let xmp = generate_xmp_metadata(Some("Test Doc"), "fop-rs", PdfCompliance::PdfA1b);
    assert!(xmp.contains("pdfaid:part"));
    assert!(xmp.contains("<pdfaid:conformance>B</pdfaid:conformance>"));
    assert!(!xmp.contains("pdfuaid"));
}

#[test]
fn test_xmp_metadata_pdfua() {
    let xmp = generate_xmp_metadata(None, "fop-rs", PdfCompliance::PdfUA1);
    assert!(!xmp.contains("pdfaid:part"));
    assert!(xmp.contains("pdfuaid:part"));
}

#[test]
fn test_xmp_metadata_combined() {
    let xmp = generate_xmp_metadata(Some("Test"), "fop-rs", PdfCompliance::PdfA1bUA1);
    assert!(xmp.contains("pdfaid:part"));
    assert!(xmp.contains("pdfuaid:part"));
}

#[test]
fn test_srgb_icc_profile_size() {
    assert!(SRGB_ICC_PROFILE.len() >= 128, "ICC profile must be at least 128 bytes (header only)");
    let declared = u32::from_be_bytes([SRGB_ICC_PROFILE[0], SRGB_ICC_PROFILE[1], SRGB_ICC_PROFILE[2], SRGB_ICC_PROFILE[3]])
        as usize;
    assert_eq!(declared, SRGB_ICC_PROFILE.len());
}

#[test]
fn test_compliance_standard_requires_nothing() {
    let c = PdfCompliance::Standard;
    assert!(!c.requires_pdfa());
    assert!(!c.requires_pdfua());
}

#[test]
fn test_compliance_pdfua_only() {
    let c = PdfCompliance::PdfUA1;
    assert!(!c.requires_pdfa());
    assert!(c.requires_pdfua());
}

#[test]
fn test_compliance_pdfa_variant_name() {
    assert_ne!(PdfCompliance::Standard, PdfCompliance::PdfA1b);
    assert_ne!(PdfCompliance::PdfA1b, PdfCompliance::PdfUA1);
    assert_ne!(PdfCompliance::PdfUA1, PdfCompliance::PdfA1bUA1);
}

#[test]
fn test_xmp_standard_contains_no_compliance_ids() {
    let xmp = generate_xmp_metadata(Some("Doc"), "fop-rs", PdfCompliance::Standard);
    assert!(!xmp.contains("pdfaid"));
    assert!(!xmp.contains("pdfuaid"));
}

#[test]
fn test_xmp_metadata_contains_title() {
    let xmp = generate_xmp_metadata(Some("My Title"), "fop-rs", PdfCompliance::Standard);
    assert!(xmp.contains("My Title"));
}

#[test]
fn test_xmp_metadata_contains_creator_tool() {
    let xmp = generate_xmp_metadata(None, "fop-render v1.0", PdfCompliance::Standard);
    assert!(xmp.contains("fop-render v1.0"));
}

#[test]
fn test_xmp_metadata_no_title_uses_untitled() {
    let xmp = generate_xmp_metadata(None, "fop", PdfCompliance::Standard);
    assert!(xmp.contains("Untitled"));
}

#[test]
fn test_xmp_metadata_starts_with_xpacket() {
    let xmp = generate_xmp_metadata(None, "fop", PdfCompliance::Standard);
    assert!(xmp.starts_with("<?xpacket"));
}

#[test]
fn test_xmp_metadata_ends_with_xpacket() {
    let xmp = generate_xmp_metadata(None, "fop", PdfCompliance::Standard);
    assert!(xmp.ends_with("?>"));
}

#[test]
fn test_srgb_icc_profile_starts_with_signature() {
    assert_eq!(&SRGB_ICC_PROFILE[12..16], &[0x6D, 0x6E, 0x74, 0x72], "ICC profile class should be 'mntr'");
}

#[test]
fn test_srgb_icc_profile_colour_space_rgb() {
    assert_eq!(&SRGB_ICC_PROFILE[16..20], &[0x52, 0x47, 0x42, 0x20], "ICC colour space should be 'RGB '");
}

#[test]
fn test_srgb_icc_profile_pcs_xyz() {
    assert_eq!(&SRGB_ICC_PROFILE[20..24], &[0x58, 0x59, 0x5A, 0x20], "PCS should be 'XYZ '");
}

#[test]
fn test_compliance_copy_clone() {
    let c = PdfCompliance::PdfA1b;
    let c2 = c;
    assert_eq!(c, c2);
}

// ---- further checks ----

#[test]
fn xmp_packet_is_the_full_standard_text() {
    let xmp = generate_xmp_metadata(Some("T"), "tool", PdfCompliance::Standard);
    let expected = "<?xpacket begin=\"\u{FEFF}\" id=\"W5M0MpCehiHzreSzNTczkc9d\"?>\n<x:xmpmeta xmlns:x=\"adobe:ns:meta/\">\n <rdf:RDF xmlns:rdf=\"http://www.w3.org/1999/02/22-rdf-syntax-ns#\">\n  <rdf:Description rdf:about=\"\"\n     xmlns:dc=\"http://purl.org/dc/elements/1.1/\"\n     xmlns:xmp=\"http://ns.adobe.com/xap/1.0/\">\n   <dc:title>\n    <rdf:Alt>\n     <rdf:li xml:lang=\"x-default\">T</rdf:li>\n    </rdf:Alt>\n   </dc:title>\n   <dc:format>application/pdf</dc:format>\n   <xmp:CreatorTool>tool</xmp:CreatorTool>\n  </rdf:Description>\n</rdf:RDF>\n</x:xmpmeta>\n<?xpacket end=\"w\"?>";
    assert_eq!(xmp, expected);
}

#[test]
fn pdfa_block_precedes_pdfua_block() {
    let xmp = generate_xmp_metadata(None, "t", PdfCompliance::PdfA1bUA1);
    assert!(xmp.find("pdfaid").unwrap() < xmp.find("pdfuaid").unwrap());
}
