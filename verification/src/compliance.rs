//! PDF compliance modes (PDF/A-1b, PDF/UA-1) and the metadata they require.

use vstd::prelude::*;

verus! {

/// Which standards a document must conform to.
#[derive(Debug, Clone, Copy, PartialEq, Eq, Structural)]
pub enum PdfCompliance {
    /// Plain PDF.
    Standard,
    /// PDF/A-1b, the archival format (ISO 19005-1).
    PdfA1b,
    /// PDF/UA-1, the accessible format (ISO 14289-1).
    PdfUA1,
    /// Both PDF/A-1b and PDF/UA-1.
    PdfA1bUA1,
}

impl PdfCompliance {
    /// Whether PDF/A-1b is required.
    pub open spec fn spec_requires_pdfa(self) -> bool {
        self is PdfA1b || self is PdfA1bUA1
    }

    /// Whether PDF/UA-1 is required.
    pub open spec fn spec_requires_pdfua(self) -> bool {
        self is PdfUA1 || self is PdfA1bUA1
    }

    /// Whether PDF/A-1b is required.
    pub fn requires_pdfa(&self) -> (r: bool)
        ensures
            r == self.spec_requires_pdfa(),
    {
        match self {
            PdfCompliance::PdfA1b | PdfCompliance::PdfA1bUA1 => true,
            _ => false,
        }
    }

    /// Whether PDF/UA-1 is required.
    pub fn requires_pdfua(&self) -> (r: bool)
        ensures
            r == self.spec_requires_pdfua(),
    {
        match self {
            PdfCompliance::PdfUA1 | PdfCompliance::PdfA1bUA1 => true,
            _ => false,
        }
    }
}

impl Default for PdfCompliance {
    /// Plain PDF.
    fn default() -> (r: PdfCompliance)
        ensures
            r == PdfCompliance::Standard,
    {
        PdfCompliance::Standard
    }
}

/// A minimal sRGB ICC profile (version 2, 476 bytes) for the OutputIntent of PDF/A
/// documents: a 128-byte header, a table of nine tags (desc, cprt, wtpt, rXYZ, gXYZ,
/// bXYZ and the red, green and blue TRC, which share one gamma curve of 563/256) and
/// the tag data.
pub const SRGB_ICC_PROFILE: [u8; 476] = [
    0x00, 0x00, 0x01, 0xDC, 0x00, 0x00, 0x00, 0x00, 0x02, 0x10, 0x00, 0x00,
    0x6D, 0x6E, 0x74, 0x72, 0x52, 0x47, 0x42, 0x20, 0x58, 0x59, 0x5A, 0x20,
    0x00, 0x00, 0x00, 0x00, 0x00, 0x00, 0x00, 0x00, 0x00, 0x00, 0x00, 0x00,
    0x61, 0x63, 0x73, 0x70, 0x4D, 0x53, 0x46, 0x54, 0x00, 0x00, 0x00, 0x00,
    0x49, 0x45, 0x43, 0x20, 0x73, 0x52, 0x47, 0x42, 0x00, 0x00, 0x00, 0x00,
    0x00, 0x00, 0x00, 0x00, 0x00, 0x00, 0x00, 0x02, 0x00, 0x00, 0xF6, 0xD6,
    0x00, 0x01, 0x00, 0x00, 0x00, 0x00, 0xD3, 0x2D, 0x48, 0x50, 0x20, 0x20,
    0x00, 0x00, 0x00, 0x00, 0x00, 0x00, 0x00, 0x00, 0x00, 0x00, 0x00, 0x00,
    0x00, 0x00, 0x00, 0x00, 0x00, 0x00, 0x00, 0x00, 0x00, 0x00, 0x00, 0x00,
    0x00, 0x00, 0x00, 0x00, 0x00, 0x00, 0x00, 0x00, 0x00, 0x00, 0x00, 0x00,
    0x00, 0x00, 0x00, 0x00, 0x00, 0x00, 0x00, 0x00, 0x00, 0x00, 0x00, 0x09,
    0x64, 0x65, 0x73, 0x63, 0x00, 0x00, 0x00, 0xF0, 0x00, 0x00, 0x00, 0x64,
    0x63, 0x70, 0x72, 0x74, 0x00, 0x00, 0x01, 0x54, 0x00, 0x00, 0x00, 0x2A,
    0x77, 0x74, 0x70, 0x74, 0x00, 0x00, 0x01, 0x7E, 0x00, 0x00, 0x00, 0x14,
    0x72, 0x58, 0x59, 0x5A, 0x00, 0x00, 0x01, 0x92, 0x00, 0x00, 0x00, 0x14,
    0x67, 0x58, 0x59, 0x5A, 0x00, 0x00, 0x01, 0xA6, 0x00, 0x00, 0x00, 0x14,
    0x62, 0x58, 0x59, 0x5A, 0x00, 0x00, 0x01, 0xBA, 0x00, 0x00, 0x00, 0x14,
    0x72, 0x54, 0x52, 0x43, 0x00, 0x00, 0x01, 0xCE, 0x00, 0x00, 0x00, 0x0E,
    0x67, 0x54, 0x52, 0x43, 0x00, 0x00, 0x01, 0xCE, 0x00, 0x00, 0x00, 0x0E,
    0x62, 0x54, 0x52, 0x43, 0x00, 0x00, 0x01, 0xCE, 0x00, 0x00, 0x00, 0x0E,
    0x64, 0x65, 0x73, 0x63, 0x00, 0x00, 0x00, 0x00, 0x00, 0x00, 0x00, 0x13,
    0x73, 0x52, 0x47, 0x42, 0x20, 0x49, 0x45, 0x43, 0x36, 0x31, 0x39, 0x36,
    0x36, 0x2D, 0x32, 0x2D, 0x31, 0x00, 0x00, 0x00, 0x00, 0x00, 0x00, 0x00,
    0x00, 0x00, 0x00, 0x00, 0x00, 0x00, 0x00, 0x00, 0x00, 0x00, 0x00, 0x00,
    0x00, 0x00, 0x00, 0x00, 0x00, 0x00, 0x00, 0x00, 0x00, 0x00, 0x00, 0x00,
    0x00, 0x00, 0x00, 0x00, 0x00, 0x00, 0x00, 0x00, 0x00, 0x00, 0x00, 0x00,
    0x00, 0x00, 0x00, 0x00, 0x00, 0x00, 0x00, 0x00, 0x00, 0x00, 0x00, 0x00,
    0x00, 0x00, 0x00, 0x00, 0x00, 0x00, 0x00, 0x00, 0x00, 0x00, 0x00, 0x00,
    0x00, 0x00, 0x00, 0x00, 0x74, 0x65, 0x78, 0x74, 0x00, 0x00, 0x00, 0x00,
    0x43, 0x6F, 0x70, 0x79, 0x72, 0x69, 0x67, 0x68, 0x74, 0x20, 0x49, 0x45,
    0x43, 0x20, 0x68, 0x74, 0x74, 0x70, 0x3A, 0x2F, 0x2F, 0x77, 0x77, 0x77,
    0x2E, 0x69, 0x65, 0x63, 0x2E, 0x63, 0x68, 0x00, 0x00, 0x00, 0x58, 0x59,
    0x5A, 0x20, 0x00, 0x00, 0x00, 0x00, 0x00, 0x00, 0xF6, 0xD6, 0x00, 0x01,
    0x00, 0x00, 0x00, 0x00, 0xD3, 0x2D, 0x58, 0x59, 0x5A, 0x20, 0x00, 0x00,
    0x00, 0x00, 0x00, 0x00, 0x6E, 0xA2, 0x00, 0x00, 0x38, 0xF2, 0x00, 0x00,
    0x03, 0x90, 0x58, 0x59, 0x5A, 0x20, 0x00, 0x00, 0x00, 0x00, 0x00, 0x00,
    0x62, 0x99, 0x00, 0x00, 0xB7, 0x85, 0x00, 0x00, 0x18, 0xDA, 0x58, 0x59,
    0x5A, 0x20, 0x00, 0x00, 0x00, 0x00, 0x00, 0x00, 0x18, 0x0E, 0x00, 0x00,
    0x0B, 0xA3, 0x00, 0x00, 0xB6, 0xCF, 0x63, 0x75, 0x72, 0x76, 0x00, 0x00,
    0x00, 0x00, 0x00, 0x00, 0x00, 0x01, 0x02, 0x33,
];

/// The size the header of [`SRGB_ICC_PROFILE`] declares: its first four bytes, big-endian.
pub open spec fn icc_declared_size() -> int {
    SRGB_ICC_PROFILE@[0] as int * 0x1000000 + SRGB_ICC_PROFILE@[1] as int * 0x10000
        + SRGB_ICC_PROFILE@[2] as int * 0x100 + SRGB_ICC_PROFILE@[3] as int
}

/// The sRGB profile is well-sized: the size its header declares is its length.
pub proof fn law_icc_profile_declares_its_size()
    ensures
        icc_declared_size() == SRGB_ICC_PROFILE@.len(),
        SRGB_ICC_PROFILE@.len() == 476,
{
}

/// The identification block of PDF/A-1b in XMP metadata.
pub open spec fn pdfa_block() -> Seq<char> {
    "  <rdf:Description rdf:about=\"\"\n     xmlns:pdfaid=\"http://www.aiim.org/pdfa/ns/id/\">\n   <pdfaid:part>1</pdfaid:part>\n   <pdfaid:conformance>B</pdfaid:conformance>\n  </rdf:Description>\n"@
}

/// The identification block of PDF/UA-1 in XMP metadata.
pub open spec fn pdfua_block() -> Seq<char> {
    "  <rdf:Description rdf:about=\"\"\n     xmlns:pdfuaid=\"http://www.aiim.org/pdfua/ns/id/\">\n   <pdfuaid:part>1</pdfuaid:part>\n  </rdf:Description>\n"@
}

/// The XMP metadata packet for a document titled `title` (`Untitled` when none), made
/// with `creator_tool`, identifying the standards `compliance` requires.
pub open spec fn xmp_text(title: Option<Seq<char>>, creator_tool: Seq<char>, compliance: PdfCompliance) -> Seq<char> {
    let t = match title { Some(t) => t, None => "Untitled"@ };
    "<?xpacket begin=\"\u{FEFF}\" id=\"W5M0MpCehiHzreSzNTczkc9d\"?>\n<x:xmpmeta xmlns:x=\"adobe:ns:meta/\">\n <rdf:RDF xmlns:rdf=\"http://www.w3.org/1999/02/22-rdf-syntax-ns#\">\n  <rdf:Description rdf:about=\"\"\n     xmlns:dc=\"http://purl.org/dc/elements/1.1/\"\n     xmlns:xmp=\"http://ns.adobe.com/xap/1.0/\">\n   <dc:title>\n    <rdf:Alt>\n     <rdf:li xml:lang=\"x-default\">"@ + t + "</rdf:li>\n    </rdf:Alt>\n   </dc:title>\n   <dc:format>application/pdf</dc:format>\n   <xmp:CreatorTool>"@ + creator_tool + "</xmp:CreatorTool>\n  </rdf:Description>\n"@
        + (if compliance.spec_requires_pdfa() { pdfa_block() } else { Seq::empty() })
        + (if compliance.spec_requires_pdfua() { pdfua_block() } else { Seq::empty() })
        + "</rdf:RDF>\n</x:xmpmeta>\n<?xpacket end=\"w\"?>"@
}

/// The XMP metadata packet of a document.
pub fn generate_xmp_metadata(title: Option<&str>, creator_tool: &str, compliance: PdfCompliance) -> (r: String)
    ensures
        r@ == xmp_text(match title { Some(t) => Some(t@), None => None }, creator_tool@, compliance),
{
    let title_str: &str = match title {
        Some(t) => t,
        None => "Untitled",
    };
    let mut s = "<?xpacket begin=\"\u{FEFF}\" id=\"W5M0MpCehiHzreSzNTczkc9d\"?>\n<x:xmpmeta xmlns:x=\"adobe:ns:meta/\">\n <rdf:RDF xmlns:rdf=\"http://www.w3.org/1999/02/22-rdf-syntax-ns#\">\n  <rdf:Description rdf:about=\"\"\n     xmlns:dc=\"http://purl.org/dc/elements/1.1/\"\n     xmlns:xmp=\"http://ns.adobe.com/xap/1.0/\">\n   <dc:title>\n    <rdf:Alt>\n     <rdf:li xml:lang=\"x-default\">".to_owned();
    s.append(title_str);
    s.append("</rdf:li>\n    </rdf:Alt>\n   </dc:title>\n   <dc:format>application/pdf</dc:format>\n   <xmp:CreatorTool>");
    s.append(creator_tool);
    s.append("</xmp:CreatorTool>\n  </rdf:Description>\n");
    if compliance.requires_pdfa() {
        s.append("  <rdf:Description rdf:about=\"\"\n     xmlns:pdfaid=\"http://www.aiim.org/pdfa/ns/id/\">\n   <pdfaid:part>1</pdfaid:part>\n   <pdfaid:conformance>B</pdfaid:conformance>\n  </rdf:Description>\n");
    }
    if compliance.requires_pdfua() {
        s.append("  <rdf:Description rdf:about=\"\"\n     xmlns:pdfuaid=\"http://www.aiim.org/pdfua/ns/id/\">\n   <pdfuaid:part>1</pdfuaid:part>\n  </rdf:Description>\n");
    }
    s.append("</rdf:RDF>\n</x:xmpmeta>\n<?xpacket end=\"w\"?>");
    proof {
        assert(s@ =~= xmp_text(match title { Some(t) => Some(t@), None => None }, creator_tool@, compliance));
    }
    s
}

} // verus!
