//! The calls into `ttf_parser` that read an embedded TrueType font.
//!
//! A parsed face is opaque here: each function below reads one property of it and hands
//! it back as plain values. Only what ttf-parser documents of a result is stated; the
//! values themselves depend on the font file.

use vstd::prelude::*;
use ttf_parser::{Face, FaceParsingError, GlyphId};

verus! {

/// A parsed font face of `ttf_parser`, borrowed from the font bytes.
#[verifier::external_type_specification]
#[verifier::external_body]
pub struct ExFace<'a>(Face<'a>);

/// Why `ttf_parser` could not parse a font.
#[verifier::external_type_specification]
#[verifier::external_body]
pub struct ExFaceParsingError(FaceParsingError);

/// Whether `ttf_parser::Face::parse` accepts `data` as a font, face index 0.
pub uninterp spec fn ttf_parses(data: Seq<u8>) -> bool;

/// The records of the `name` table of the font in `data`, in table order, each as its
/// name id and its text (`None` when it is not Unicode text).
pub uninterp spec fn name_records_in(data: Seq<u8>) -> Seq<(u16, Option<Seq<char>>)>;

/// The units per em of the font in `data`.
pub uninterp spec fn units_per_em_in(data: Seq<u8>) -> u16;

/// The typographic ascender of the font in `data`.
pub uninterp spec fn ascender_in(data: Seq<u8>) -> i16;

/// The typographic descender of the font in `data`.
pub uninterp spec fn descender_in(data: Seq<u8>) -> i16;

/// The global bounding box `[x_min, y_min, x_max, y_max]` of the font in `data`.
pub uninterp spec fn bounding_box_in(data: Seq<u8>) -> [i16; 4];

/// The capital height of the font in `data`, when its OS/2 table gives one.
pub uninterp spec fn capital_height_in(data: Seq<u8>) -> Option<i16>;

/// The weight class of the font in `data`, as a number.
pub uninterp spec fn weight_in(data: Seq<u8>) -> u16;

/// The italic angle of the font in `data`, converted to whole degrees.
pub uninterp spec fn italic_angle_in(data: Seq<u8>) -> i16;

/// Whether the font in `data` is monospaced.
pub uninterp spec fn is_monospaced_in(data: Seq<u8>) -> bool;

/// Whether the font in `data` is bold.
pub uninterp spec fn is_bold_in(data: Seq<u8>) -> bool;

/// The number of glyphs of the font in `data`.
pub uninterp spec fn glyph_count_in(data: Seq<u8>) -> u16;

/// The glyph id that the font in `data` maps `c` to, if any.
pub uninterp spec fn glyph_index_in(data: Seq<u8>, c: char) -> Option<u16>;

/// The horizontal advance of glyph `glyph` of the font in `data`, if it has one.
pub uninterp spec fn hor_advance_in(data: Seq<u8>, glyph: u16) -> Option<u16>;

/// The bounding box `[x_min, y_min, x_max, y_max]` of glyph `glyph` of the font in
/// `data`, if it has an outline.
pub uninterp spec fn glyph_bbox_in(data: Seq<u8>, glyph: u16) -> Option<[i16; 4]>;

/// A face parsed by `ttf_parser`, together with the bytes it was parsed from.
pub struct ParsedFace<'a> {
    face: Face<'a>,
    source: Ghost<Seq<u8>>,
}

impl<'a> View for ParsedFace<'a> {
    type V = Seq<u8>;

    /// The font bytes the face was parsed from.
    closed spec fn view(&self) -> Seq<u8> {
        self.source@
    }
}

/// `Face::parse(data, 0)`: parses the first face of a TrueType/OpenType font. Whether it
/// succeeds is a function of the bytes, named [`ttf_parses`]; the face keeps `data` as its
/// source.
#[verifier::external_body]
pub(crate) fn parse_face<'a>(data: &'a [u8]) -> (r: Result<ParsedFace<'a>, FaceParsingError>)
    ensures
        r is Ok <==> ttf_parses(data@),
        r matches Ok(f) ==> f@ == data@,
{
    match Face::parse(data, 0) {
        Ok(face) => Ok(ParsedFace { face, source: Ghost(data@) }),
        Err(e) => Err(e),
    }
}

/// The `Debug` text of a parsing error (`format!("{:?}", e)`); nothing is claimed of it.
#[verifier::external_body]
pub(crate) fn parse_error_text(e: &FaceParsingError) -> String {
    format!("{:?}", e)
}

/// The name records by their views.
pub open spec fn names_view(names: Seq<(u16, Option<String>)>) -> Seq<(u16, Option<Seq<char>>)> {
    names.map_values(|e: (u16, Option<String>)| (e.0, match e.1 { Some(t) => Some(t@), None => None }))
}

/// `Face::names`: the records of the `name` table in table order, each as its name id and
/// its text (`Name::to_string`), named [`name_records_in`].
#[verifier::external_body]
pub(crate) fn face_names(face: &ParsedFace) -> (r: Vec<(u16, Option<String>)>)
    ensures
        names_view(r@) == name_records_in(face@),
{
    let mut out = Vec::new();
    for name in face.face.names() {
        out.push((name.name_id, name.to_string()));
    }
    out
}

/// `Face::units_per_em`, named [`units_per_em_in`], which ttf-parser guarantees to lie in
/// 16..=16384.
#[verifier::external_body]
pub(crate) fn face_units_per_em(face: &ParsedFace) -> (r: u16)
    ensures
        r == units_per_em_in(face@),
        16 <= r <= 16384,
{
    face.face.units_per_em()
}

/// `Face::ascender`, named [`ascender_in`].
#[verifier::external_body]
pub(crate) fn face_ascender(face: &ParsedFace) -> (r: i16)
    ensures
        r == ascender_in(face@),
{
    face.face.ascender()
}

/// `Face::descender`, named [`descender_in`].
#[verifier::external_body]
pub(crate) fn face_descender(face: &ParsedFace) -> (r: i16)
    ensures
        r == descender_in(face@),
{
    face.face.descender()
}

/// `Face::global_bounding_box` as `[x_min, y_min, x_max, y_max]`, named [`bounding_box_in`].
#[verifier::external_body]
pub(crate) fn face_bounding_box(face: &ParsedFace) -> (r: [i16; 4])
    ensures
        r == bounding_box_in(face@),
{
    let bb = face.face.global_bounding_box();
    [bb.x_min, bb.y_min, bb.x_max, bb.y_max]
}

/// `Face::capital_height` (`None` without an OS/2 table of version 2 or later), named
/// [`capital_height_in`].
#[verifier::external_body]
pub(crate) fn face_capital_height(face: &ParsedFace) -> (r: Option<i16>)
    ensures
        r == capital_height_in(face@),
{
    face.face.capital_height()
}

/// `Face::weight` as its number (`Weight::to_number`), named [`weight_in`].
#[verifier::external_body]
pub(crate) fn face_weight(face: &ParsedFace) -> (r: u16)
    ensures
        r == weight_in(face@),
{
    face.face.weight().to_number()
}

/// `Face::italic_angle`, an `f32`, converted to `i16` by Rust's saturating `as`; named
/// [`italic_angle_in`].
#[verifier::external_body]
pub(crate) fn face_italic_angle(face: &ParsedFace) -> (r: i16)
    ensures
        r == italic_angle_in(face@),
{
    face.face.italic_angle() as i16
}

/// `Face::is_monospaced`, named [`is_monospaced_in`].
#[verifier::external_body]
pub(crate) fn face_is_monospaced(face: &ParsedFace) -> (r: bool)
    ensures
        r == is_monospaced_in(face@),
{
    face.face.is_monospaced()
}

/// `Face::is_bold`, named [`is_bold_in`].
#[verifier::external_body]
pub(crate) fn face_is_bold(face: &ParsedFace) -> (r: bool)
    ensures
        r == is_bold_in(face@),
{
    face.face.is_bold()
}

/// `Face::number_of_glyphs`, named [`glyph_count_in`], which ttf-parser documents as never
/// zero.
#[verifier::external_body]
pub(crate) fn face_number_of_glyphs(face: &ParsedFace) -> (r: u16)
    ensures
        r == glyph_count_in(face@),
        r > 0,
{
    face.face.number_of_glyphs()
}

/// `Face::glyph_index`: the glyph id of `c`, `None` when the font has no glyph for it;
/// named [`glyph_index_in`].
#[verifier::external_body]
pub(crate) fn face_glyph_index(face: &ParsedFace, c: char) -> (r: Option<u16>)
    ensures
        r == glyph_index_in(face@, c),
{
    face.face.glyph_index(c).map(|g| g.0)
}

/// `Face::glyph_hor_advance` of glyph `glyph`, named [`hor_advance_in`].
#[verifier::external_body]
pub(crate) fn face_glyph_hor_advance(face: &ParsedFace, glyph: u16) -> (r: Option<u16>)
    ensures
        r == hor_advance_in(face@, glyph),
{
    face.face.glyph_hor_advance(GlyphId(glyph))
}

/// `Face::glyph_bounding_box` of glyph `glyph` as `[x_min, y_min, x_max, y_max]` (`None`
/// for a glyph without outline), named [`glyph_bbox_in`].
#[verifier::external_body]
pub(crate) fn face_glyph_bounding_box(face: &ParsedFace, glyph: u16) -> (r: Option<[i16; 4]>)
    ensures
        r == glyph_bbox_in(face@, glyph),
{
    face.face.glyph_bounding_box(GlyphId(glyph)).map(|bb| [bb.x_min, bb.y_min, bb.x_max, bb.y_max])
}

/// Units per em of a font file, `None` when it cannot be parsed.
pub fn ttf_units_per_em(data: &[u8]) -> (r: Option<u16>)
    ensures
        r is Some <==> ttf_parses(data@),
        r is Some ==> r->0 == units_per_em_in(data@) && 16 <= r->0 <= 16384,
{
    match parse_face(data) {
        Ok(face) => Some(face_units_per_em(&face)),
        Err(_) => None,
    }
}

/// Horizontal advance of glyph `glyph_id` in font units: the font's, or `units_per_em` when
/// the glyph has none; `None` when the font cannot be parsed.
pub fn ttf_glyph_advance(font_data: &[u8], glyph_id: u16, units_per_em: u16) -> (r: Option<u16>)
    ensures
        r is Some <==> ttf_parses(font_data@),
        r is Some ==> r->0 == match hor_advance_in(font_data@, glyph_id) {
            Some(aw) => aw,
            None => units_per_em,
        },
{
    match parse_face(font_data) {
        Ok(face) => match face_glyph_hor_advance(&face, glyph_id) {
            Some(aw) => Some(aw),
            None => Some(units_per_em),
        },
        Err(_) => None,
    }
}

/// Bounding box `[x_min, y_min, x_max, y_max]` of glyph `glyph_id` in font units; `None`
/// when the font cannot be parsed or the glyph has no outline.
pub fn ttf_glyph_bounds(font_data: &[u8], glyph_id: u16) -> (r: Option<[i16; 4]>)
    ensures
        r == (if ttf_parses(font_data@) { glyph_bbox_in(font_data@, glyph_id) } else { None }),
{
    match parse_face(font_data) {
        Ok(face) => face_glyph_bounding_box(&face, glyph_id),
        Err(_) => None,
    }
}

} // verus!
