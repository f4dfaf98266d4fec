//! TrueType fonts embedded in PDF documents: font records, character usage for
//! subsetting, and the PDF objects that describe an embedded font.

use vstd::prelude::*;
use crate::error::FopError;
use crate::textfmt::{char_from_code, chars_of, lowercase_of, to_lowercase, dec_int, dec_nat, hex_padded, push_char, push_dec, push_dec_signed, push_hex};
use crate::ttf::{
    ascender_in, bounding_box_in, capital_height_in, descender_in, face_ascender, face_bounding_box,
    face_capital_height, face_descender, face_glyph_hor_advance, face_glyph_index, face_is_bold,
    face_is_monospaced, face_italic_angle, face_names, face_number_of_glyphs, face_units_per_em, face_weight,
    glyph_index_in, hor_advance_in, is_bold_in, is_monospaced_in, italic_angle_in, name_records_in, names_view,
    parse_error_text, parse_face, ttf_parses, units_per_em_in, weight_in,
};

verus! {

/// A map from characters to glyph ids that keeps the order in which characters were added.
#[derive(Debug)]
pub struct GlyphMap {
    entries: Vec<(char, u16)>,
}

impl GlyphMap {
    /// The entries, in the order their characters were first added.
    pub closed spec fn entries(&self) -> Seq<(char, u16)> {
        self.entries@
    }

    /// Each character has at most one entry.
    #[verifier::type_invariant]
    spec fn keys_unique(&self) -> bool {
        unique_keys(self.entries@)
    }

    /// The map as a mathematical map.
    pub open spec fn map(&self) -> Map<char, u16> {
        entries_map(self.entries())
    }

    /// An empty map.
    pub fn new() -> (r: GlyphMap)
        ensures
            r.entries().len() == 0,
    {
        GlyphMap { entries: Vec::new() }
    }

    /// Number of characters mapped.
    pub fn len(&self) -> (r: usize)
        ensures
            r == self.entries().len(),
    {
        self.entries.len()
    }

    /// Whether no character is mapped.
    pub fn is_empty(&self) -> (r: bool)
        ensures
            r == (self.entries().len() == 0),
    {
        self.entries.len() == 0
    }

    /// Position of the entry for `c`.
    fn position(&self, c: char) -> (r: Option<usize>)
        ensures
            r is Some ==> r->0 < self.entries().len() && self.entries()[r->0 as int].0 == c,
            r is None ==> forall|k: int| 0 <= k < self.entries().len() ==> self.entries()[k].0 != c,
    {
        let n = self.entries.len();
        let mut k: usize = 0;
        while k < n
            invariant
                n == self.entries@.len(),
                k <= n,
                forall|j: int| 0 <= j < k ==> self.entries@[j].0 != c,
            decreases n - k,
        {
            if self.entries[k].0 == c {
                return Some(k);
            }
            k = k + 1;
        }
        None
    }

    /// The glyph of `c`, if mapped.
    pub fn get(&self, c: char) -> (r: Option<u16>)
        ensures
            r is Some <==> exists|k: int| 0 <= k < self.entries().len() && self.entries()[k].0 == c,
            forall|k: int| 0 <= k < self.entries().len() && self.entries()[k].0 == c ==> r == Some(self.entries()[k].1),
            r == (if self.map().dom().contains(c) { Some(self.map()[c]) } else { None }),
    {
        proof { use_type_invariant(self); }
        match self.position(c) {
            Some(k) => Some(self.entries[k].1),
            None => None,
        }
    }

    /// Maps `c` to `glyph`: replaces the glyph of a mapped character in place, or adds an
    /// entry at the end.
    pub fn insert(&mut self, c: char, glyph: u16)
        ensures
            final(self).map() == old(self).map().insert(c, glyph),
            (exists|k: int| 0 <= k < old(self).entries().len() && old(self).entries()[k].0 == c) ==> {
                &&& final(self).entries().len() == old(self).entries().len()
                &&& forall|k: int| 0 <= k < old(self).entries().len() ==> #[trigger] final(self).entries()[k]
                    == if old(self).entries()[k].0 == c { (c, glyph) } else { old(self).entries()[k] }
            },
            !(exists|k: int| 0 <= k < old(self).entries().len() && old(self).entries()[k].0 == c) ==>
                final(self).entries() == old(self).entries().push((c, glyph)),
    {
        proof { use_type_invariant(&*self); }
        match self.position(c) {
            Some(k) => {
                let ghost o = self.entries@;
                let updated = replaced_at(&self.entries, k, (c, glyph));
                self.entries = updated;
                proof {
                    assert forall|j: int| 0 <= j < o.len() implies #[trigger] self.entries@[j]
                        == if o[j].0 == c { (c, glyph) } else { o[j] } by {
                        if j != k && o[j].0 == c {
                            assert(o[k as int].0 == c);
                        }
                    }
                    let n = self.entries@;
                    let target = entries_map(o).insert(c, glyph);
                    lemma_entries_map_at(n, k as int);
                    assert forall|d: char| #[trigger] entries_map(n).dom().contains(d) <==> target.dom().contains(d) by {
                        if entries_map(o).dom().contains(d) {
                            let j = choose|j: int| 0 <= j < o.len() && o[j].0 == d;
                            if j != k {
                                assert(n[j].0 == d);
                            }
                        }
                        if entries_map(n).dom().contains(d) {
                            let j = choose|j: int| 0 <= j < n.len() && n[j].0 == d;
                            if j != k {
                                assert(o[j].0 == d);
                            }
                        }
                    }
                    assert forall|d: char| entries_map(n).dom().contains(d) implies #[trigger] entries_map(n)[d] == target[d] by {
                        if d != c {
                            let j = choose|j: int| 0 <= j < o.len() && o[j].0 == d;
                            lemma_entries_map_at(o, j);
                            assert(j != k);
                            assert(n[j] == o[j]);
                            lemma_entries_map_at(n, j);
                        }
                    }
                    assert(entries_map(n) =~= target);
                }
            },
            None => {
                let ghost o = self.entries@;
                let mut grown = copy_entries(&self.entries);
                grown.push((c, glyph));
                self.entries = grown;
                proof {
                    let n = self.entries@;
                    let target = entries_map(o).insert(c, glyph);
                    assert(n == o.push((c, glyph)));
                    lemma_entries_map_at(n, o.len() as int);
                    assert forall|d: char| #[trigger] entries_map(n).dom().contains(d) <==> target.dom().contains(d) by {
                        if entries_map(o).dom().contains(d) {
                            let j = choose|j: int| 0 <= j < o.len() && o[j].0 == d;
                            assert(n[j].0 == d);
                        }
                        if entries_map(n).dom().contains(d) {
                            let j = choose|j: int| 0 <= j < n.len() && n[j].0 == d;
                            if j < o.len() {
                                assert(o[j].0 == d);
                            }
                        }
                    }
                    assert forall|d: char| entries_map(n).dom().contains(d) implies #[trigger] entries_map(n)[d] == target[d] by {
                        if d != c {
                            let j = choose|j: int| 0 <= j < o.len() && o[j].0 == d;
                            lemma_entries_map_at(o, j);
                            assert(n[j] == o[j]);
                            lemma_entries_map_at(n, j);
                        }
                    }
                    assert(entries_map(n) =~= target);
                }
            },
        }
    }

    /// The entry at position `k`.
    pub fn entry(&self, k: usize) -> (r: (char, u16))
        requires
            k < self.entries().len(),
        ensures
            r == self.entries()[k as int],
    {
        self.entries[k]
    }
}

/// No character has two entries in `e`.
pub open spec fn unique_keys(e: Seq<(char, u16)>) -> bool {
    forall|a: int, b: int| 0 <= a < b < e.len() ==> e[a].0 != e[b].0
}

/// The map that a list of entries describes: each character to the glyph of an entry for it.
pub open spec fn entries_map(e: Seq<(char, u16)>) -> Map<char, u16> {
    Map::new(|c: char| exists|k: int| 0 <= k < e.len() && e[k].0 == c,
        |c: char| e[choose|k: int| 0 <= k < e.len() && e[k].0 == c].1)
}

/// With unique keys, the map gives each entry's character that entry's glyph.
proof fn lemma_entries_map_at(e: Seq<(char, u16)>, k: int)
    requires
        unique_keys(e),
        0 <= k < e.len(),
    ensures
        entries_map(e).dom().contains(e[k].0),
        entries_map(e)[e[k].0] == e[k].1,
{
    let c = e[k].0;
    assert(0 <= k < e.len() && e[k].0 == c);
    let j = choose|j: int| 0 <= j < e.len() && e[j].0 == c;
    if j != k {
        if j < k {
            assert(e[j].0 != e[k].0);
        } else {
            assert(e[k].0 != e[j].0);
        }
    }
}

/// A copy of `v` with position `k` replaced by `x`.
fn replaced_at(v: &Vec<(char, u16)>, k: usize, x: (char, u16)) -> (r: Vec<(char, u16)>)
    requires
        k < v@.len(),
    ensures
        r@ == v@.update(k as int, x),
{
    let mut out: Vec<(char, u16)> = Vec::new();
    let n = v.len();
    let mut j: usize = 0;
    while j < n
        invariant
            n == v@.len(),
            k < n,
            j <= n,
            out@ == v@.update(k as int, x).take(j as int),
        decreases n - j,
    {
        if j == k {
            out.push(x);
        } else {
            out.push(v[j]);
        }
        j = j + 1;
        proof { assert(out@ =~= v@.update(k as int, x).take(j as int)); }
    }
    proof { assert(v@.update(k as int, x).take(n as int) =~= v@.update(k as int, x)); }
    out
}

/// The code point of `c`.
pub fn code_of(c: char) -> (r: u32)
    ensures
        r == c as u32,
{
    c as u32
}

/// A copy of `v`.
fn copy_entries(v: &Vec<(char, u16)>) -> (r: Vec<(char, u16)>)
    ensures
        r@ == v@,
{
    let mut out: Vec<(char, u16)> = Vec::new();
    let n = v.len();
    let mut j: usize = 0;
    while j < n
        invariant
            n == v@.len(),
            j <= n,
            out@ == v@.take(j as int),
        decreases n - j,
    {
        out.push(v[j]);
        j = j + 1;
        proof { assert(out@ =~= v@.take(j as int)); }
    }
    proof { assert(v@.take(n as int) =~= v@); }
    out
}

impl Clone for GlyphMap {
    /// A map with the same entries.
    fn clone(&self) -> (r: GlyphMap)
        ensures
            r.entries() == self.entries(),
    {
        proof { use_type_invariant(self); }
        GlyphMap { entries: copy_entries(&self.entries) }
    }
}

/// Whether `s` is strictly increasing by code point.
pub open spec fn strictly_sorted(s: Seq<char>) -> bool {
    forall|a: int, b: int| 0 <= a < b < s.len() ==> (s[a] as u32) < (s[b] as u32)
}

/// The characters used with a font, kept sorted by code point without repeats.
#[derive(Debug)]
pub struct FontSubsetter {
    used_chars: Vec<char>,
}

impl FontSubsetter {
    /// The characters used, in increasing code point order.
    pub closed spec fn chars(&self) -> Seq<char> {
        self.used_chars@
    }

    /// The characters are sorted and distinct.
    #[verifier::type_invariant]
    spec fn sorted(&self) -> bool {
        strictly_sorted(self.used_chars@)
    }

    /// A subsetter with no character used.
    pub fn new() -> (r: FontSubsetter)
        ensures
            r.chars().len() == 0,
    {
        FontSubsetter { used_chars: Vec::new() }
    }

    /// Records one character.
    fn record_char(&mut self, c: char)
        ensures
            final(self).chars().to_set() == old(self).chars().to_set().insert(c),
    {
        proof { use_type_invariant(&*self); }
        broadcast use vstd::utf8::char_u32_cast;
        let n = self.used_chars.len();
        let code = code_of(c);
        let mut k: usize = 0;
        while k < n
            invariant
                n == self.used_chars@.len(),
                k <= n,
                strictly_sorted(self.used_chars@),
                code == c as u32,
                forall|j: int| 0 <= j < k ==> (self.used_chars@[j] as u32) < code,
            ensures
                k <= n,
                forall|j: int| 0 <= j < k ==> (self.used_chars@[j] as u32) < code,
                k < n ==> code < (self.used_chars@[k as int] as u32),
            decreases n - k,
        {
            let d = code_of(self.used_chars[k]);
            if d == code {
                proof {
                    vstd::utf8::char_u32_cast(self.used_chars@[k as int], d);
                    vstd::utf8::char_u32_cast(c, code);
                    assert(self.used_chars@[k as int] == c);
                    assert(self.used_chars@.to_set().insert(c) =~= self.used_chars@.to_set());
                }
                return;
            }
            if code < d {
                break;
            }
            k = k + 1;
        }
        let ghost o = self.used_chars@;
        proof {
            assert forall|j: int| k <= j < n implies code < (o[j] as u32) by {
                if k < n {
                    assert((o[k as int] as u32) > code);
                }
            }
        }
        let mut v = self.used_chars.clone();
        proof { assert(v@ =~= o); }
        v.insert(k, c);
        let ghost nv = v@;
        proof {
            assert(nv =~= o.insert(k as int, c));
            assert forall|a: int, b: int| 0 <= a < b < nv.len() implies (nv[a] as u32) < (nv[b] as u32) by {
                if b < k {
                } else if b == k {
                } else if a < k {
                } else if a == k {
                    assert(nv[b] == o[b - 1]);
                } else {
                    assert(nv[a] == o[a - 1]);
                    assert(nv[b] == o[b - 1]);
                }
            }
            assert(nv.to_set() =~= o.to_set().insert(c)) by {
                assert forall|x: char| nv.to_set().contains(x) implies o.to_set().insert(c).contains(x) by {
                    let i = choose|i: int| 0 <= i < nv.len() && nv[i] == x;
                    if i < k { assert(o[i] == x); } else if i > k { assert(o[i - 1] == x); }
                }
                assert forall|x: char| o.to_set().insert(c).contains(x) implies nv.to_set().contains(x) by {
                    if x == c {
                        assert(nv[k as int] == c);
                    } else {
                        let i = choose|i: int| 0 <= i < o.len() && o[i] == x;
                        if i < k { assert(nv[i] == x); } else { assert(nv[i + 1] == x); }
                    }
                }
            }
        }
        self.used_chars = v;
    }

    /// Records every character of `text`.
    pub fn record_text(&mut self, text: &str)
        ensures
            final(self).chars().to_set() == old(self).chars().to_set() + text@.to_set(),
    {
        let cs = chars_of(text);
        let n = cs.len();
        let mut k: usize = 0;
        while k < n
            invariant
                n == cs@.len(),
                cs@ == text@,
                k <= n,
                self.chars().to_set() == old(self).chars().to_set() + cs@.take(k as int).to_set(),
            decreases n - k,
        {
            self.record_char(cs[k]);
            k = k + 1;
            proof {
                let prev = cs@.take(k - 1);
                let cur = cs@.take(k as int);
                let x0 = cs@[k - 1];
                assert(cur =~= prev.push(x0));
                assert(cur.to_set() =~= prev.to_set().insert(x0)) by {
                    assert forall|x: char| cur.to_set().contains(x) implies prev.to_set().insert(x0).contains(x) by {
                        let i = choose|i: int| 0 <= i < cur.len() && cur[i] == x;
                        if i < prev.len() { assert(prev[i] == x); }
                    }
                    assert forall|x: char| prev.to_set().insert(x0).contains(x) implies cur.to_set().contains(x) by {
                        if x == x0 {
                            assert(cur[prev.len() as int] == x);
                        } else {
                            let i = choose|i: int| 0 <= i < prev.len() && prev[i] == x;
                            assert(cur[i] == x);
                        }
                    }
                }
                assert(self.chars().to_set() =~= old(self).chars().to_set() + cs@.take(k as int).to_set());
            }
        }
        proof { assert(cs@.take(n as int) =~= cs@); }
    }

    /// The characters used, sorted by code point.
    pub fn used_chars(&self) -> (r: &Vec<char>)
        ensures
            r@ == self.chars(),
            strictly_sorted(r@),
    {
        proof { use_type_invariant(self); }
        &self.used_chars
    }

    /// Whether no character was used.
    pub fn is_empty(&self) -> (r: bool)
        ensures
            r == (self.chars().len() == 0),
    {
        self.used_chars.len() == 0
    }
}

impl Clone for FontSubsetter {
    /// A subsetter with the same characters.
    fn clone(&self) -> (r: FontSubsetter)
        ensures
            r.chars() == self.chars(),
    {
        proof { use_type_invariant(self); }
        let mut out: Vec<char> = Vec::new();
        let n = self.used_chars.len();
        let mut j: usize = 0;
        while j < n
            invariant
                n == self.used_chars@.len(),
                j <= n,
                out@ == self.used_chars@.take(j as int),
            decreases n - j,
        {
            out.push(self.used_chars[j]);
            j = j + 1;
            proof { assert(out@ =~= self.used_chars@.take(j as int)); }
        }
        proof { assert(self.used_chars@.take(n as int) =~= self.used_chars@); }
        FontSubsetter { used_chars: out }
    }
}

impl Default for FontSubsetter {
    /// A subsetter with no character used.
    fn default() -> (r: FontSubsetter)
        ensures
            r.chars().len() == 0,
    {
        FontSubsetter::new()
    }
}

/// An embedded TrueType font and the metrics its PDF objects declare.
#[derive(Debug, Clone)]
pub struct PdfFont {
    /// PostScript name of the font.
    pub font_name: String,
    /// The font file.
    pub font_data: Vec<u8>,
    /// Font descriptor flags.
    pub flags: u32,
    /// Bounding box `[llx lly urx ury]`.
    pub bbox: [i16; 4],
    /// Italic angle (0 for upright fonts).
    pub italic_angle: i16,
    /// Height above the baseline.
    pub ascent: i16,
    /// Depth below the baseline.
    pub descent: i16,
    /// Height of capital letters.
    pub cap_height: i16,
    /// Vertical stem width.
    pub stem_v: i16,
    /// Widths of the characters `first_char..=last_char`, in font units.
    pub widths: Vec<u16>,
    /// First character code of `widths`.
    pub first_char: u32,
    /// Last character code of `widths`.
    pub last_char: u32,
    /// Font units per em.
    pub units_per_em: u16,
    /// Glyph ids of the characters used.
    pub char_to_glyph: GlyphMap,
}

/// `a` and `b` hold the same values.
pub open spec fn same_font(a: PdfFont, b: PdfFont) -> bool {
    &&& a.font_name@ == b.font_name@
    &&& a.font_data@ == b.font_data@
    &&& a.flags == b.flags
    &&& a.bbox == b.bbox
    &&& a.italic_angle == b.italic_angle
    &&& a.ascent == b.ascent
    &&& a.descent == b.descent
    &&& a.cap_height == b.cap_height
    &&& a.stem_v == b.stem_v
    &&& a.widths@ == b.widths@
    &&& a.first_char == b.first_char
    &&& a.last_char == b.last_char
    &&& a.units_per_em == b.units_per_em
    &&& a.char_to_glyph.entries() == b.char_to_glyph.entries()
}

/// Total width of the characters of `cs` in `font`, in font units.
pub open spec fn font_text_units(font: PdfFont, cs: Seq<char>) -> int
    decreases cs.len(),
{
    if cs.len() == 0 {
        0
    } else {
        font_text_units(font, cs.drop_last()) + font_char_width(font, cs.last() as u32 as int)
    }
}

/// Width of the character with code `code` in `font`, in font units: its entry in `widths`
/// when the code lies in `first_char..=last_char` and has an entry, half an em otherwise.
pub open spec fn font_char_width(font: PdfFont, code: int) -> int {
    let half = font.units_per_em as int / 2;
    if font.first_char <= code <= font.last_char && code - font.first_char < font.widths@.len() {
        font.widths@[code - font.first_char] as int
    } else {
        half
    }
}

/// The text of the first record with id 6 (PostScript name), if that record exists.
pub open spec fn first_postscript_record(names: Seq<(u16, Option<Seq<char>>)>) -> Option<Option<Seq<char>>>
    decreases names.len(),
{
    if names.len() == 0 {
        None
    } else if names[0].0 == 6 {
        Some(names[0].1)
    } else {
        first_postscript_record(names.drop_first())
    }
}

/// The font name: the text of the first PostScript-name record, or `CustomFont` when there
/// is no such record or its text is not Unicode.
pub open spec fn postscript_name(names: Seq<(u16, Option<Seq<char>>)>) -> Seq<char> {
    match first_postscript_record(names) {
        Some(Some(t)) => t,
        _ => "CustomFont"@,
    }
}

/// Cap height: the font's own, or 70% of the ascent rounded toward zero.
pub open spec fn cap_height_value(cap: Option<i16>, ascent: i16) -> int {
    match cap {
        Some(h) => h as int,
        None => if ascent >= 0 { (7 * ascent) / 10 } else { -((7 * -ascent) / 10) },
    }
}

/// Vertical stem width estimated from the weight: `(clamp(weight, 400, 900) - 300) / 5`.
pub open spec fn stem_v_value(weight: u16) -> int {
    let w = if weight < 400 { 400 } else if weight > 900 { 900 } else { weight as int };
    (w - 300) / 5
}

/// Descriptor flags: non-symbolic (32), plus fixed pitch (1), italic (64) and bold (0x40000).
pub open spec fn flags_value(monospaced: bool, italic_angle: i16, bold: bool) -> int {
    32 + (if monospaced { 1int } else { 0 }) + (if italic_angle != 0 { 64int } else { 0 })
        + (if bold { 0x40000int } else { 0 })
}

/// Width of a glyph: its advance, or half an em when the font has none.
pub open spec fn advance_or_half(advance: Option<u16>, units_per_em: u16) -> int {
    match advance {
        Some(a) => a as int,
        None => units_per_em as int / 2,
    }
}

/// `font` was assembled from `data` and the given values read from it.
pub open spec fn assembled_from(font: PdfFont, data: Seq<u8>, names: Seq<(u16, Option<Seq<char>>)>,
    units_per_em: u16, ascent: i16, descent: i16, bbox: [i16; 4], cap: Option<i16>, weight: u16,
    italic_angle: i16, monospaced: bool, bold: bool, widths: Seq<u16>) -> bool {
    &&& font.font_name@ == postscript_name(names)
    &&& font.font_data@ == data
    &&& font.flags == flags_value(monospaced, italic_angle, bold)
    &&& font.bbox == bbox
    &&& font.italic_angle == italic_angle
    &&& font.ascent == ascent
    &&& font.descent == descent
    &&& font.cap_height == cap_height_value(cap, ascent)
    &&& font.stem_v == stem_v_value(weight)
    &&& font.widths@ == widths
    &&& font.first_char == 32
    &&& font.last_char == 126
    &&& font.units_per_em == units_per_em
    &&& font.char_to_glyph.entries().len() == 0
}

/// The font name of a font's name records.
fn font_name_of(names: &Vec<(u16, Option<String>)>) -> (r: String)
    ensures
        r@ == postscript_name(names_view(names@)),
{
    let ghost v = names_view(names@);
    let n = names.len();
    let mut k: usize = 0;
    proof { assert(v.skip(0) =~= v); }
    while k < n
        invariant
            n == names@.len(),
            v == names_view(names@),
            k <= n,
            first_postscript_record(v) == first_postscript_record(v.skip(k as int)),
        decreases n - k,
    {
        proof {
            assert(v.skip(k as int)[0] == v[k as int]);
            assert(v.skip(k as int).drop_first() =~= v.skip(k as int + 1));
        }
        if names[k].0 == 6 {
            return match &names[k].1 {
                Some(t) => t.clone(),
                None => "CustomFont".to_owned(),
            };
        }
        k = k + 1;
    }
    proof { assert(v.skip(n as int) =~= Seq::<(u16, Option<Seq<char>>)>::empty()); }
    "CustomFont".to_owned()
}

/// The cap height to declare: the font's own, or 70% of the ascent rounded toward zero
/// (what `(ascent as f32 * 0.7) as i16` computes for every `i16` ascent).
pub fn cap_height_or_estimate(cap: Option<i16>, ascent: i16) -> (r: i16)
    ensures
        r == cap_height_value(cap, ascent),
{
    match cap {
        Some(h) => h,
        None => {
            let a = ascent as i32;
            let v: i32 = if a >= 0 { (7 * a) / 10 } else { -((7 * -a) / 10) };
            v as i16
        },
    }
}

/// The vertical stem width estimated from a weight class.
pub fn stem_v_for_weight(weight: u16) -> (r: i16)
    ensures
        r == stem_v_value(weight),
        20 <= r <= 120,
{
    let w: u16 = if weight < 400 { 400 } else if weight > 900 { 900 } else { weight };
    ((w - 300) / 5) as i16
}

/// Font descriptor flags for a face.
pub fn font_flags(monospaced: bool, italic_angle: i16, bold: bool) -> (r: u32)
    ensures
        r == flags_value(monospaced, italic_angle, bold),
{
    let mut flags: u32 = 32;
    if monospaced {
        flags = flags + 1;
    }
    if italic_angle != 0 {
        flags = flags + 64;
    }
    if bold {
        flags = flags + 0x40000;
    }
    flags
}

/// A copy of a byte string.
fn copy_bytes(v: &[u8]) -> (r: Vec<u8>)
    ensures
        r@ == v@,
{
    let mut out: Vec<u8> = Vec::new();
    let n = v.len();
    let mut j: usize = 0;
    while j < n
        invariant
            n == v@.len(),
            j <= n,
            out@ == v@.take(j as int),
        decreases n - j,
    {
        out.push(v[j]);
        j = j + 1;
        proof { assert(out@ =~= v@.take(j as int)); }
    }
    proof { assert(v@.take(n as int) =~= v@); }
    out
}

/// A copy of a width list.
fn copy_widths(v: &Vec<u16>) -> (r: Vec<u16>)
    ensures
        r@ == v@,
{
    let mut out: Vec<u16> = Vec::new();
    let n = v.len();
    let mut j: usize = 0;
    while j < n
        invariant
            n == v@.len(),
            j <= n,
            out@ == v@.take(j as int),
        decreases n - j,
    {
        out.push(v[j]);
        j = j + 1;
        proof { assert(out@ =~= v@.take(j as int)); }
    }
    proof { assert(v@.take(n as int) =~= v@); }
    out
}

impl PdfFont {
    /// Assembles a font from `font_data` and the values read from its face: the name from
    /// the PostScript-name record, the estimated cap height and stem width, and the flags.
    pub fn from_face_metrics(font_data: Vec<u8>, names: &Vec<(u16, Option<String>)>, units_per_em: u16,
        ascent: i16, descent: i16, bbox: [i16; 4], capital_height: Option<i16>, weight: u16,
        italic_angle: i16, monospaced: bool, bold: bool, widths: Vec<u16>) -> (r: PdfFont)
        ensures
            assembled_from(r, font_data@, names_view(names@), units_per_em, ascent, descent, bbox, capital_height,
                weight, italic_angle, monospaced, bold, widths@),
    {
        PdfFont {
            font_name: font_name_of(names),
            font_data,
            flags: font_flags(monospaced, italic_angle, bold),
            bbox,
            italic_angle,
            ascent,
            descent,
            cap_height: cap_height_or_estimate(capital_height, ascent),
            stem_v: stem_v_for_weight(weight),
            widths,
            first_char: 32,
            last_char: 126,
            units_per_em,
            char_to_glyph: GlyphMap::new(),
        }
    }

    /// Reads a TrueType font: its name, metrics and flags, and the widths of the printable
    /// ASCII characters 32 to 126 (half an em for a character without a glyph advance).
    pub fn from_ttf_data(font_data: Vec<u8>) -> (r: Result<PdfFont, FopError>)
        ensures
            r is Ok <==> ttf_parses(font_data@),
            r is Ok ==> read_from_ttf(r->Ok_0, font_data@),
            r matches Err(FopError::Generic(m)) ==> "Failed to parse TTF: "@.is_prefix_of(m@),
    {
        broadcast use vstd::utf8::char_u32_cast;
        let ghost data = font_data@;
        let face = match parse_face(font_data.as_slice()) {
            Ok(f) => f,
            Err(e) => {
                let mut msg = "Failed to parse TTF: ".to_owned();
                let detail = parse_error_text(&e);
                msg.append(detail.as_str());
                proof {
                    reveal_strlit("Failed to parse TTF: ");
                    assert(msg@.subrange(0, 21) =~= "Failed to parse TTF: "@);
                }
                return Err(FopError::Generic(msg));
            },
        };
        let names = face_names(&face);
        let units_per_em = face_units_per_em(&face);
        let ascent = face_ascender(&face);
        let descent = face_descender(&face);
        let bbox = face_bounding_box(&face);
        let cap = face_capital_height(&face);
        let weight = face_weight(&face);
        let italic_angle = face_italic_angle(&face);
        let monospaced = face_is_monospaced(&face);
        let bold = face_is_bold(&face);
        let mut widths: Vec<u16> = Vec::new();
        let mut code: u32 = 32;
        while code <= 126
            invariant
                32 <= code <= 127,
                face@ == data,
                units_per_em == units_per_em_in(data),
                widths@.len() == code - 32,
                forall|j: int| 0 <= j < widths@.len() ==> #[trigger] widths@[j] == ascii_width_in(data, 32 + j),
            decreases 127 - code,
        {
            let c = match char_from_code(code) {
                Some(c) => c,
                None => '\0',
            };
            proof {
                assert(c as u32 == code);
                vstd::utf8::char_u32_cast(c, code);
            }
            let glyph = match face_glyph_index(&face, c) {
                Some(g) => g,
                None => 0,
            };
            let width = match face_glyph_hor_advance(&face, glyph) {
                Some(w) => w,
                None => units_per_em / 2,
            };
            let ghost w0 = widths@;
            widths.push(width);
            proof {
                assert forall|j: int| 0 <= j < widths@.len() implies #[trigger] widths@[j] == ascii_width_in(data, 32 + j) by {
                    if j < w0.len() {
                        assert(widths@[j] == w0[j]);
                    }
                }
            }
            code = code + 1;
        }
        proof { assert(widths@ =~= ascii_widths_in(data)); }
        let font = PdfFont::from_face_metrics(font_data, &names, units_per_em, ascent, descent, bbox, cap, weight,
            italic_angle, monospaced, bold, widths);
        Ok(font)
    }

    /// Total width of the characters of `text` in font units (each as [`Self::char_width`]
    /// gives it); set at size `s` the text is `text_units * s / units_per_em` wide.
    pub fn text_units(&self, text: &str) -> (r: u128)
        ensures
            r == font_text_units(*self, text@),
    {
        let cs = chars_of(text);
        let n = cs.len();
        let mut total: u128 = 0;
        let mut k: usize = 0;
        while k < n
            invariant
                n == cs@.len(),
                cs@ == text@,
                k <= n,
                total == font_text_units(*self, cs@.take(k as int)),
                total <= 65535 * k,
            decreases n - k,
        {
            proof { assert(cs@.take(k + 1).drop_last() =~= cs@.take(k as int)); }
            let w = self.char_width(cs[k]);
            total = total + w as u128;
            k = k + 1;
        }
        proof { assert(cs@.take(n as int) =~= cs@); }
        total
    }

    /// Width of `c` in font units: its entry in `widths` when its code lies in
    /// `first_char..=last_char`, half an em otherwise.
    pub fn char_width(&self, c: char) -> (r: u16)
        ensures
            r == font_char_width(*self, c as u32 as int),
    {
        let code = code_of(c);
        if code >= self.first_char && code <= self.last_char {
            let index = (code - self.first_char) as usize;
            if index < self.widths.len() {
                self.widths[index]
            } else {
                self.units_per_em / 2
            }
        } else {
            self.units_per_em / 2
        }
    }

    /// A copy of the font.
    pub fn duplicate(&self) -> (r: PdfFont)
        ensures
            same_font(r, *self),
    {
        PdfFont {
            font_name: self.font_name.clone(),
            font_data: copy_bytes(self.font_data.as_slice()),
            flags: self.flags,
            bbox: self.bbox,
            italic_angle: self.italic_angle,
            ascent: self.ascent,
            descent: self.descent,
            cap_height: self.cap_height,
            stem_v: self.stem_v,
            widths: copy_widths(&self.widths),
            first_char: self.first_char,
            last_char: self.last_char,
            units_per_em: self.units_per_em,
            char_to_glyph: self.char_to_glyph.clone(),
        }
    }
}

/// The font descriptor object of `font`, pointing at the font file stream `stream_id`.
pub open spec fn descriptor_text(font: PdfFont, stream_id: int) -> Seq<char> {
    "<<\n/Type /FontDescriptor\n/FontName /"@ + font.font_name@
        + "\n/Flags "@ + dec_nat(font.flags as nat)
        + "\n/FontBBox ["@ + dec_int(font.bbox[0] as int) + " "@ + dec_int(font.bbox[1] as int)
        + " "@ + dec_int(font.bbox[2] as int) + " "@ + dec_int(font.bbox[3] as int)
        + "]\n/ItalicAngle "@ + dec_int(font.italic_angle as int)
        + "\n/Ascent "@ + dec_int(font.ascent as int)
        + "\n/Descent "@ + dec_int(font.descent as int)
        + "\n/CapHeight "@ + dec_int(font.cap_height as int)
        + "\n/StemV "@ + dec_int(font.stem_v as int)
        + "\n/FontFile2 "@ + dec_nat(stream_id as nat) + " 0 R\n>>"@
}

/// The dictionary of the font file stream of `font`: its length, twice.
pub open spec fn stream_header_text(font: PdfFont) -> Seq<char> {
    "<<\n/Length "@ + dec_nat(font.font_data@.len()) + "\n/Length1 "@ + dec_nat(font.font_data@.len()) + "\n>>"@
}

/// The Type 0 font dictionary of `font`, with descendant `cidfont_id` and, if given, the
/// ToUnicode CMap `to_unicode`.
pub open spec fn type0_text(font: PdfFont, cidfont_id: int, to_unicode: Option<usize>) -> Seq<char> {
    "<<\n/Type /Font\n/Subtype /Type0\n/BaseFont /"@ + font.font_name@
        + "\n/Encoding /Identity-H\n/DescendantFonts ["@ + dec_nat(cidfont_id as nat) + " 0 R]\n"@
        + match to_unicode {
            Some(id) => "/ToUnicode "@ + dec_nat(id as nat) + " 0 R\n         "@,
            None => Seq::empty(),
        }
        + ">>"@
}

/// Numbers in decimal, separated by single spaces.
pub open spec fn spaced_numbers(ws: Seq<u16>) -> Seq<char>
    decreases ws.len(),
{
    if ws.len() == 0 {
        Seq::empty()
    } else if ws.len() == 1 {
        dec_nat(ws[0] as nat)
    } else {
        spaced_numbers(ws.drop_last()) + " "@ + dec_nat(ws.last() as nat)
    }
}

/// The CIDFontType2 dictionary of `font`: default width half an em, and a `/W` entry
/// listing the widths from `first_char` when there are any.
pub open spec fn cidfont_text(font: PdfFont, descriptor_id: int, cidtogidmap_id: int) -> Seq<char> {
    "<<\n/Type /Font\n/Subtype /CIDFontType2\n/BaseFont /"@ + font.font_name@
        + "\n/CIDSystemInfo <<\n/Registry (Adobe)\n/Ordering (Identity)\n/Supplement 0\n>>\n/FontDescriptor "@
        + dec_nat(descriptor_id as nat) + " 0 R\n/DW "@ + dec_nat((font.units_per_em / 2) as nat) + "\n"@
        + (if font.widths@.len() == 0 {
            Seq::empty()
        } else {
            "/W ["@ + dec_nat(font.first_char as nat) + " ["@ + spaced_numbers(font.widths@) + "]]\n         "@
        })
        + "/CIDToGIDMap "@ + dec_nat(cidtogidmap_id as nat) + " 0 R\n>>"@
}

/// The start of a ToUnicode CMap, up to its code space range.
pub open spec fn cmap_header() -> Seq<char> {
    text_of_lines(cmap_header_lines())
}

/// The lines that open a ToUnicode CMap.
pub open spec fn cmap_header_lines() -> Seq<Seq<char>> {
    seq![
        "/CIDInit /ProcSet findresource begin"@,
        "12 dict begin"@,
        "begincmap"@,
        "/CIDSystemInfo <<"@,
        "/Registry (Adobe)"@,
        "/Ordering (Identity)"@,
        "/Supplement 0"@,
        ">> def"@,
        "/CMapName /Adobe-Identity-UCS def"@,
        "/CMapType 2 def"@,
        "1 begincodespacerange"@,
        "<0000> <FFFF>"@,
        "endcodespacerange"@,
    ]
}

/// The lines that close a ToUnicode CMap.
pub open spec fn cmap_trailer_lines() -> Seq<Seq<char>> {
    seq!["endcmap"@, "CMapName currentdict /CMap defineresource pop"@, "end"@, "end"@]
}

/// The text of `lines`, each followed by a line feed.
pub open spec fn text_of_lines(lines: Seq<Seq<char>>) -> Seq<char>
    decreases lines.len(),
{
    if lines.len() == 0 {
        Seq::empty()
    } else {
        text_of_lines(lines.drop_last()) + lines.last() + "\n"@
    }
}

/// Appends each of `lines`, followed by a line feed, to `s`.
pub(crate) fn push_lines(s: &mut String, lines: &[&str])
    ensures
        final(s)@ == old(s)@ + text_of_lines(lines@.map_values(|l: &str| l@)),
{
    let ghost start = s@;
    let n = lines.len();
    let mut k: usize = 0;
    proof { assert(lines@.map_values(|l: &str| l@).take(0) =~= Seq::<Seq<char>>::empty()); }
    while k < n
        invariant
            n == lines@.len(),
            k <= n,
            s@ == start + text_of_lines(lines@.map_values(|l: &str| l@).take(k as int)),
        decreases n - k,
    {
        s.append(lines[k]);
        s.append("\n");
        k = k + 1;
        proof {
            let v = lines@.map_values(|l: &str| l@);
            assert(v.take(k as int).drop_last() =~= v.take(k - 1));
            assert(v.take(k as int).last() == lines@[k - 1]@);
            assert(s@ =~= start + text_of_lines(v.take(k as int)));
        }
    }
    proof { assert(lines@.map_values(|l: &str| l@).take(n as int) =~= lines@.map_values(|l: &str| l@)); }
}

/// The end of a ToUnicode CMap.
pub open spec fn cmap_trailer() -> Seq<char> {
    text_of_lines(cmap_trailer_lines())
}

/// A `bfchar` line mapping code `a` to code `b`, in hexadecimal of at least four digits.
pub open spec fn bfchar_line(a: nat, b: nat) -> Seq<char> {
    "<"@ + hex_padded(a, 4) + "> <"@ + hex_padded(b, 4) + ">\n"@
}

/// Identity `bfchar` lines for the characters of `entries`, in order.
pub open spec fn identity_lines_for(entries: Seq<(char, u16)>) -> Seq<char>
    decreases entries.len(),
{
    if entries.len() == 0 {
        Seq::empty()
    } else {
        identity_lines_for(entries.drop_last()) + bfchar_line(entries.last().0 as u32 as nat, entries.last().0 as u32 as nat)
    }
}

/// Identity `bfchar` lines for the codes `first..first + count`.
pub open spec fn identity_lines_range(first: nat, count: nat) -> Seq<char>
    decreases count,
{
    if count == 0 {
        Seq::empty()
    } else {
        identity_lines_range(first, (count - 1) as nat) + bfchar_line((first + count - 1) as nat, (first + count - 1) as nat)
    }
}

/// The ToUnicode CMap of `font`: the identity on its mapped characters, or, when it maps
/// none, on the codes `first_char..=last_char` if there are at most 256 of them.
pub open spec fn to_unicode_text(font: PdfFont) -> Seq<char> {
    let entries = font.char_to_glyph.entries();
    let range = font.last_char - font.first_char + 1;
    cmap_header() + (if entries.len() > 0 {
        dec_nat(entries.len()) + " beginbfchar\n"@ + identity_lines_for(entries) + "endbfchar\n"@
    } else if 0 < range <= 256 {
        dec_nat(range as nat) + " beginbfchar\n"@ + identity_lines_range(font.first_char as nat, range as nat) + "endbfchar\n"@
    } else {
        Seq::empty()
    }) + cmap_trailer()
}

/// The font descriptor object of `font`, pointing at its font file stream object.
pub fn generate_font_descriptor(font: &PdfFont, font_stream_obj_id: usize) -> (r: String)
    ensures
        r@ == descriptor_text(*font, font_stream_obj_id as int),
{
    let mut s = "<<\n/Type /FontDescriptor\n/FontName /".to_owned();
    s.append(font.font_name.as_str());
    s.append("\n/Flags ");
    push_dec(&mut s, font.flags as u64);
    s.append("\n/FontBBox [");
    push_dec_signed(&mut s, font.bbox[0] as i64);
    s.append(" ");
    push_dec_signed(&mut s, font.bbox[1] as i64);
    s.append(" ");
    push_dec_signed(&mut s, font.bbox[2] as i64);
    s.append(" ");
    push_dec_signed(&mut s, font.bbox[3] as i64);
    s.append("]\n/ItalicAngle ");
    push_dec_signed(&mut s, font.italic_angle as i64);
    s.append("\n/Ascent ");
    push_dec_signed(&mut s, font.ascent as i64);
    s.append("\n/Descent ");
    push_dec_signed(&mut s, font.descent as i64);
    s.append("\n/CapHeight ");
    push_dec_signed(&mut s, font.cap_height as i64);
    s.append("\n/StemV ");
    push_dec_signed(&mut s, font.stem_v as i64);
    s.append("\n/FontFile2 ");
    push_dec(&mut s, font_stream_obj_id as u64);
    s.append(" 0 R\n>>");
    proof { assert(s@ =~= descriptor_text(*font, font_stream_obj_id as int)); }
    s
}

/// The dictionary of the font file stream of `font`.
pub fn generate_font_stream_header(font: &PdfFont) -> (r: String)
    ensures
        r@ == stream_header_text(*font),
{
    let mut s = "<<\n/Length ".to_owned();
    push_dec(&mut s, font.font_data.len() as u64);
    s.append("\n/Length1 ");
    push_dec(&mut s, font.font_data.len() as u64);
    s.append("\n>>");
    proof { assert(s@ =~= stream_header_text(*font)); }
    s
}

/// The font dictionary of `font`: a Type 0 composite font over its CIDFont.
pub fn generate_font_dictionary(font: &PdfFont, descriptor_obj_id: usize, to_unicode_obj_id: Option<usize>) -> (r: String)
    ensures
        r@ == type0_text(*font, descriptor_obj_id as int, to_unicode_obj_id),
{
    generate_type0_font_dict(font, descriptor_obj_id, to_unicode_obj_id)
}

/// The Type 0 font dictionary of `font`.
fn generate_type0_font_dict(font: &PdfFont, cidfont_obj_id: usize, to_unicode_obj_id: Option<usize>) -> (r: String)
    ensures
        r@ == type0_text(*font, cidfont_obj_id as int, to_unicode_obj_id),
{
    let mut s = "<<\n/Type /Font\n/Subtype /Type0\n/BaseFont /".to_owned();
    s.append(font.font_name.as_str());
    s.append("\n/Encoding /Identity-H\n/DescendantFonts [");
    push_dec(&mut s, cidfont_obj_id as u64);
    s.append(" 0 R]\n");
    match to_unicode_obj_id {
        Some(id) => {
            s.append("/ToUnicode ");
            push_dec(&mut s, id as u64);
            s.append(" 0 R\n         ");
        },
        None => {},
    }
    s.append(">>");
    proof { assert(s@ =~= type0_text(*font, cidfont_obj_id as int, to_unicode_obj_id)); }
    s
}

/// Appends the widths separated by single spaces.
fn push_widths(s: &mut String, ws: &Vec<u16>)
    ensures
        final(s)@ == old(s)@ + spaced_numbers(ws@),
{
    let n = ws.len();
    let mut k: usize = 0;
    proof { assert(ws@.take(0) =~= Seq::<u16>::empty()); }
    while k < n
        invariant
            n == ws@.len(),
            k <= n,
            s@ == old(s)@ + spaced_numbers(ws@.take(k as int)),
        decreases n - k,
    {
        if k > 0 {
            s.append(" ");
        }
        push_dec(s, ws[k] as u64);
        k = k + 1;
        proof {
            let t = ws@.take(k as int);
            assert(t.drop_last() =~= ws@.take(k - 1));
            if k == 1 {
                assert(t =~= seq![ws@[0]]);
                assert(s@ =~= old(s)@ + spaced_numbers(t));
            } else {
                assert(s@ =~= old(s)@ + spaced_numbers(t));
            }
        }
    }
    proof { assert(ws@.take(n as int) =~= ws@); }
}

/// The CIDFontType2 dictionary of `font`.
pub fn generate_cidfont_dict(font: &PdfFont, descriptor_obj_id: usize, cidtogidmap_obj_id: usize) -> (r: String)
    ensures
        r@ == cidfont_text(*font, descriptor_obj_id as int, cidtogidmap_obj_id as int),
{
    let default_width = font.units_per_em / 2;
    let mut s = "<<\n/Type /Font\n/Subtype /CIDFontType2\n/BaseFont /".to_owned();
    s.append(font.font_name.as_str());
    s.append("\n/CIDSystemInfo <<\n/Registry (Adobe)\n/Ordering (Identity)\n/Supplement 0\n>>\n/FontDescriptor ");
    push_dec(&mut s, descriptor_obj_id as u64);
    s.append(" 0 R\n/DW ");
    push_dec(&mut s, default_width as u64);
    s.append("\n");
    if font.widths.len() > 0 {
        s.append("/W [");
        push_dec(&mut s, font.first_char as u64);
        s.append(" [");
        push_widths(&mut s, &font.widths);
        s.append("]]\n         ");
    }
    s.append("/CIDToGIDMap ");
    push_dec(&mut s, cidtogidmap_obj_id as u64);
    s.append(" 0 R\n>>");
    proof { assert(s@ =~= cidfont_text(*font, descriptor_obj_id as int, cidtogidmap_obj_id as int)); }
    s
}

/// Appends a `bfchar` line mapping `a` to `b`.
fn push_bfchar(s: &mut String, a: u32, b: u32)
    ensures
        final(s)@ == old(s)@ + bfchar_line(a as nat, b as nat),
{
    s.append("<");
    push_hex(s, a as u64, 4);
    s.append("> <");
    push_hex(s, b as u64, 4);
    s.append(">\n");
    proof { assert(final(s)@ =~= old(s)@ + bfchar_line(a as nat, b as nat)); }
}

/// The ToUnicode CMap of `font`.
pub fn generate_to_unicode_cmap(font: &PdfFont) -> (r: String)
    requires
        font.char_to_glyph.entries().len() == 0 ==> font.first_char <= font.last_char < u32::MAX,
    ensures
        r@ == to_unicode_text(*font),
{
    let mut s = String::new();
    let header = [
        "/CIDInit /ProcSet findresource begin",
        "12 dict begin",
        "begincmap",
        "/CIDSystemInfo <<",
        "/Registry (Adobe)",
        "/Ordering (Identity)",
        "/Supplement 0",
        ">> def",
        "/CMapName /Adobe-Identity-UCS def",
        "/CMapType 2 def",
        "1 begincodespacerange",
        "<0000> <FFFF>",
        "endcodespacerange",
    ];
    push_lines(&mut s, &header);
    proof {
        assert(header@.map_values(|l: &str| l@) =~= cmap_header_lines());
        assert(s@ =~= cmap_header());
    }
    let map = &font.char_to_glyph;
    if !map.is_empty() {
        let count = map.len();
        push_dec(&mut s, count as u64);
        s.append(" beginbfchar\n");
        let ghost start = s@;
        let mut k: usize = 0;
        while k < count
            invariant
                count == map.entries().len(),
                k <= count,
                s@ == start + identity_lines_for(map.entries().take(k as int)),
            decreases count - k,
        {
            let (c, _glyph) = map.entry(k);
            let code = code_of(c);
            push_bfchar(&mut s, code, code);
            k = k + 1;
            proof {
                assert(map.entries().take(k as int).drop_last() =~= map.entries().take(k - 1));
                assert(s@ =~= start + identity_lines_for(map.entries().take(k as int)));
            }
        }
        proof { assert(map.entries().take(count as int) =~= map.entries()); }
        s.append("endbfchar\n");
    } else {
        let range_size = font.last_char - font.first_char + 1;
        if range_size > 0 && range_size <= 256 {
            push_dec(&mut s, range_size as u64);
            s.append(" beginbfchar\n");
            let ghost start = s@;
            let mut code = font.first_char;
            while code <= font.last_char
                invariant
                    font.first_char <= code <= font.last_char + 1,
                    font.last_char < u32::MAX,
                    s@ == start + identity_lines_range(font.first_char as nat, (code - font.first_char) as nat),
                decreases font.last_char + 1 - code,
            {
                push_bfchar(&mut s, code, code);
                code = code + 1;
                proof {
                    assert(s@ =~= start + identity_lines_range(font.first_char as nat, (code - font.first_char) as nat));
                }
            }
            s.append("endbfchar\n");
        }
    }
    let trailer = ["endcmap", "CMapName currentdict /CMap defineresource pop", "end", "end"];
    push_lines(&mut s, &trailer);
    proof {
        assert(trailer@.map_values(|l: &str| l@) =~= cmap_trailer_lines());
        assert(s@ =~= to_unicode_text(*font));
    }
    s
}

/// Width in font units of `c` in the font in `data`: the advance of its glyph (glyph 0
/// when the font has none for it), or half of `units_per_em`.
pub open spec fn char_width_in(data: Seq<u8>, c: char, units_per_em: u16) -> u16 {
    let glyph: u16 = match glyph_index_in(data, c) {
        Some(g) => g,
        None => 0,
    };
    advance_or_half(hor_advance_in(data, glyph), units_per_em) as u16
}

/// Width in font units of the character with code `code` in the font in `data`.
pub open spec fn ascii_width_in(data: Seq<u8>, code: int) -> u16 {
    char_width_in(data, code as char, units_per_em_in(data))
}

/// The glyph map entries for the characters `used` in the font in `data`: each character
/// that the font has a glyph for, with that glyph id, in the order of `used`.
pub open spec fn glyph_entries(data: Seq<u8>, used: Seq<char>) -> Seq<(char, u16)>
    decreases used.len(),
{
    if used.len() == 0 {
        Seq::empty()
    } else {
        let prev = glyph_entries(data, used.drop_last());
        match glyph_index_in(data, used.last()) {
            Some(g) => prev.push((used.last(), g)),
            None => prev,
        }
    }
}

/// Widths of the printable ASCII characters 32 to 126 in the font in `data`.
pub open spec fn ascii_widths_in(data: Seq<u8>) -> Seq<u16> {
    Seq::new(95, |i: int| ascii_width_in(data, 32 + i))
}

/// `font` is what [`PdfFont::from_ttf_data`] reads from the font file `data`.
pub open spec fn read_from_ttf(font: PdfFont, data: Seq<u8>) -> bool {
    assembled_from(font, data, name_records_in(data), units_per_em_in(data), ascender_in(data),
        descender_in(data), bounding_box_in(data), capital_height_in(data), weight_in(data),
        italic_angle_in(data), is_monospaced_in(data), is_bold_in(data), ascii_widths_in(data))
}

/// Whether code point `code` is the code of a character of `used`.
pub open spec fn is_used_code(used: Seq<char>, code: int) -> bool {
    exists|k: int| 0 <= k < used.len() && used[k] as u32 == code
}

/// `s` is the subset of `font` for the used characters `used` (sorted, not empty): the same
/// font file and metrics, the codes from the first to the last used character, a width per
/// code when there are at most 65536 of them (the glyph advance for a used character, half
/// an em for codes not used), and the glyph id of each used character that has one, in
/// increasing order.
pub open spec fn subset_of(s: PdfFont, font: PdfFont, used: Seq<char>) -> bool {
    let first = used[0] as u32;
    let last = used.last() as u32;
    let range = last - first + 1;
    &&& s.font_name@ == font.font_name@
    &&& s.font_data@ == font.font_data@
    &&& s.flags == font.flags
    &&& s.bbox == font.bbox
    &&& s.italic_angle == font.italic_angle
    &&& s.ascent == font.ascent
    &&& s.descent == font.descent
    &&& s.cap_height == font.cap_height
    &&& s.stem_v == font.stem_v
    &&& s.units_per_em == font.units_per_em
    &&& s.first_char == first
    &&& s.last_char == last
    &&& s.widths@.len() == (if range <= 65536 { range } else { 0 })
    &&& forall|j: int| 0 <= j < s.widths@.len() && !is_used_code(used, first + j) ==>
        #[trigger] s.widths@[j] == font.units_per_em / 2
    &&& forall|j: int| 0 <= j < s.widths@.len() && is_used_code(used, first + j) ==>
        #[trigger] s.widths@[j] == char_width_in(font.font_data@, (first + j) as char, font.units_per_em)
    &&& s.char_to_glyph.entries() == glyph_entries(font.font_data@, used)
    &&& forall|k: int| 0 <= k < s.char_to_glyph.entries().len() ==> used.contains(#[trigger] s.char_to_glyph.entries()[k].0)
    &&& strictly_sorted(s.char_to_glyph.entries().map_values(|e: (char, u16)| e.0))
}

/// Whether `c` is in `v`.
fn contains_char(v: &Vec<char>, c: char) -> (r: bool)
    ensures
        r == v@.contains(c),
{
    let n = v.len();
    let mut k: usize = 0;
    while k < n
        invariant
            n == v@.len(),
            k <= n,
            forall|j: int| 0 <= j < k ==> v@[j] != c,
        decreases n - k,
    {
        if v[k] == c {
            return true;
        }
        k = k + 1;
    }
    false
}

/// The error for a font file that cannot be parsed while subsetting.
fn subsetting_error(detail: String) -> (r: FopError)
    ensures
        r matches FopError::Generic(m) && "Failed to parse TTF for subsetting: "@.is_prefix_of(m@),
{
    let mut msg = "Failed to parse TTF for subsetting: ".to_owned();
    msg.append(detail.as_str());
    proof {
        reveal_strlit("Failed to parse TTF for subsetting: ");
        assert(msg@.subrange(0, 36) =~= "Failed to parse TTF for subsetting: "@);
    }
    FopError::Generic(msg)
}

/// The font file to embed for a subset using the glyphs `used_glyphs` (notdef included):
/// the whole file, whether or not more than half of the glyphs are used, once it parses.
fn create_simple_subset(font_data: &[u8], used_glyphs: &Vec<u16>) -> (r: Result<Vec<u8>, FopError>)
    ensures
        r is Ok <==> ttf_parses(font_data@),
        r is Ok ==> r->Ok_0@ == font_data@,
        r matches Err(FopError::Generic(m)) ==> "Failed to parse TTF for subsetting: "@.is_prefix_of(m@),
{
    let face = match parse_face(font_data) {
        Ok(f) => f,
        Err(e) => return Err(subsetting_error(parse_error_text(&e))),
    };
    let total_glyphs = face_number_of_glyphs(&face);
    let used_glyph_count = used_glyphs.len();
    if used_glyph_count > total_glyphs as usize / 2 {
        return Ok(copy_bytes(font_data));
    }
    Ok(copy_bytes(font_data))
}

/// The subset of `original_font` for the characters recorded by `subsetter`: the font itself
/// when none was recorded.
fn create_subset_font(original_font: &PdfFont, subsetter: &FontSubsetter) -> (r: Result<PdfFont, FopError>)
    ensures
        r is Ok <==> ttf_parses(original_font.font_data@),
        r is Ok && subsetter.chars().len() == 0 ==> same_font(r->Ok_0, *original_font),
        r is Ok && subsetter.chars().len() > 0 ==> subset_of(r->Ok_0, *original_font, subsetter.chars()),
        r matches Err(FopError::Generic(m)) ==> "Failed to parse TTF for subsetting: "@.is_prefix_of(m@),
{
    broadcast use vstd::utf8::char_u32_cast;
    let face = match parse_face(original_font.font_data.as_slice()) {
        Ok(f) => f,
        Err(e) => return Err(subsetting_error(parse_error_text(&e))),
    };
    let used_chars = subsetter.used_chars();
    if used_chars.len() == 0 {
        return Ok(original_font.duplicate());
    }
    let ghost used = used_chars@;
    let half = original_font.units_per_em / 2;
    // glyphs used, notdef first, each once; and the glyph id of each used character
    let mut used_glyphs: Vec<u16> = Vec::new();
    used_glyphs.push(0);
    let mut char_to_glyph_map = GlyphMap::new();
    let n = used_chars.len();
    let mut k: usize = 0;
    while k < n
        invariant
            n == used.len(),
            used == used_chars@,
            strictly_sorted(used),
            k <= n,
            forall|j: int| 0 <= j < char_to_glyph_map.entries().len() ==>
                exists|i: int| 0 <= i < k && used[i] == #[trigger] char_to_glyph_map.entries()[j].0,
            strictly_sorted(char_to_glyph_map.entries().map_values(|e: (char, u16)| e.0)),
            forall|j: int| 0 <= j < char_to_glyph_map.entries().len() ==>
                (k > 0 ==> (char_to_glyph_map.entries()[j].0 as u32) <= (used[k - 1] as u32)),
            face@ == original_font.font_data@,
            char_to_glyph_map.entries() == glyph_entries(original_font.font_data@, used.take(k as int)),
        decreases n - k,
    {
        let c = used_chars[k];
        proof {
            assert(used.take(k + 1).drop_last() =~= used.take(k as int));
            assert(used.take(k + 1).last() == c);
        }
        match face_glyph_index(&face, c) {
            Some(g) => {
                let ghost before = char_to_glyph_map.entries();
                proof {
                    assert forall|j: int| 0 <= j < before.len() implies before[j].0 != c by {
                        if k > 0 {
                            assert((before[j].0 as u32) <= (used[k - 1] as u32));
                            assert((used[k - 1] as u32) < (used[k as int] as u32));
                        } else {
                            let i = choose|i: int| 0 <= i < k && used[i] == before[j].0;
                        }
                    }
                }
                char_to_glyph_map.insert(c, g);
                proof {
                    let after = char_to_glyph_map.entries();
                    assert(after == before.push((c, g)));
                    let keys = after.map_values(|e: (char, u16)| e.0);
                    let keys0 = before.map_values(|e: (char, u16)| e.0);
                    assert forall|a: int, b: int| 0 <= a < b < keys.len() implies (keys[a] as u32) < (keys[b] as u32) by {
                        if b == keys.len() - 1 {
                            assert(keys[a] == before[a].0);
                            if k > 0 {
                                assert((before[a].0 as u32) <= (used[k - 1] as u32));
                            } else {
                                let i = choose|i: int| 0 <= i < k && used[i] == before[a].0;
                            }
                        } else {
                            assert(keys[a] == keys0[a]);
                            assert(keys[b] == keys0[b]);
                        }
                    }
                    assert forall|j: int| 0 <= j < after.len() implies
                        exists|i: int| 0 <= i < k + 1 && used[i] == #[trigger] after[j].0 by {
                        if j == after.len() - 1 {
                            assert(used[k as int] == after[j].0);
                        } else {
                            assert(after[j] == before[j]);
                        }
                    }
                    assert forall|j: int| 0 <= j < after.len() implies (after[j].0 as u32) <= (used[k as int] as u32) by {
                        if j < after.len() - 1 {
                            assert(after[j] == before[j]);
                            if k > 0 {
                                assert((used[k - 1] as u32) < (used[k as int] as u32));
                            } else {
                                let i = choose|i: int| 0 <= i < k && used[i] == before[j].0;
                            }
                        }
                    }
                }
                if !contains_glyph(&used_glyphs, g) {
                    used_glyphs.push(g);
                }
            },
            None => {
                proof {
                    let e = char_to_glyph_map.entries();
                    assert forall|j: int| 0 <= j < e.len() implies (e[j].0 as u32) <= (used[k as int] as u32) by {
                        if k > 0 {
                            assert((used[k - 1] as u32) < (used[k as int] as u32));
                        } else {
                            let i = choose|i: int| 0 <= i < k && used[i] == e[j].0;
                        }
                    }
                }
            },
        }
        k = k + 1;
    }
    let first_char = code_of(used_chars[0]);
    let last_char = code_of(used_chars[n - 1]);
    proof {
        assert(used.take(n as int) =~= used);
        assert(first_char == used[0] as u32);
        assert(last_char == used[n - 1] as u32);
        if n > 1 {
            assert((used[0] as u32) < (used[n - 1] as u32));
        }
        vstd::utf8::char_is_scalar(used[n - 1]);
        assert(last_char <= 0x10FFFF);
    }
    let mut widths: Vec<u16> = Vec::new();
    let range_size = last_char - first_char + 1;
    if range_size <= 65536 {
        let mut code = first_char;
        while code <= last_char
            invariant
                first_char <= code <= last_char + 1,
                last_char < 0x110000,
                used == used_chars@,
                half == original_font.units_per_em / 2,
                widths@.len() == code - first_char,
                forall|j: int| 0 <= j < widths@.len() && !is_used_code(used, first_char + j) ==>
                    #[trigger] widths@[j] == half,
                face@ == original_font.font_data@,
                forall|j: int| 0 <= j < widths@.len() && is_used_code(used, first_char + j) ==>
                    #[trigger] widths@[j] == char_width_in(original_font.font_data@, (first_char + j) as char,
                        original_font.units_per_em),
            decreases last_char + 1 - code,
        {
            let ghost w0 = widths@;
            let ghost expected = char_width_in(original_font.font_data@, code as char, original_font.units_per_em);
            let width = match char_from_code(code) {
                Some(c) => {
                    if contains_char(used_chars, c) {
                        let glyph = match face_glyph_index(&face, c) {
                            Some(g) => g,
                            None => 0,
                        };
                        proof {
                            assert(c as u32 == code);
                            vstd::utf8::char_u32_cast(c, code);
                        }
                        match face_glyph_hor_advance(&face, glyph) {
                            Some(w) => w,
                            None => half,
                        }
                    } else {
                        proof {
                            assert forall|kk: int| 0 <= kk < used.len() implies used[kk] as u32 != code by {
                                if used[kk] as u32 == code {
                                    vstd::utf8::char_u32_cast(used[kk], code);
                                    vstd::utf8::char_u32_cast(c, code);
                                    assert(used.contains(c));
                                }
                            }
                        }
                        half
                    }
                },
                None => {
                    proof {
                        assert forall|kk: int| 0 <= kk < used.len() implies used[kk] as u32 != code by {
                            vstd::utf8::char_is_scalar(used[kk]);
                        }
                    }
                    half
                },
            };
            proof {
                if is_used_code(used, code as int) {
                    let kk = choose|kk: int| 0 <= kk < used.len() && used[kk] as u32 == code;
                    vstd::utf8::char_u32_cast(used[kk], code);
                    assert(width == expected);
                }
            }
            widths.push(width);
            proof {
                assert forall|j: int| 0 <= j < widths@.len() && !is_used_code(used, first_char + j) implies
                    #[trigger] widths@[j] == half by {
                    if j < w0.len() {
                        assert(widths@[j] == w0[j]);
                    }
                }
                assert forall|j: int| 0 <= j < widths@.len() && is_used_code(used, first_char + j) implies
                    #[trigger] widths@[j] == char_width_in(original_font.font_data@, (first_char + j) as char,
                        original_font.units_per_em) by {
                    if j < w0.len() {
                        assert(widths@[j] == w0[j]);
                    }
                }
            }
            code = code + 1;
        }
    }
    let subset_font_data = match create_simple_subset(original_font.font_data.as_slice(), &used_glyphs) {
        Ok(d) => d,
        Err(e) => return Err(e),
    };
    Ok(PdfFont {
        font_name: original_font.font_name.clone(),
        font_data: subset_font_data,
        flags: original_font.flags,
        bbox: original_font.bbox,
        italic_angle: original_font.italic_angle,
        ascent: original_font.ascent,
        descent: original_font.descent,
        cap_height: original_font.cap_height,
        stem_v: original_font.stem_v,
        widths,
        first_char,
        last_char,
        units_per_em: original_font.units_per_em,
        char_to_glyph: char_to_glyph_map,
    })
}

/// Whether glyph `g` is in `v`.
fn contains_glyph(v: &Vec<u16>, g: u16) -> (r: bool)
    ensures
        r == v@.contains(g),
{
    let n = v.len();
    let mut k: usize = 0;
    while k < n
        invariant
            n == v@.len(),
            k <= n,
            forall|j: int| 0 <= j < k ==> v@[j] != g,
        decreases n - k,
    {
        if v[k] == g {
            return true;
        }
        k = k + 1;
    }
    false
}

/// The object numbers of an embedded font's PDF objects and the font to embed: font
/// descriptor, font file stream, CIDFont, Type 0 font, ToUnicode CMap, CIDToGIDMap.
pub type FontObjectTuple = (usize, usize, usize, usize, usize, usize, PdfFont);

/// `s` with every `-` replaced by a space.
pub open spec fn dashes_to_spaces(s: Seq<char>) -> Seq<char> {
    s.map_values(|c: char| if c == '-' { ' ' } else { c })
}

/// Whether a lower-cased font name matches the lower-cased family `needle`: equal, or,
/// with dashes read as spaces, starting with it.
pub open spec fn name_matches(name: Seq<char>, needle: Seq<char>) -> bool {
    name == needle || (needle.len() <= name.len() && dashes_to_spaces(name).take(needle.len() as int) == needle)
}

/// Law: a lower-cased font name matches a lower-cased family exactly when they are equal or
/// the family is a prefix of the name with each dash of the name read as a space; so
/// `roboto-regular` matches `roboto` and `roboto regular`, and `roboto` does not match
/// `roboto-regular`.
pub proof fn law_name_matches(name: Seq<char>, needle: Seq<char>)
    ensures
        name_matches(name, needle) <==> (name == needle || (needle.len() <= name.len()
            && forall|i: int| 0 <= i < needle.len() ==>
                #[trigger] needle[i] == (if name[i] == '-' { ' ' } else { name[i] }))),
{
    if needle.len() <= name.len() {
        let d = dashes_to_spaces(name).take(needle.len() as int);
        if forall|i: int| 0 <= i < needle.len() ==> #[trigger] needle[i] == (if name[i] == '-' { ' ' } else { name[i] }) {
            assert(d =~= needle);
        }
        if d == needle {
            assert forall|i: int| 0 <= i < needle.len() implies #[trigger] needle[i] == (if name[i] == '-' { ' ' } else { name[i] }) by {
                assert(d[i] == needle[i]);
            }
        }
    }
}

/// The fonts embedded in a document and the characters used with each.
#[derive(Debug)]
pub struct FontManager {
    fonts: Vec<PdfFont>,
    subsetters: Vec<FontSubsetter>,
}

impl FontManager {
    /// The embedded fonts, in embedding order.
    pub closed spec fn font_list(&self) -> Seq<PdfFont> {
        self.fonts@
    }

    /// The character usage of each font.
    pub closed spec fn subsetter_list(&self) -> Seq<FontSubsetter> {
        self.subsetters@
    }

    /// Each embedded font has its character usage.
    #[verifier::type_invariant]
    spec fn one_subsetter_per_font(&self) -> bool {
        self.fonts@.len() == self.subsetters@.len()
    }

    /// Whether font `i` has recorded characters, so that it is embedded as a subset.
    pub open spec fn is_subset(&self, i: int) -> bool {
        i < self.subsetter_list().len() && self.subsetter_list()[i].chars().len() > 0
    }

    /// A manager with no font.
    pub fn new() -> (r: FontManager)
        ensures
            r.font_list().len() == 0,
            r.subsetter_list().len() == 0,
    {
        FontManager { fonts: Vec::new(), subsetters: Vec::new() }
    }

    /// Reads and embeds a TrueType font, with no character used yet; returns its index.
    pub fn embed_font(&mut self, font_data: Vec<u8>) -> (r: Result<usize, FopError>)
        ensures
            r is Ok <==> ttf_parses(font_data@),
            final(self).subsetter_list().len() == final(self).font_list().len(),
            r is Ok ==> {
                &&& r->Ok_0 == old(self).font_list().len()
                &&& final(self).font_list().len() == old(self).font_list().len() + 1
                &&& final(self).font_list().take(old(self).font_list().len() as int) == old(self).font_list()
                &&& read_from_ttf(final(self).font_list().last(), font_data@)
                &&& final(self).subsetter_list() == old(self).subsetter_list().push(final(self).subsetter_list().last())
                &&& final(self).subsetter_list()[r->Ok_0 as int].chars().len() == 0
            },
            r is Err ==> final(self).font_list() == old(self).font_list() && final(self).subsetter_list() == old(self).subsetter_list(),
            r matches Err(FopError::Generic(m)) ==> "Failed to parse TTF: "@.is_prefix_of(m@),
    {
        let ghost data = font_data@;
        proof { use_type_invariant(&*self); }
        let font = match PdfFont::from_ttf_data(font_data) {
            Ok(f) => f,
            Err(e) => return Err(e),
        };
        proof { assert(read_from_ttf(font, data)); }
        let mut taken = FontManager::new();
        std::mem::swap(&mut taken, self);
        let FontManager { mut fonts, mut subsetters } = taken;
        let index = fonts.len();
        fonts.push(font);
        subsetters.push(FontSubsetter::new());
        proof {
            assert(fonts@.take(old(self).fonts@.len() as int) =~= old(self).fonts@);
        }
        *self = FontManager { fonts, subsetters };
        Ok(index)
    }

    /// Records the characters of `text` as used with font `font_index`; nothing happens for
    /// an unknown index.
    pub fn record_text(&mut self, font_index: usize, text: &str)
        ensures
            final(self).subsetter_list().len() == final(self).font_list().len(),
            final(self).font_list() == old(self).font_list(),
            final(self).subsetter_list().len() == old(self).subsetter_list().len(),
            forall|i: int| 0 <= i < old(self).subsetter_list().len() && i != font_index ==>
                #[trigger] final(self).subsetter_list()[i] == old(self).subsetter_list()[i],
            font_index < old(self).subsetter_list().len() ==>
                final(self).subsetter_list()[font_index as int].chars().to_set()
                    == old(self).subsetter_list()[font_index as int].chars().to_set() + text@.to_set(),
    {
        proof { use_type_invariant(&*self); }
        if font_index < self.subsetters.len() {
            let mut updated = self.subsetters[font_index].clone();
            updated.record_text(text);
            let mut taken = FontManager::new();
            std::mem::swap(&mut taken, self);
            let FontManager { fonts, mut subsetters } = taken;
            subsetters.set(font_index, updated);
            *self = FontManager { fonts, subsetters };
        }
    }

    /// Font `index`, if embedded.
    pub fn get_font(&self, index: usize) -> (r: Option<&PdfFont>)
        ensures
            r is Some <==> index < self.font_list().len(),
            r is Some ==> *r->0 == self.font_list()[index as int],
    {
        if index < self.fonts.len() {
            Some(&self.fonts[index])
        } else {
            None
        }
    }

    /// The embedded fonts.
    pub fn fonts(&self) -> (r: &[PdfFont])
        ensures
            r@ == self.font_list(),
    {
        self.fonts.as_slice()
    }

    /// Number of embedded fonts.
    pub fn font_count(&self) -> (r: usize)
        ensures
            r == self.font_list().len(),
    {
        self.fonts.len()
    }

    /// Index of the first font whose lower-cased name equals the lower-cased `family`, or,
    /// with dashes read as spaces, starts with it.
    pub fn find_by_name(&self, family: &str) -> (r: Option<usize>)
        ensures
            r is Some ==> {
                &&& r->0 < self.font_list().len()
                &&& name_matches(lowercase_of(self.font_list()[r->0 as int].font_name@), lowercase_of(family@))
                &&& forall|j: int| 0 <= j < r->0 ==>
                    !name_matches(lowercase_of(#[trigger] self.font_list()[j].font_name@), lowercase_of(family@))
            },
            r is None ==> forall|j: int| 0 <= j < self.font_list().len() ==>
                !name_matches(lowercase_of(#[trigger] self.font_list()[j].font_name@), lowercase_of(family@)),
    {
        let needle_s = to_lowercase(family);
        let needle = chars_of(needle_s.as_str());
        let n = self.fonts.len();
        let mut k: usize = 0;
        while k < n
            invariant
                n == self.fonts@.len(),
                k <= n,
                needle@ == lowercase_of(family@),
                forall|j: int| 0 <= j < k ==>
                    !name_matches(lowercase_of(#[trigger] self.fonts@[j].font_name@), lowercase_of(family@)),
            decreases n - k,
        {
            let name_s = to_lowercase(self.fonts[k].font_name.as_str());
            let name = chars_of(name_s.as_str());
            if name_matches_exec(&name, &needle) {
                return Some(k);
            }
            k = k + 1;
        }
        None
    }

    /// The character usage of font `index`, if any.
    pub fn get_subsetter(&self, index: usize) -> (r: Option<&FontSubsetter>)
        ensures
            r is Some <==> index < self.subsetter_list().len(),
            r is Some ==> *r->0 == self.subsetter_list()[index as int],
    {
        if index < self.subsetters.len() {
            Some(&self.subsetters[index])
        } else {
            None
        }
    }

    /// The objects of every embedded font, numbered from `start_obj_id`, six per font; a font
    /// with recorded characters is embedded as its subset, the others whole. Fails when a
    /// font to subset cannot be parsed.
    pub fn generate_font_objects(&self, start_obj_id: usize) -> (r: Result<Vec<FontObjectTuple>, FopError>)
        requires
            start_obj_id + 6 * self.font_list().len() <= usize::MAX,
        ensures
            r is Ok <==> forall|i: int| 0 <= i < self.font_list().len() && self.is_subset(i) ==>
                ttf_parses(#[trigger] self.font_list()[i].font_data@),
            r is Ok ==> r->Ok_0@.len() == self.font_list().len(),
            r is Ok ==> forall|i: int| 0 <= i < self.font_list().len() ==> {
                let t = #[trigger] r->Ok_0@[i];
                let base = start_obj_id + 6 * i;
                &&& t.0 == base && t.1 == base + 1 && t.2 == base + 2
                &&& t.3 == base + 3 && t.4 == base + 4 && t.5 == base + 5
                &&& self.is_subset(i) ==> subset_of(t.6, self.font_list()[i], self.subsetter_list()[i].chars())
                &&& !self.is_subset(i) ==> same_font(t.6, self.font_list()[i])
            },
            r matches Err(FopError::Generic(m)) ==> "Failed to parse TTF for subsetting: "@.is_prefix_of(m@),
    {
        let mut result: Vec<FontObjectTuple> = Vec::new();
        let mut obj_id = start_obj_id;
        let n = self.fonts.len();
        let mut font_idx: usize = 0;
        while font_idx < n
            invariant
                n == self.fonts@.len(),
                font_idx <= n,
                start_obj_id + 6 * n <= usize::MAX,
                obj_id == start_obj_id + 6 * font_idx,
                result@.len() == font_idx,
                forall|i: int| 0 <= i < font_idx && self.is_subset(i) ==> ttf_parses(#[trigger] self.font_list()[i].font_data@),
                forall|i: int| 0 <= i < font_idx ==> {
                    let t = #[trigger] result@[i];
                    let base = start_obj_id + 6 * i;
                    &&& t.0 == base && t.1 == base + 1 && t.2 == base + 2
                    &&& t.3 == base + 3 && t.4 == base + 4 && t.5 == base + 5
                    &&& self.is_subset(i) ==> subset_of(t.6, self.font_list()[i], self.subsetter_list()[i].chars())
                    &&& !self.is_subset(i) ==> same_font(t.6, self.font_list()[i])
                },
            decreases n - font_idx,
        {
            let font = &self.fonts[font_idx];
            let descriptor_id = obj_id;
            let stream_id = obj_id + 1;
            let cidfont_id = obj_id + 2;
            let type0_dict_id = obj_id + 3;
            let to_unicode_id = obj_id + 4;
            let cidtogidmap_id = obj_id + 5;
            obj_id = obj_id + 6;
            let subset_font = if font_idx < self.subsetters.len() {
                let subsetter = &self.subsetters[font_idx];
                if !subsetter.is_empty() {
                    match create_subset_font(font, subsetter) {
                        Ok(f) => f,
                        Err(e) => {
                            proof {
                                assert(self.is_subset(font_idx as int));
                                assert(!ttf_parses(self.font_list()[font_idx as int].font_data@));
                            }
                            return Err(e);
                        },
                    }
                } else {
                    font.duplicate()
                }
            } else {
                font.duplicate()
            };
            let ghost r0 = result@;
            result.push((descriptor_id, stream_id, cidfont_id, type0_dict_id, to_unicode_id, cidtogidmap_id, subset_font));
            proof {
                assert forall|i: int| 0 <= i < font_idx + 1 implies {
                    let t = #[trigger] result@[i];
                    let base = start_obj_id + 6 * i;
                    &&& t.0 == base && t.1 == base + 1 && t.2 == base + 2
                    &&& t.3 == base + 3 && t.4 == base + 4 && t.5 == base + 5
                    &&& self.is_subset(i) ==> subset_of(t.6, self.font_list()[i], self.subsetter_list()[i].chars())
                    &&& !self.is_subset(i) ==> same_font(t.6, self.font_list()[i])
                } by {
                    if i < font_idx {
                        assert(result@[i] == r0[i]);
                    }
                }
            }
            font_idx = font_idx + 1;
        }
        Ok(result)
    }
}

impl Default for FontManager {
    /// A manager with no font.
    fn default() -> (r: FontManager)
        ensures
            r.font_list().len() == 0,
            r.subsetter_list().len() == 0,
    {
        FontManager::new()
    }
}

/// Whether the lower-cased font name `name` matches the lower-cased family `needle`.
fn name_matches_exec(name: &Vec<char>, needle: &Vec<char>) -> (r: bool)
    ensures
        r == name_matches(name@, needle@),
{
    let n = name.len();
    let m = needle.len();
    let mut equal = n == m;
    let mut prefix = m <= n;
    let mut k: usize = 0;
    while k < m
        invariant
            n == name@.len(),
            m == needle@.len(),
            k <= m,
            equal == (n == m && forall|j: int| 0 <= j < k ==> name@[j] == needle@[j]),
            prefix == (m <= n && forall|j: int| 0 <= j < k ==> dashes_to_spaces(name@)[j] == needle@[j]),
        decreases m - k,
    {
        if k < n {
            let c = name[k];
            let d = if c == '-' { ' ' } else { c };
            if c != needle[k] {
                equal = false;
            }
            if d != needle[k] {
                prefix = false;
            }
        }
        k = k + 1;
    }
    proof {
        if equal {
            assert(name@ =~= needle@);
        }
        if name@ == needle@ {
            assert(equal);
        }
        if prefix {
            assert(dashes_to_spaces(name@).take(m as int) =~= needle@);
        }
        if m <= n && dashes_to_spaces(name@).take(m as int) == needle@ {
            assert forall|j: int| 0 <= j < m implies dashes_to_spaces(name@)[j] == needle@[j] by {
                assert(dashes_to_spaces(name@).take(m as int)[j] == needle@[j]);
            }
        }
    }
    equal || prefix
}

} // verus!
