//! Glyph widths of the standard PDF fonts, for measuring text.
//!
//! Widths are given in 1/1000 of the em square, as in AFM files; a glyph of width
//! `w` set at font size `s` is `w * s / 1000` wide.

use vstd::prelude::*;
use crate::length::{div_round, round_div, Length};
use crate::textfmt::{chars_of, dec_int, push_dec_signed, same_text};

verus! {

/// Glyph widths of Helvetica, in 1/1000 of the em square.
pub const HELVETICA_WIDTHS: [(char, u16); 95] = [
    (' ', 278), ('!', 278), ('"', 355), ('#', 556), ('$', 556), ('%', 889),
    ('&', 667), ('\'', 191), ('(', 333), (')', 333), ('*', 389), ('+', 584),
    (',', 278), ('-', 333), ('.', 278), ('/', 278), ('0', 556), ('1', 556),
    ('2', 556), ('3', 556), ('4', 556), ('5', 556), ('6', 556), ('7', 556),
    ('8', 556), ('9', 556), (':', 278), (';', 278), ('<', 584), ('=', 584),
    ('>', 584), ('?', 556), ('@', 1015), ('A', 667), ('B', 667), ('C', 722),
    ('D', 722), ('E', 667), ('F', 611), ('G', 778), ('H', 722), ('I', 278),
    ('J', 500), ('K', 667), ('L', 556), ('M', 833), ('N', 722), ('O', 778),
    ('P', 667), ('Q', 778), ('R', 722), ('S', 667), ('T', 611), ('U', 722),
    ('V', 667), ('W', 944), ('X', 667), ('Y', 667), ('Z', 611), ('[', 278),
    ('\\', 278), (']', 278), ('^', 469), ('_', 556), ('`', 333), ('a', 556),
    ('b', 556), ('c', 500), ('d', 556), ('e', 556), ('f', 278), ('g', 556),
    ('h', 556), ('i', 222), ('j', 222), ('k', 500), ('l', 222), ('m', 833),
    ('n', 556), ('o', 556), ('p', 556), ('q', 556), ('r', 333), ('s', 500),
    ('t', 278), ('u', 556), ('v', 500), ('w', 722), ('x', 500), ('y', 500),
    ('z', 500), ('{', 334), ('|', 260), ('}', 334), ('~', 584),
];

/// Glyph widths of Times-Roman, in 1/1000 of the em square.
pub const TIMES_ROMAN_WIDTHS: [(char, u16); 95] = [
    (' ', 250), ('!', 333), ('"', 408), ('#', 500), ('$', 500), ('%', 833),
    ('&', 778), ('\'', 180), ('(', 333), (')', 333), ('*', 500), ('+', 564),
    (',', 250), ('-', 333), ('.', 250), ('/', 278), ('0', 500), ('1', 500),
    ('2', 500), ('3', 500), ('4', 500), ('5', 500), ('6', 500), ('7', 500),
    ('8', 500), ('9', 500), (':', 278), (';', 278), ('<', 564), ('=', 564),
    ('>', 564), ('?', 444), ('@', 921), ('A', 722), ('B', 667), ('C', 667),
    ('D', 722), ('E', 611), ('F', 556), ('G', 722), ('H', 722), ('I', 333),
    ('J', 389), ('K', 722), ('L', 611), ('M', 889), ('N', 722), ('O', 722),
    ('P', 556), ('Q', 722), ('R', 667), ('S', 556), ('T', 611), ('U', 722),
    ('V', 722), ('W', 944), ('X', 722), ('Y', 722), ('Z', 611), ('[', 333),
    ('\\', 278), (']', 333), ('^', 469), ('_', 500), ('`', 333), ('a', 444),
    ('b', 500), ('c', 444), ('d', 500), ('e', 444), ('f', 333), ('g', 500),
    ('h', 500), ('i', 278), ('j', 278), ('k', 500), ('l', 278), ('m', 778),
    ('n', 500), ('o', 500), ('p', 500), ('q', 500), ('r', 333), ('s', 389),
    ('t', 278), ('u', 500), ('v', 500), ('w', 722), ('x', 500), ('y', 500),
    ('z', 444), ('{', 480), ('|', 200), ('}', 480), ('~', 541),
];

/// Glyph widths of Courier (monospaced: every listed glyph is 600 wide), in 1/1000 of the em square.
pub const COURIER_WIDTHS: [(char, u16); 95] = [
    (' ', 600), ('!', 600), ('"', 600), ('#', 600), ('$', 600), ('%', 600),
    ('&', 600), ('\'', 600), ('(', 600), (')', 600), ('*', 600), ('+', 600),
    (',', 600), ('-', 600), ('.', 600), ('/', 600), ('0', 600), ('1', 600),
    ('2', 600), ('3', 600), ('4', 600), ('5', 600), ('6', 600), ('7', 600),
    ('8', 600), ('9', 600), (':', 600), (';', 600), ('<', 600), ('=', 600),
    ('>', 600), ('?', 600), ('@', 600), ('A', 600), ('B', 600), ('C', 600),
    ('D', 600), ('E', 600), ('F', 600), ('G', 600), ('H', 600), ('I', 600),
    ('J', 600), ('K', 600), ('L', 600), ('M', 600), ('N', 600), ('O', 600),
    ('P', 600), ('Q', 600), ('R', 600), ('S', 600), ('T', 600), ('U', 600),
    ('V', 600), ('W', 600), ('X', 600), ('Y', 600), ('Z', 600), ('[', 600),
    ('\\', 600), (']', 600), ('^', 600), ('_', 600), ('`', 600), ('a', 600),
    ('b', 600), ('c', 600), ('d', 600), ('e', 600), ('f', 600), ('g', 600),
    ('h', 600), ('i', 600), ('j', 600), ('k', 600), ('l', 600), ('m', 600),
    ('n', 600), ('o', 600), ('p', 600), ('q', 600), ('r', 600), ('s', 600),
    ('t', 600), ('u', 600), ('v', 600), ('w', 600), ('x', 600), ('y', 600),
    ('z', 600), ('{', 600), ('|', 600), ('}', 600), ('~', 600),
];

/// Glyph widths of Symbol (Greek letters and mathematical symbols), in 1/1000 of the em square.
pub const SYMBOL_WIDTHS: [(char, u16); 131] = [
    (' ', 250), ('!', 333), ('"', 713), ('#', 500), ('$', 549), ('%', 833),
    ('&', 778), ('\'', 439), ('(', 333), (')', 333), ('*', 500), ('+', 549),
    (',', 250), ('-', 549), ('.', 250), ('/', 278), ('0', 500), ('1', 500),
    ('2', 500), ('3', 500), ('4', 500), ('5', 500), ('6', 500), ('7', 500),
    ('8', 500), ('9', 500), (':', 278), (';', 278), ('<', 549), ('=', 549),
    ('>', 549), ('?', 444), ('@', 549), ('Α', 722), ('Β', 667), ('Γ', 603),
    ('Δ', 612), ('Ε', 611), ('Ζ', 611), ('Η', 722), ('Θ', 741), ('Ι', 333),
    ('Κ', 722), ('Λ', 686), ('Μ', 889), ('Ν', 722), ('Ξ', 645), ('Ο', 722),
    ('Π', 768), ('Ρ', 556), ('Σ', 592), ('Τ', 611), ('Υ', 690), ('Φ', 763),
    ('Χ', 722), ('Ψ', 795), ('Ω', 768), ('α', 631), ('β', 549), ('γ', 411),
    ('δ', 494), ('ε', 439), ('ζ', 494), ('η', 603), ('θ', 521), ('ι', 329),
    ('κ', 549), ('λ', 549), ('μ', 576), ('ν', 521), ('ξ', 493), ('ο', 549),
    ('π', 549), ('ρ', 549), ('σ', 603), ('τ', 439), ('υ', 576), ('φ', 521),
    ('χ', 549), ('ψ', 686), ('ω', 686), ('∀', 713), ('∂', 494), ('∃', 549),
    ('∅', 549), ('∆', 612), ('∇', 713), ('∈', 713), ('∉', 713), ('∏', 823),
    ('∑', 713), ('−', 549), ('∗', 500), ('√', 549), ('∝', 713), ('∞', 713),
    ('∠', 768), ('∧', 603), ('∨', 603), ('∩', 768), ('∪', 768), ('∫', 274),
    ('∴', 863), ('∼', 549), ('≅', 549), ('≈', 549), ('≠', 549), ('≡', 549),
    ('≤', 549), ('≥', 549), ('⊂', 713), ('⊃', 713), ('⊄', 713), ('⊆', 713),
    ('⊇', 713), ('⊕', 768), ('⊗', 768), ('⊥', 658), ('⋅', 250), ('[', 333),
    (']', 333), ('←', 987), ('↑', 603), ('→', 987), ('↓', 603), ('↔', 1042),
    ('⇐', 987), ('⇑', 603), ('⇒', 987), ('⇓', 603), ('⇔', 1042),
];

/// Glyph widths of ZapfDingbats (dingbat characters), in 1/1000 of the em square.
pub const ZAPF_DINGBATS_WIDTHS: [(char, u16); 110] = [
    (' ', 278), ('✁', 974), ('✂', 961), ('✃', 974), ('✄', 980), ('✆', 719),
    ('✇', 789), ('✈', 790), ('✉', 791), ('✌', 690), ('✍', 960), ('✎', 939),
    ('✏', 549), ('✐', 855), ('✑', 911), ('✒', 933), ('✓', 911), ('✔', 945),
    ('✕', 974), ('✖', 755), ('✗', 846), ('✘', 762), ('✙', 761), ('✚', 571),
    ('✛', 677), ('✜', 763), ('✝', 760), ('✞', 759), ('✟', 754), ('✠', 494),
    ('✡', 552), ('✢', 537), ('✣', 577), ('✤', 692), ('✥', 786), ('✦', 788),
    ('✧', 788), ('★', 790), ('☆', 793), ('✩', 794), ('✪', 816), ('✫', 823),
    ('✬', 789), ('✭', 841), ('✮', 823), ('✯', 833), ('✰', 816), ('✱', 831),
    ('✲', 923), ('✳', 744), ('✴', 723), ('✵', 749), ('✶', 790), ('✷', 792),
    ('✸', 695), ('✹', 776), ('✺', 768), ('✻', 792), ('✼', 759), ('✽', 707),
    ('✾', 708), ('✿', 682), ('❀', 701), ('❁', 826), ('❂', 815), ('❃', 789),
    ('❄', 789), ('❅', 707), ('❆', 687), ('❇', 696), ('❈', 689), ('❉', 786),
    ('❊', 787), ('❋', 713), ('☛', 791), ('☞', 785), ('☜', 791), ('☝', 873),
    ('☟', 761), ('□', 762), ('■', 762), ('▢', 759), ('▣', 759), ('▤', 892),
    ('▥', 892), ('▦', 788), ('▧', 784), ('▨', 438), ('▩', 138), ('◆', 277),
    ('◇', 415), ('◈', 392), ('○', 392), ('●', 668), ('◐', 668), ('◑', 390),
    ('◒', 390), ('◓', 317), ('◔', 317), ('◕', 317), ('①', 974), ('②', 974),
    ('③', 974), ('④', 974), ('⑤', 974), ('⑥', 974), ('⑦', 974), ('⑧', 974),
    ('⑨', 974), ('⑩', 974),
];

/// Metrics of one font: glyph widths and vertical measurements, in 1/1000 em.
#[derive(Debug, Clone)]
pub struct FontMetrics {
    /// Font name, such as `Helvetica`.
    pub name: String,
    /// Glyph widths by character; a later entry for a character replaces an earlier one.
    pub char_widths: Vec<(char, u16)>,
    /// Width of characters without an entry.
    pub default_width: u16,
    /// Height of capital letters.
    pub cap_height: u16,
    /// Height of lower-case `x`.
    pub x_height: u16,
    /// Height above the baseline.
    pub ascender: i16,
    /// Depth below the baseline (usually negative).
    pub descender: i16,
}

/// The width recorded for `c` in `table`: its last entry for `c`, if any.
pub open spec fn table_width(table: Seq<(char, u16)>, c: char) -> Option<u16>
    decreases table.len(),
{
    if table.len() == 0 {
        None
    } else if table.last().0 == c {
        Some(table.last().1)
    } else {
        table_width(table.drop_last(), c)
    }
}

/// Width of `c` in `m`: its table entry, or the default width.
pub open spec fn width_of(m: FontMetrics, c: char) -> u16 {
    match table_width(m.char_widths@, c) {
        Some(w) => w,
        None => m.default_width,
    }
}

/// Sum of the widths of the characters of `cs`, in 1/1000 em.
pub open spec fn text_units(m: FontMetrics, cs: Seq<char>) -> int
    decreases cs.len(),
{
    if cs.len() == 0 {
        0
    } else {
        text_units(m, cs.drop_last()) + width_of(m, cs.last())
    }
}

/// Width in millipoints of `cs` set in `m` at `font_size`, rounded to the nearest millipoint.
pub open spec fn text_width(m: FontMetrics, cs: Seq<char>, font_size: Length) -> int {
    round_div(text_units(m, cs) * font_size.mp(), 1000)
}

/// `m` has the given name, table and measurements.
pub open spec fn metrics_are(m: FontMetrics, name: Seq<char>, widths: Seq<(char, u16)>, default_width: int,
    cap_height: int, x_height: int, ascender: int, descender: int) -> bool {
    &&& m.name@ == name
    &&& m.char_widths@ == widths
    &&& m.default_width == default_width
    &&& m.cap_height == cap_height
    &&& m.x_height == x_height
    &&& m.ascender == ascender
    &&& m.descender == descender
}

/// The metrics that [`FontMetrics::helvetica`] builds.
pub open spec fn is_helvetica(m: FontMetrics) -> bool {
    metrics_are(m, "Helvetica"@, HELVETICA_WIDTHS@, 500, 718, 523, 718, -207)
}

/// The metrics that [`FontMetrics::times_roman`] builds.
pub open spec fn is_times_roman(m: FontMetrics) -> bool {
    metrics_are(m, "Times-Roman"@, TIMES_ROMAN_WIDTHS@, 444, 662, 450, 683, -217)
}

/// The metrics that [`FontMetrics::courier`] builds.
pub open spec fn is_courier(m: FontMetrics) -> bool {
    metrics_are(m, "Courier"@, COURIER_WIDTHS@, 600, 562, 426, 629, -157)
}

/// The metrics that [`FontMetrics::symbol`] builds.
pub open spec fn is_symbol(m: FontMetrics) -> bool {
    metrics_are(m, "Symbol"@, SYMBOL_WIDTHS@, 549, 673, 500, 673, -207)
}

/// The metrics that [`FontMetrics::zapf_dingbats`] builds.
pub open spec fn is_zapf_dingbats(m: FontMetrics) -> bool {
    metrics_are(m, "ZapfDingbats"@, ZAPF_DINGBATS_WIDTHS@, 788, 718, 500, 718, -207)
}

/// The text that describes `m`: its name followed by its vertical measurements.
pub open spec fn description(m: FontMetrics) -> Seq<char> {
    m.name@ + " (ascender: "@ + dec_int(m.ascender as int) + ", descender: "@ + dec_int(m.descender as int)
        + ", cap-height: "@ + dec_int(m.cap_height as int) + ", x-height: "@ + dec_int(m.x_height as int) + ")"@
}

/// A copy of a width table.
fn table_vec(t: &[(char, u16)]) -> (r: Vec<(char, u16)>)
    ensures
        r@ == t@,
{
    let mut out: Vec<(char, u16)> = Vec::new();
    let n = t.len();
    let mut k: usize = 0;
    while k < n
        invariant
            n == t@.len(),
            k <= n,
            out@ == t@.take(k as int),
        decreases n - k,
    {
        out.push(t[k]);
        k = k + 1;
        proof { assert(out@ =~= t@.take(k as int)); }
    }
    proof { assert(t@.take(n as int) =~= t@); }
    out
}

/// Entries after position `k` that are not for `c` do not change the width of `c`.
proof fn lemma_table_width_prefix(table: Seq<(char, u16)>, c: char, k: int)
    requires
        0 <= k <= table.len(),
        forall|j: int| k <= j < table.len() ==> #[trigger] table[j].0 != c,
    ensures
        table_width(table, c) == table_width(table.take(k), c),
    decreases table.len() - k,
{
    if k < table.len() {
        assert(table.drop_last().take(k) =~= table.take(k));
        lemma_table_width_prefix(table.drop_last(), c, k);
    } else {
        assert(table.take(k) =~= table);
    }
}

/// Text units of a prefix extended by one character.
proof fn lemma_text_units_step(m: FontMetrics, cs: Seq<char>, k: int)
    requires
        0 <= k < cs.len(),
    ensures
        text_units(m, cs.take(k + 1)) == text_units(m, cs.take(k)) + width_of(m, cs[k]),
{
    assert(cs.take(k + 1).drop_last() =~= cs.take(k));
}

/// Text units are never negative and grow with the prefix.
proof fn lemma_text_units_mono(m: FontMetrics, cs: Seq<char>, k: int)
    requires
        0 <= k <= cs.len(),
    ensures
        0 <= text_units(m, cs.take(k)) <= text_units(m, cs),
    decreases cs.len() - k,
{
    if k < cs.len() {
        lemma_text_units_mono(m, cs, k + 1);
        lemma_text_units_step(m, cs, k);
        lemma_text_units_nonneg(m, cs.take(k));
    } else {
        assert(cs.take(k) =~= cs);
        lemma_text_units_nonneg(m, cs);
    }
}

/// Text units are never negative.
proof fn lemma_text_units_nonneg(m: FontMetrics, cs: Seq<char>)
    ensures
        text_units(m, cs) >= 0,
    decreases cs.len(),
{
    if cs.len() > 0 {
        lemma_text_units_nonneg(m, cs.drop_last());
    }
}

impl FontMetrics {
    /// Width of `c` in 1/1000 em: its table entry, or the default width.
    pub fn char_width(&self, c: char) -> (r: u16)
        ensures
            r == width_of(*self, c),
    {
        let n = self.char_widths.len();
        let mut k: usize = n;
        proof { assert(self.char_widths@.take(n as int) =~= self.char_widths@); }
        while k > 0
            invariant
                n == self.char_widths@.len(),
                k <= n,
                table_width(self.char_widths@, c) == table_width(self.char_widths@.take(k as int), c),
            decreases k,
        {
            let entry = self.char_widths[k - 1];
            proof {
                let t = self.char_widths@.take(k as int);
                assert(t.drop_last() =~= self.char_widths@.take(k - 1));
                assert(t.last() == entry);
            }
            if entry.0 == c {
                return entry.1;
            }
            k = k - 1;
        }
        proof { assert(self.char_widths@.take(0) =~= Seq::<(char, u16)>::empty()); }
        self.default_width
    }

    /// Width of `text` set at `font_size`: the sum of its glyph widths times the font size
    /// over 1000, rounded to the nearest millipoint.
    pub fn measure_text(&self, text: &str, font_size: Length) -> (r: Length)
        requires
            text_units(*self, text@) <= i32::MAX,
            i32::MIN <= text_width(*self, text@, font_size) <= i32::MAX,
        ensures
            r.mp() == text_width(*self, text@, font_size),
    {
        let cs = chars_of(text);
        let n = cs.len();
        let mut total: i64 = 0;
        let mut k: usize = 0;
        while k < n
            invariant
                n == cs@.len(),
                cs@ == text@,
                k <= n,
                text_units(*self, text@) <= i32::MAX,
                total == text_units(*self, cs@.take(k as int)),
            decreases n - k,
        {
            proof {
                lemma_text_units_step(*self, cs@, k as int);
                lemma_text_units_mono(*self, cs@, k as int + 1);
            }
            let w = self.char_width(cs[k]);
            total = total + w as i64;
            k = k + 1;
        }
        proof {
            assert(cs@.take(n as int) =~= cs@);
            lemma_text_units_nonneg(*self, cs@);
        }
        let fs = font_size.millipoints() as i64;
        let product: i64 = total * fs;
        proof {
            assert(-2147483648 * 2147483647 <= total * fs <= 2147483647 * 2147483647) by (nonlinear_arith)
                requires 0 <= total <= 2147483647, -2147483648 <= fs <= 2147483647;
        }
        let v = div_round(product, 1000);
        Length::from_millipoints(v as i32)
    }

    /// Metrics of Helvetica.
    pub fn helvetica() -> (r: FontMetrics)
        ensures
            is_helvetica(r),
    {
        FontMetrics {
            name: "Helvetica".to_owned(),
            char_widths: table_vec(&HELVETICA_WIDTHS),
            default_width: 500,
            cap_height: 718,
            x_height: 523,
            ascender: 718,
            descender: -207,
        }
    }

    /// Metrics of Times-Roman.
    pub fn times_roman() -> (r: FontMetrics)
        ensures
            is_times_roman(r),
    {
        FontMetrics {
            name: "Times-Roman".to_owned(),
            char_widths: table_vec(&TIMES_ROMAN_WIDTHS),
            default_width: 444,
            cap_height: 662,
            x_height: 450,
            ascender: 683,
            descender: -217,
        }
    }

    /// Metrics of Courier.
    pub fn courier() -> (r: FontMetrics)
        ensures
            is_courier(r),
    {
        FontMetrics {
            name: "Courier".to_owned(),
            char_widths: table_vec(&COURIER_WIDTHS),
            default_width: 600,
            cap_height: 562,
            x_height: 426,
            ascender: 629,
            descender: -157,
        }
    }

    /// Metrics of Symbol.
    pub fn symbol() -> (r: FontMetrics)
        ensures
            is_symbol(r),
    {
        FontMetrics {
            name: "Symbol".to_owned(),
            char_widths: table_vec(&SYMBOL_WIDTHS),
            default_width: 549,
            cap_height: 673,
            x_height: 500,
            ascender: 673,
            descender: -207,
        }
    }

    /// Metrics of ZapfDingbats.
    pub fn zapf_dingbats() -> (r: FontMetrics)
        ensures
            is_zapf_dingbats(r),
    {
        FontMetrics {
            name: "ZapfDingbats".to_owned(),
            char_widths: table_vec(&ZAPF_DINGBATS_WIDTHS),
            default_width: 788,
            cap_height: 718,
            x_height: 500,
            ascender: 718,
            descender: -207,
        }
    }

    /// The name and vertical measurements, as
    /// `Name (ascender: A, descender: D, cap-height: C, x-height: X)`.
    pub fn describe(&self) -> (r: String)
        ensures
            r@ == description(*self),
    {
        let mut s = self.name.clone();
        s.append(" (ascender: ");
        push_dec_signed(&mut s, self.ascender as i64);
        s.append(", descender: ");
        push_dec_signed(&mut s, self.descender as i64);
        s.append(", cap-height: ");
        push_dec_signed(&mut s, self.cap_height as i64);
        s.append(", x-height: ");
        push_dec_signed(&mut s, self.x_height as i64);
        s.append(")");
        s
    }
}

/// The names under which [`FontRegistry::new`] registers the standard fonts, in order.
pub open spec fn standard_font_names() -> Seq<Seq<char>> {
    seq![
        "Helvetica"@,
        "Helvetica-Bold"@,
        "Helvetica-Oblique"@,
        "Helvetica-BoldOblique"@,
        "Times-Roman"@,
        "Times-Bold"@,
        "Times-Italic"@,
        "Times-BoldItalic"@,
        "Courier"@,
        "Courier-Bold"@,
        "Courier-Oblique"@,
        "Courier-BoldOblique"@,
        "Symbol"@,
        "ZapfDingbats"@
    ]
}

/// The metrics registered under the `i`-th standard name: the Helvetica, Times and Courier
/// metrics serve their whole families.
pub open spec fn standard_font_at(i: int, m: FontMetrics) -> bool {
    if i < 4 {
        is_helvetica(m)
    } else if i < 8 {
        is_times_roman(m)
    } else if i < 12 {
        is_courier(m)
    } else if i == 12 {
        is_symbol(m)
    } else {
        is_zapf_dingbats(m)
    }
}

/// The metrics registered under `name`: the first entry with that name.
pub open spec fn registry_lookup(entries: Seq<(Seq<char>, FontMetrics)>, name: Seq<char>) -> Option<FontMetrics>
    decreases entries.len(),
{
    if entries.len() == 0 {
        None
    } else if entries[0].0 == name {
        Some(entries[0].1)
    } else {
        registry_lookup(entries.drop_first(), name)
    }
}

/// Whether `r` holds exactly the standard fonts under their standard names, in order.
pub open spec fn is_standard_registry(r: FontRegistry) -> bool {
    &&& r.entries().len() == 14
    &&& forall|i: int| 0 <= i < 14 ==> #[trigger] r.entries()[i].0 == standard_font_names()[i]
    &&& forall|i: int| 0 <= i < 14 ==> standard_font_at(i, #[trigger] r.entries()[i].1)
}

/// Font metrics by font name.
pub struct FontRegistry {
    fonts: Vec<(String, FontMetrics)>,
}

impl FontRegistry {
    /// The registered fonts: names and metrics, in registration order.
    pub closed spec fn entries(&self) -> Seq<(Seq<char>, FontMetrics)> {
        self.fonts@.map_values(|e: (String, FontMetrics)| (e.0@, e.1))
    }

    /// Helvetica is registered first, so it can always serve as the fallback.
    #[verifier::type_invariant]
    spec fn has_fallback(&self) -> bool {
        self.fonts@.len() > 0 && self.fonts@[0].0@ == "Helvetica"@
    }

    /// A registry of the 14 standard PDF fonts.
    pub fn new() -> (r: FontRegistry)
        ensures
            is_standard_registry(r),
    {
        let mut fonts: Vec<(String, FontMetrics)> = Vec::new();
        fonts.push(("Helvetica".to_owned(), FontMetrics::helvetica()));
        fonts.push(("Helvetica-Bold".to_owned(), FontMetrics::helvetica()));
        fonts.push(("Helvetica-Oblique".to_owned(), FontMetrics::helvetica()));
        fonts.push(("Helvetica-BoldOblique".to_owned(), FontMetrics::helvetica()));
        fonts.push(("Times-Roman".to_owned(), FontMetrics::times_roman()));
        fonts.push(("Times-Bold".to_owned(), FontMetrics::times_roman()));
        fonts.push(("Times-Italic".to_owned(), FontMetrics::times_roman()));
        fonts.push(("Times-BoldItalic".to_owned(), FontMetrics::times_roman()));
        fonts.push(("Courier".to_owned(), FontMetrics::courier()));
        fonts.push(("Courier-Bold".to_owned(), FontMetrics::courier()));
        fonts.push(("Courier-Oblique".to_owned(), FontMetrics::courier()));
        fonts.push(("Courier-BoldOblique".to_owned(), FontMetrics::courier()));
        fonts.push(("Symbol".to_owned(), FontMetrics::symbol()));
        fonts.push(("ZapfDingbats".to_owned(), FontMetrics::zapf_dingbats()));
        proof {
            reveal_strlit("Helvetica");
        }
        let r = FontRegistry { fonts };
        proof {
            assert forall|i: int| 0 <= i < 14 implies #[trigger] r.entries()[i].0 == standard_font_names()[i] by {}
            assert forall|i: int| 0 <= i < 14 implies standard_font_at(i, #[trigger] r.entries()[i].1) by {}
        }
        r
    }

    /// The metrics registered under `name`, if any.
    pub fn get(&self, name: &str) -> (r: Option<&FontMetrics>)
        ensures
            r is Some <==> registry_lookup(self.entries(), name@) is Some,
            r is Some ==> *r->0 == registry_lookup(self.entries(), name@)->0,
    {
        match self.index_of(name) {
            Some(k) => Some(&self.fonts[k].1),
            None => None,
        }
    }

    /// Position of the first entry named `name`.
    fn index_of(&self, name: &str) -> (r: Option<usize>)
        ensures
            r is Some <==> registry_lookup(self.entries(), name@) is Some,
            r is Some ==> r->0 < self.fonts@.len() && self.fonts@[r->0 as int].1 == registry_lookup(self.entries(), name@)->0,
    {
        let n = self.fonts.len();
        let mut k: usize = 0;
        proof { assert(self.entries().skip(0) =~= self.entries()); }
        while k < n
            invariant
                n == self.fonts@.len(),
                k <= n,
                registry_lookup(self.entries(), name@) == registry_lookup(self.entries().skip(k as int), name@),
            decreases n - k,
        {
            proof {
                let rest = self.entries().skip(k as int);
                assert(rest[0] == self.entries()[k as int]);
                assert(rest.drop_first() =~= self.entries().skip(k as int + 1));
            }
            if same_text(self.fonts[k].0.as_str(), name) {
                return Some(k);
            }
            k = k + 1;
        }
        proof {
            assert(self.entries().skip(n as int) =~= Seq::<(Seq<char>, FontMetrics)>::empty());
        }
        None
    }

    /// The metrics registered under `name`, or those of Helvetica when there are none.
    pub fn get_or_default(&self, name: &str) -> (r: &FontMetrics)
        ensures
            *r == match registry_lookup(self.entries(), name@) {
                Some(m) => m,
                None => registry_lookup(self.entries(), "Helvetica"@)->0,
            },
            registry_lookup(self.entries(), "Helvetica"@) is Some,
    {
        proof {
            use_type_invariant(self);
            assert(self.entries()[0].0 == "Helvetica"@);
        }
        match self.index_of(name) {
            Some(k) => &self.fonts[k].1,
            None => &self.fonts[0].1,
        }
    }
}

impl Default for FontRegistry {
    /// The registry of the standard fonts.
    fn default() -> (r: FontRegistry)
        ensures
            is_standard_registry(r),
    {
        FontRegistry::new()
    }
}

/// A table whose entries all give width `w` records no other width.
proof fn lemma_uniform_table(table: Seq<(char, u16)>, c: char, w: u16)
    requires
        forall|j: int| 0 <= j < table.len() ==> #[trigger] table[j].1 == w,
    ensures
        table_width(table, c) matches Some(x) ==> x == w,
    decreases table.len(),
{
    if table.len() > 0 {
        lemma_uniform_table(table.drop_last(), c, w);
    }
}

/// Courier is monospaced: every character is 600/1000 em wide.
pub proof fn law_courier_is_monospaced(m: FontMetrics, c: char)
    requires
        is_courier(m),
    ensures
        width_of(m, c) == 600,
{
    assert forall|j: int| 0 <= j < 95 implies #[trigger] COURIER_WIDTHS@[j].1 == 600 by {
    }
    lemma_uniform_table(m.char_widths@, c, 600);
}

/// Text set in Courier is 600/1000 em wide per character, whatever the characters.
pub proof fn law_courier_text_width(m: FontMetrics, cs: Seq<char>, font_size: Length)
    requires
        is_courier(m),
    ensures
        text_units(m, cs) == 600 * cs.len(),
        text_width(m, cs, font_size) == round_div(600 * cs.len() * font_size.mp(), 1000),
    decreases cs.len(),
{
    if cs.len() > 0 {
        law_courier_text_width(m, cs.drop_last(), font_size);
        law_courier_is_monospaced(m, cs.last());
    }
}

} // verus!
