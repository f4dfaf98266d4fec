//! Reading formatting properties: border style keywords and the character classes that
//! text measurement distinguishes.

use vstd::prelude::*;
use crate::area::BorderStyle;
use crate::length::{div_round, round_div, Length};
use crate::textfmt::{chars_of, same_text};

verus! {

/// Whether code point `code` lies in one of the CJK blocks: unified ideographs and common
/// CJK punctuation (U+3000..U+9FFF), Hangul syllables (U+AC00..U+D7AF), compatibility
/// ideographs (U+F900..U+FAFF) and half- and full-width forms (U+FF00..U+FFEF).
pub open spec fn cjk_code(code: int) -> bool {
    (0x3000 <= code <= 0x9FFF) || (0xAC00 <= code <= 0xD7AF) || (0xF900 <= code <= 0xFAFF)
        || (0xFF00 <= code <= 0xFFEF)
}

/// Whether `ch` is a CJK (Chinese, Japanese, Korean) character, set full-width.
pub fn is_cjk(ch: char) -> (r: bool)
    ensures
        r == cjk_code(ch as u32 as int),
{
    ('\u{3000}' <= ch && ch <= '\u{9FFF}') || ('\u{AC00}' <= ch && ch <= '\u{D7AF}')
        || ('\u{F900}' <= ch && ch <= '\u{FAFF}') || ('\u{FF00}' <= ch && ch <= '\u{FFEF}')
}

/// The border style that keyword `s` names, if it is one of the CSS border-style keywords.
pub open spec fn border_style_named(s: Seq<char>) -> Option<BorderStyle> {
    if s == "none"@ {
        Some(BorderStyle::NoStyle)
    } else if s == "solid"@ {
        Some(BorderStyle::Solid)
    } else if s == "dashed"@ {
        Some(BorderStyle::Dashed)
    } else if s == "dotted"@ {
        Some(BorderStyle::Dotted)
    } else if s == "double"@ {
        Some(BorderStyle::Double)
    } else if s == "groove"@ {
        Some(BorderStyle::Groove)
    } else if s == "ridge"@ {
        Some(BorderStyle::Ridge)
    } else if s == "inset"@ {
        Some(BorderStyle::Inset)
    } else if s == "outset"@ {
        Some(BorderStyle::Outset)
    } else if s == "hidden"@ {
        Some(BorderStyle::Hidden)
    } else {
        None
    }
}

/// The border style of a `border-style` property value; `None` when the property is unset
/// or its value is not a border-style keyword.
pub fn parse_border_style(s: Option<&str>) -> (r: Option<BorderStyle>)
    ensures
        r == match s {
            Some(v) => border_style_named(v@),
            None => None,
        },
{
    let v = match s {
        Some(v) => v,
        None => return None,
    };
    if same_text(v, "none") {
        Some(BorderStyle::NoStyle)
    } else if same_text(v, "solid") {
        Some(BorderStyle::Solid)
    } else if same_text(v, "dashed") {
        Some(BorderStyle::Dashed)
    } else if same_text(v, "dotted") {
        Some(BorderStyle::Dotted)
    } else if same_text(v, "double") {
        Some(BorderStyle::Double)
    } else if same_text(v, "groove") {
        Some(BorderStyle::Groove)
    } else if same_text(v, "ridge") {
        Some(BorderStyle::Ridge)
    } else if same_text(v, "inset") {
        Some(BorderStyle::Inset)
    } else if same_text(v, "outset") {
        Some(BorderStyle::Outset)
    } else if same_text(v, "hidden") {
        Some(BorderStyle::Hidden)
    } else {
        None
    }
}

/// Whether `ch` is one of the narrow characters `iIl1!|.,;'`.
pub open spec fn narrow_char(ch: char) -> bool {
    ch == 'i' || ch == 'I' || ch == 'l' || ch == '1' || ch == '!' || ch == '|' || ch == '.' || ch == ','
        || ch == ';' || ch == '\''
}

/// Whether `ch` is one of the wide characters `mMwW`.
pub open spec fn wide_char(ch: char) -> bool {
    ch == 'm' || ch == 'M' || ch == 'w' || ch == 'W'
}

/// Whether a font weight counts as bold for measuring: 600 or more.
pub open spec fn is_bold_weight(font_weight: Option<u16>) -> bool {
    font_weight matches Some(w) && w >= 600
}

/// Estimated advance of `ch` in hundredths of the font size: a full em for CJK, a quarter
/// for a space, 0.3 for narrow and 0.7 for wide Latin letters, 0.5 otherwise (0.55 bold).
pub open spec fn char_factor(ch: char, bold: bool) -> int {
    if cjk_code(ch as u32 as int) {
        100
    } else if ch == ' ' {
        25
    } else if narrow_char(ch) {
        30
    } else if wide_char(ch) {
        70
    } else if bold {
        55
    } else {
        50
    }
}

/// Sum of the estimated advances of `cs`, in hundredths of the font size.
pub open spec fn text_factor(cs: Seq<char>, bold: bool) -> int
    decreases cs.len(),
{
    if cs.len() == 0 {
        0
    } else {
        text_factor(cs.drop_last(), bold) + char_factor(cs.last(), bold)
    }
}

/// Estimated advance of one character in hundredths of the font size.
fn char_width_factor(ch: char, bold: bool) -> (r: u32)
    ensures
        r == char_factor(ch, bold),
{
    if is_cjk(ch) {
        100
    } else if ch == ' ' {
        25
    } else if ch == 'i' || ch == 'I' || ch == 'l' || ch == '1' || ch == '!' || ch == '|' || ch == '.'
        || ch == ',' || ch == ';' || ch == '\'' {
        30
    } else if ch == 'm' || ch == 'M' || ch == 'w' || ch == 'W' {
        70
    } else if bold {
        55
    } else {
        50
    }
}

/// The approximate width of `text` in hundredths of the font size, from average character
/// widths by class (CJK, space, narrow, wide, other) and the font weight: text set at size
/// `s` is about `text_width_factor * s / 100` wide.
pub fn text_width_factor(text: &str, font_weight: Option<u16>) -> (r: u128)
    ensures
        r == text_factor(text@, is_bold_weight(font_weight)),
{
    let bold = match font_weight {
        Some(w) => w >= 600,
        None => false,
    };
    let cs = chars_of(text);
    let n = cs.len();
    let mut total: u128 = 0;
    let mut k: usize = 0;
    while k < n
        invariant
            n == cs@.len(),
            cs@ == text@,
            bold == is_bold_weight(font_weight),
            k <= n,
            total == text_factor(cs@.take(k as int), bold),
            total <= 100 * k,
        decreases n - k,
    {
        proof { assert(cs@.take(k + 1).drop_last() =~= cs@.take(k as int)); }
        let f = char_width_factor(cs[k], bold);
        total = total + f as u128;
        k = k + 1;
    }
    proof { assert(cs@.take(n as int) =~= cs@); }
    total
}

/// The approximate width in millipoints of `text` set at size `font_size` with weight
/// `font_weight`: its width factor times the font size, in hundredths, rounded to the
/// nearest millipoint.
pub open spec fn text_width_estimate(text: Seq<char>, font_size: Length, font_weight: Option<u16>) -> int {
    round_div(text_factor(text, is_bold_weight(font_weight)) * font_size.mp(), 100)
}

/// The approximate width of `text` set at size `font_size` with weight `font_weight`, from
/// average character widths by class (see [`text_width_factor`]); empty text is zero wide.
pub fn measure_text_width(text: &str, font_size: Length, font_weight: Option<u16>) -> (r: Length)
    requires
        i32::MIN <= text_width_estimate(text@, font_size, font_weight) <= i32::MAX,
    ensures
        r.mp() == text_width_estimate(text@, font_size, font_weight),
{
    let factor = text_width_factor(text, font_weight);
    let fs = font_size.millipoints();
    if fs == 0 || factor == 0 {
        proof {
            assert(factor * fs == 0) by (nonlinear_arith) requires fs == 0 || factor == 0;
        }
        return Length::zero();
    }
    proof {
        let n: int = factor * fs;
        let q: int = round_div(n, 100);
        if n >= 0 {
            assert(n <= 100 * 2147483648) by (nonlinear_arith)
                requires n >= 0, q == (2 * n + 100) / 200, q <= 2147483647;
        } else {
            assert(-n <= 100 * 2147483648 + 100) by (nonlinear_arith)
                requires n < 0, q == -((2 * (-n) + 100) / 200), q >= -2147483648;
        }
        assert(factor <= 100 * 2147483648 + 100) by (nonlinear_arith)
            requires
                n == factor * fs,
                fs != 0,
                factor >= 0,
                -100 * 2147483648 - 100 <= n <= 100 * 2147483648;
    }
    let f: i64 = factor as i64;
    let product: i64 = f * (fs as i64);
    let v = div_round(product, 100);
    Length::from_millipoints(v as i32)
}

} // verus!
