//! The standard PDF fonts and PDF literal strings for simple documents.

use vstd::prelude::*;
use crate::pdf_font::code_of;
use crate::textfmt::{chars_of, digit, digit_char, push_char};

verus! {

/// The 14 standard Type 1 fonts that every PDF reader has.
#[derive(Debug, Clone, Copy, PartialEq, Eq, Hash, Structural)]
pub enum BuiltinFont {
    /// Helvetica (sans-serif)
    Helvetica,
    /// Helvetica Bold
    HelveticaBold,
    /// Helvetica Oblique
    HelveticaOblique,
    /// Helvetica Bold Oblique
    HelveticaBoldOblique,
    /// Times Roman (serif)
    TimesRoman,
    /// Times Bold
    TimesBold,
    /// Times Italic
    TimesItalic,
    /// Times Bold Italic
    TimesBoldItalic,
    /// Courier (monospace)
    Courier,
    /// Courier Bold
    CourierBold,
    /// Courier Oblique
    CourierOblique,
    /// Courier Bold Oblique
    CourierBoldOblique,
    /// Symbol
    Symbol,
    /// Zapf Dingbats
    ZapfDingbats,
}

/// The resource name of a standard font in content streams: `F1` to `F14`.
pub open spec fn resource_name_of(f: BuiltinFont) -> Seq<char> {
    match f {
        BuiltinFont::Helvetica => "F1"@,
        BuiltinFont::HelveticaBold => "F2"@,
        BuiltinFont::HelveticaOblique => "F3"@,
        BuiltinFont::HelveticaBoldOblique => "F4"@,
        BuiltinFont::TimesRoman => "F5"@,
        BuiltinFont::TimesBold => "F6"@,
        BuiltinFont::TimesItalic => "F7"@,
        BuiltinFont::TimesBoldItalic => "F8"@,
        BuiltinFont::Courier => "F9"@,
        BuiltinFont::CourierBold => "F10"@,
        BuiltinFont::CourierOblique => "F11"@,
        BuiltinFont::CourierBoldOblique => "F12"@,
        BuiltinFont::Symbol => "F13"@,
        BuiltinFont::ZapfDingbats => "F14"@,
    }
}

/// The PDF BaseFont name of a standard font.
pub open spec fn base_font_name_of(f: BuiltinFont) -> Seq<char> {
    match f {
        BuiltinFont::Helvetica => "Helvetica"@,
        BuiltinFont::HelveticaBold => "Helvetica-Bold"@,
        BuiltinFont::HelveticaOblique => "Helvetica-Oblique"@,
        BuiltinFont::HelveticaBoldOblique => "Helvetica-BoldOblique"@,
        BuiltinFont::TimesRoman => "Times-Roman"@,
        BuiltinFont::TimesBold => "Times-Bold"@,
        BuiltinFont::TimesItalic => "Times-Italic"@,
        BuiltinFont::TimesBoldItalic => "Times-BoldItalic"@,
        BuiltinFont::Courier => "Courier"@,
        BuiltinFont::CourierBold => "Courier-Bold"@,
        BuiltinFont::CourierOblique => "Courier-Oblique"@,
        BuiltinFont::CourierBoldOblique => "Courier-BoldOblique"@,
        BuiltinFont::Symbol => "Symbol"@,
        BuiltinFont::ZapfDingbats => "ZapfDingbats"@,
    }
}

/// The standard fonts in definition order.
pub open spec fn all_builtin_fonts() -> Seq<BuiltinFont> {
    seq![BuiltinFont::Helvetica, BuiltinFont::HelveticaBold, BuiltinFont::HelveticaOblique, BuiltinFont::HelveticaBoldOblique, BuiltinFont::TimesRoman, BuiltinFont::TimesBold, BuiltinFont::TimesItalic, BuiltinFont::TimesBoldItalic, BuiltinFont::Courier, BuiltinFont::CourierBold, BuiltinFont::CourierOblique, BuiltinFont::CourierBoldOblique, BuiltinFont::Symbol, BuiltinFont::ZapfDingbats]
}

impl BuiltinFont {
    /// The resource name (`F1` to `F14`) of the font in content streams.
    pub fn resource_name(self) -> (r: &'static str)
        ensures
            r@ == resource_name_of(self),
    {
        match self {
            BuiltinFont::Helvetica => "F1",
            BuiltinFont::HelveticaBold => "F2",
            BuiltinFont::HelveticaOblique => "F3",
            BuiltinFont::HelveticaBoldOblique => "F4",
            BuiltinFont::TimesRoman => "F5",
            BuiltinFont::TimesBold => "F6",
            BuiltinFont::TimesItalic => "F7",
            BuiltinFont::TimesBoldItalic => "F8",
            BuiltinFont::Courier => "F9",
            BuiltinFont::CourierBold => "F10",
            BuiltinFont::CourierOblique => "F11",
            BuiltinFont::CourierBoldOblique => "F12",
            BuiltinFont::Symbol => "F13",
            BuiltinFont::ZapfDingbats => "F14",
        }
    }

    /// The PDF BaseFont name of the font.
    pub fn base_font_name(self) -> (r: &'static str)
        ensures
            r@ == base_font_name_of(self),
    {
        match self {
            BuiltinFont::Helvetica => "Helvetica",
            BuiltinFont::HelveticaBold => "Helvetica-Bold",
            BuiltinFont::HelveticaOblique => "Helvetica-Oblique",
            BuiltinFont::HelveticaBoldOblique => "Helvetica-BoldOblique",
            BuiltinFont::TimesRoman => "Times-Roman",
            BuiltinFont::TimesBold => "Times-Bold",
            BuiltinFont::TimesItalic => "Times-Italic",
            BuiltinFont::TimesBoldItalic => "Times-BoldItalic",
            BuiltinFont::Courier => "Courier",
            BuiltinFont::CourierBold => "Courier-Bold",
            BuiltinFont::CourierOblique => "Courier-Oblique",
            BuiltinFont::CourierBoldOblique => "Courier-BoldOblique",
            BuiltinFont::Symbol => "Symbol",
            BuiltinFont::ZapfDingbats => "ZapfDingbats",
        }
    }

    /// All standard fonts in definition order.
    pub fn all() -> (r: Vec<BuiltinFont>)
        ensures
            r@ == all_builtin_fonts(),
    {
        let mut v: Vec<BuiltinFont> = Vec::new();
        v.push(BuiltinFont::Helvetica);
        v.push(BuiltinFont::HelveticaBold);
        v.push(BuiltinFont::HelveticaOblique);
        v.push(BuiltinFont::HelveticaBoldOblique);
        v.push(BuiltinFont::TimesRoman);
        v.push(BuiltinFont::TimesBold);
        v.push(BuiltinFont::TimesItalic);
        v.push(BuiltinFont::TimesBoldItalic);
        v.push(BuiltinFont::Courier);
        v.push(BuiltinFont::CourierBold);
        v.push(BuiltinFont::CourierOblique);
        v.push(BuiltinFont::CourierBoldOblique);
        v.push(BuiltinFont::Symbol);
        v.push(BuiltinFont::ZapfDingbats);
        proof { assert(v@ =~= all_builtin_fonts()); }
        v
    }
}

/// The UTF-8 encoding of `c`.
pub open spec fn utf8_of(c: char) -> Seq<u8> {
    let u = c as u32 as int;
    if u < 0x80 {
        seq![u as u8]
    } else if u < 0x800 {
        seq![(0xC0 + u / 64) as u8, (0x80 + u % 64) as u8]
    } else if u < 0x10000 {
        seq![(0xE0 + u / 4096) as u8, (0x80 + (u / 64) % 64) as u8, (0x80 + u % 64) as u8]
    } else {
        seq![(0xF0 + u / 262144) as u8, (0x80 + (u / 4096) % 64) as u8, (0x80 + (u / 64) % 64) as u8,
            (0x80 + u % 64) as u8]
    }
}

/// Octal escapes `\ddd` of the bytes of `bs`.
pub open spec fn octal_escapes(bs: Seq<u8>) -> Seq<char>
    decreases bs.len(),
{
    if bs.len() == 0 {
        Seq::empty()
    } else {
        let b = bs.last() as int;
        octal_escapes(bs.drop_last()) + seq!['\\', digit_char(b / 64), digit_char((b / 8) % 8), digit_char(b % 8)]
    }
}

/// How `c` is written inside a PDF literal string.
pub open spec fn escape_char(c: char) -> Seq<char> {
    if c == '(' {
        "\\("@
    } else if c == ')' {
        "\\)"@
    } else if c == '\\' {
        "\\\\"@
    } else if c == '\r' {
        "\\r"@
    } else if c == '\n' {
        "\\n"@
    } else if c == '\t' {
        "\\t"@
    } else if (c as u32) < 128 {
        seq![c]
    } else {
        octal_escapes(utf8_of(c))
    }
}

/// `s` written inside a PDF literal string `(...)`.
pub open spec fn escaped(s: Seq<char>) -> Seq<char>
    decreases s.len(),
{
    if s.len() == 0 { Seq::empty() } else { escaped(s.drop_last()) + escape_char(s.last()) }
}

/// The bytes of the UTF-8 encoding of `c`.
fn encode_utf8(c: char) -> (r: Vec<u8>)
    ensures
        r@ == utf8_of(c),
{
    proof { vstd::utf8::char_is_scalar(c); }
    let u = code_of(c);
    let mut v: Vec<u8> = Vec::new();
    if u < 0x80 {
        v.push(u as u8);
    } else if u < 0x800 {
        v.push((0xC0 + u / 64) as u8);
        v.push((0x80 + u % 64) as u8);
    } else if u < 0x10000 {
        v.push((0xE0 + u / 4096) as u8);
        v.push((0x80 + (u / 64) % 64) as u8);
        v.push((0x80 + u % 64) as u8);
    } else {
        v.push((0xF0 + u / 262144) as u8);
        v.push((0x80 + (u / 4096) % 64) as u8);
        v.push((0x80 + (u / 64) % 64) as u8);
        v.push((0x80 + u % 64) as u8);
    }
    proof { assert(v@ =~= utf8_of(c)); }
    v
}

/// Escapes `s` for a PDF literal string: parentheses and backslashes get a backslash;
/// carriage return, newline and tab become `\r`, `\n`, `\t`; other ASCII characters stay;
/// every other character becomes the octal escapes `\ddd` of its UTF-8 bytes.
pub fn escape_pdf_string(s: &str) -> (r: String)
    ensures
        r@ == escaped(s@),
{
    let cs = chars_of(s);
    let mut out = String::new();
    let n = cs.len();
    let mut k: usize = 0;
    proof { assert(cs@.take(0) =~= Seq::<char>::empty()); }
    while k < n
        invariant
            n == cs@.len(),
            cs@ == s@,
            k <= n,
            out@ == escaped(cs@.take(k as int)),
        decreases n - k,
    {
        let c = cs[k];
        let ghost before = out@;
        if c == '(' {
            out.append("\\(");
        } else if c == ')' {
            out.append("\\)");
        } else if c == '\\' {
            out.append("\\\\");
        } else if c == '\r' {
            out.append("\\r");
        } else if c == '\n' {
            out.append("\\n");
        } else if c == '\t' {
            out.append("\\t");
        } else if code_of(c) < 128 {
            push_char(&mut out, c);
        } else {
            let bytes = encode_utf8(c);
            let m = bytes.len();
            let mut j: usize = 0;
            proof { assert(bytes@.take(0) =~= Seq::<u8>::empty()); }
            while j < m
                invariant
                    m == bytes@.len(),
                    j <= m,
                    out@ == before + octal_escapes(bytes@.take(j as int)),
                decreases m - j,
            {
                let b = bytes[j] as u64;
                push_char(&mut out, '\\');
                push_char(&mut out, digit(b / 64));
                push_char(&mut out, digit((b / 8) % 8));
                push_char(&mut out, digit(b % 8));
                j = j + 1;
                proof {
                    assert(bytes@.take(j as int).drop_last() =~= bytes@.take(j - 1));
                    assert(out@ =~= before + octal_escapes(bytes@.take(j as int)));
                }
            }
            proof { assert(bytes@.take(m as int) =~= bytes@); }
        }
        k = k + 1;
        proof {
            assert(cs@.take(k as int).drop_last() =~= cs@.take(k - 1));
            assert(out@ =~= escaped(cs@.take(k as int)));
        }
    }
    proof { assert(cs@.take(n as int) =~= cs@); }
    out
}

/// Whether `c` is an ASCII character other than a parenthesis.
pub open spec fn plain_ascii(c: char) -> bool {
    (c as u32) < 128 && c != '(' && c != ')'
}

/// Octal escapes are made of backslashes and digits.
proof fn lemma_octal_escapes_plain(bs: Seq<u8>)
    ensures
        forall|i: int| 0 <= i < octal_escapes(bs).len() ==> #[trigger] plain_ascii(octal_escapes(bs)[i]),
    decreases bs.len(),
{
    if bs.len() > 0 {
        lemma_octal_escapes_plain(bs.drop_last());
        let b = bs.last() as int;
        let tail = seq!['\\', digit_char(b / 64), digit_char((b / 8) % 8), digit_char(b % 8)];
        let prev = octal_escapes(bs.drop_last());
        assert forall|i: int| 0 <= i < octal_escapes(bs).len() implies #[trigger] plain_ascii(octal_escapes(bs)[i]) by {
            if i >= prev.len() {
                assert(octal_escapes(bs)[i] == tail[i - prev.len()]);
            } else {
                assert(octal_escapes(bs)[i] == prev[i]);
            }
        }
    }
}

/// `part` is ASCII, and each parenthesis in it follows a backslash.
pub open spec fn safe_part(part: Seq<char>) -> bool {
    &&& forall|j: int| 0 <= j < part.len() ==> (#[trigger] part[j] as u32) < 128
    &&& forall|j: int| 0 <= j < part.len() && (#[trigger] part[j] == '(' || part[j] == ')') ==>
        j > 0 && part[j - 1] == '\\'
}

/// A backslash followed by one ASCII character is safe.
proof fn lemma_pair_safe(c: char)
    requires
        (c as u32) < 128,
    ensures
        safe_part(seq!['\\', c]),
{
    let p = seq!['\\', c];
    assert(('\\' as u32) == 92);
    assert forall|j: int| 0 <= j < p.len() implies (#[trigger] p[j] as u32) < 128 by {
        if j == 0 { assert(p[0] == '\\'); } else { assert(p[1] == c); }
    }
    assert forall|j: int| 0 <= j < p.len() && (#[trigger] p[j] == '(' || p[j] == ')') implies
        j > 0 && p[j - 1] == '\\' by {
        if j == 0 { assert(p[0] == '\\'); }
    }
}

/// The escape of one character is ASCII, and a parenthesis in it follows a backslash.
proof fn lemma_escape_char_safe(c: char)
    ensures
        safe_part(escape_char(c)),
{
    reveal_strlit("\\(");
    reveal_strlit("\\)");
    reveal_strlit("\\\\");
    reveal_strlit("\\r");
    reveal_strlit("\\n");
    reveal_strlit("\\t");
    let part = escape_char(c);
    if c == '(' {
        assert(part =~= seq!['\\', '(']);
        lemma_pair_safe('(');
    } else if c == ')' {
        assert(part =~= seq!['\\', ')']);
        lemma_pair_safe(')');
    } else if c == '\\' {
        assert(part =~= seq!['\\', '\\']);
        lemma_pair_safe('\\');
    } else if c == '\r' {
        assert(part =~= seq!['\\', 'r']);
        lemma_pair_safe('r');
    } else if c == '\n' {
        assert(part =~= seq!['\\', 'n']);
        lemma_pair_safe('n');
    } else if c == '\t' {
        assert(part =~= seq!['\\', 't']);
        lemma_pair_safe('t');
    } else if (c as u32) < 128 {
        assert(part =~= seq![c]);
        assert forall|j: int| 0 <= j < part.len() implies plain_ascii(#[trigger] part[j]) by {
            assert(part[j] == c);
        }
    } else {
        lemma_octal_escapes_plain(utf8_of(c));
        assert forall|j: int| 0 <= j < part.len() implies plain_ascii(#[trigger] part[j]) by {
            assert(plain_ascii(octal_escapes(utf8_of(c))[j]));
        }
    }
}

/// Text escaped for a PDF literal string is ASCII, and each parenthesis in it comes right
/// after a backslash, so that the string cannot end early or leave a parenthesis unmatched.
pub proof fn law_escaped_text_is_safe_ascii(s: Seq<char>)
    ensures
        forall|i: int| 0 <= i < escaped(s).len() ==> (#[trigger] escaped(s)[i] as u32) < 128,
        forall|i: int| 0 <= i < escaped(s).len() && (#[trigger] escaped(s)[i] == '(' || escaped(s)[i] == ')') ==>
            i > 0 && escaped(s)[i - 1] == '\\',
    decreases s.len(),
{
    if s.len() > 0 {
        law_escaped_text_is_safe_ascii(s.drop_last());
        let c = s.last();
        let prev = escaped(s.drop_last());
        let part = escape_char(c);
        lemma_escape_char_safe(c);
        assert(safe_part(part));
        assert(escaped(s) == prev + part);
        assert forall|i: int| 0 <= i < escaped(s).len() implies (#[trigger] escaped(s)[i] as u32) < 128 by {
            if i >= prev.len() {
                assert(escaped(s)[i] == part[i - prev.len()]);
            } else {
                assert(escaped(s)[i] == prev[i]);
            }
        }
        assert forall|i: int| 0 <= i < escaped(s).len() && (#[trigger] escaped(s)[i] == '(' || escaped(s)[i] == ')') implies
            i > 0 && escaped(s)[i - 1] == '\\' by {
            if i >= prev.len() {
                let j = i - prev.len();
                assert(escaped(s)[i] == part[j]);
                assert(part[j] == '(' || part[j] == ')');
                assert(j > 0 && part[j - 1] == '\\');
                assert(escaped(s)[i - 1] == part[j - 1]);
            } else {
                assert(escaped(s)[i] == prev[i]);
                assert(escaped(s)[i - 1] == prev[i - 1]);
            }
        }
    }
}

/// Whether `c` is printable ASCII other than the characters a literal string escapes.
pub open spec fn plain_printable(c: char) -> bool {
    0x20 <= (c as u32) < 0x7F && c != '(' && c != ')' && c != '\\'
}

/// Law: printable ASCII other than parentheses and backslash is written as itself, so text
/// made only of such characters comes out of escaping unchanged; parentheses and backslash
/// are written after a backslash.
pub proof fn law_plain_text_unescaped(s: Seq<char>)
    ensures
        forall|c: char| plain_printable(c) ==> #[trigger] escape_char(c) == seq![c],
        forall|c: char| (c == '(' || c == ')' || c == '\\') ==> #[trigger] escape_char(c) == seq!['\\', c],
        (forall|i: int| 0 <= i < s.len() ==> plain_printable(#[trigger] s[i])) ==> escaped(s) == s,
    decreases s.len(),
{
    assert forall|c: char| (c == '(' || c == ')' || c == '\\') implies #[trigger] escape_char(c) == seq!['\\', c] by {
        reveal_strlit("\\(");
        reveal_strlit("\\)");
        reveal_strlit("\\\\");
        assert(escape_char(c) =~= seq!['\\', c]);
    }
    if s.len() > 0 {
        law_plain_text_unescaped(s.drop_last());
        if forall|i: int| 0 <= i < s.len() ==> plain_printable(#[trigger] s[i]) {
            let t = s.drop_last();
            assert(forall|i: int| 0 <= i < t.len() ==> plain_printable(#[trigger] t[i]) ) by {
                assert forall|i: int| 0 <= i < t.len() implies plain_printable(#[trigger] t[i]) by {
                    assert(t[i] == s[i]);
                }
            }
            assert(plain_printable(s[s.len() - 1]));
            assert(escape_char(s.last()) == seq![s.last()]);
            assert(escaped(s) == t + seq![s.last()]);
            assert(t.push(s.last()) =~= s);
            assert(t + seq![s.last()] =~= s);
        }
    }
}

} // verus!
