//! What reading a written ToUnicode CMap gives back: the `bfchar` lines and whole CMaps
//! that the font writers produce, read by the CMap reader.

use vstd::prelude::*;
use vstd::utf8::{decode_utf8, encode_utf8, valid_utf8};
use crate::cidfont::{cid_cmap_text, glyph_lines, ucs_cmap_header_lines};
use crate::knuth_plass::{is_white_space, split_state, words_of};
use crate::pdf_font::{
    bfchar_line, cmap_header_lines, cmap_trailer_lines, identity_lines_for, identity_lines_range, text_of_lines,
    to_unicode_text, PdfFont,
};
use crate::textfmt::{dec_nat, digit_char, hex_char, hex_padded};
use crate::to_unicode::{
    all_hex, bf_char, cmap_of_text, cmap_read, cmap_step, ends_with, hex_digit_value, hex_number, hex_token, is_char_code,
    line_state, lines_of, parse_radix16, trim, trim_char_end, trim_char_start, unbracket, CmapState,
};

verus! {

/// Whether `c` is a hexadecimal digit.
pub open spec fn is_hex(c: char) -> bool {
    hex_digit_value(c) is Some
}

/// The digit character that the writer uses for `d` reads back as `d`.
proof fn lemma_hex_char_value(d: int)
    requires
        0 <= d < 16,
    ensures
        hex_digit_value(hex_char(d)) == Some(d),
{
}

/// Hexadecimal numerals as the writer pads them are non-empty, made of hexadecimal digits,
/// and read back as the number written.
proof fn lemma_hex_padded(n: nat, w: nat)
    ensures
        hex_padded(n, w).len() >= 1,
        forall|i: int| 0 <= i < hex_padded(n, w).len() ==> #[trigger] is_hex(hex_padded(n, w)[i]),
        hex_number(hex_padded(n, w)) == n,
    decreases n + w,
{
    if n < 16 && w <= 1 {
        lemma_hex_char_value(n as int);
        let h = hex_padded(n, w);
        assert(h == seq![hex_char(n as int)]);
        assert(h.drop_last() =~= Seq::<char>::empty());
        assert(hex_number(h) == hex_number(h.drop_last()) * 16 + hex_digit_value(h.last())->0);
        assert(hex_number(h.drop_last()) == 0);
    } else {
        let w2: nat = if w > 0 { (w - 1) as nat } else { 0 };
        lemma_hex_padded(n / 16, w2);
        lemma_hex_char_value((n % 16) as int);
        let h = hex_padded(n, w);
        assert(h == hex_padded(n / 16, w2).push(hex_char((n % 16) as int)));
        assert(h.drop_last() =~= hex_padded(n / 16, w2));
        assert(hex_number(h) == hex_number(h.drop_last()) * 16 + hex_digit_value(h.last())->0);
        assert(n == (n / 16) * 16 + n % 16);
        assert forall|i: int| 0 <= i < h.len() implies #[trigger] is_hex(h[i]) by {
            if i < h.len() - 1 {
                assert(h[i] == hex_padded(n / 16, w2)[i]);
            }
        }
    }
}

/// A hexadecimal digit is neither white space nor a bracket nor a plus sign.
proof fn lemma_hex_is_plain(c: char)
    requires
        is_hex(c),
    ensures
        !is_white_space(c),
        c != '<',
        c != '>',
        c != '+',
{
}

/// Reading a run of characters that are not white space extends the word being read.
proof fn lemma_split_run(cs: Seq<char>, a: int, b: int)
    requires
        0 <= a <= b <= cs.len(),
        forall|i: int| a <= i < b ==> !is_white_space(#[trigger] cs[i]),
    ensures
        split_state(cs, b).0 == split_state(cs, a).0,
        split_state(cs, b).1 == split_state(cs, a).1 + cs.subrange(a, b),
    decreases b - a,
{
    if b > a {
        lemma_split_run(cs, a, b - 1);
        assert(split_state(cs, a).1 + cs.subrange(a, b) =~= (split_state(cs, a).1 + cs.subrange(a, b - 1)).push(cs[b - 1]));
    } else {
        assert(split_state(cs, a).1 + cs.subrange(a, b) =~= split_state(cs, a).1);
    }
}

/// Two runs without white space separated by a space are two words.
proof fn lemma_two_words(t1: Seq<char>, t2: Seq<char>)
    requires
        t1.len() > 0,
        t2.len() > 0,
        forall|i: int| 0 <= i < t1.len() ==> !is_white_space(#[trigger] t1[i]),
        forall|i: int| 0 <= i < t2.len() ==> !is_white_space(#[trigger] t2[i]),
    ensures
        words_of(t1 + seq![' '] + t2) == seq![t1, t2],
{
    let line = t1 + seq![' '] + t2;
    let a = t1.len() as int;
    assert forall|i: int| 0 <= i < a implies !is_white_space(#[trigger] line[i]) by {
        assert(line[i] == t1[i]);
    }
    lemma_split_run(line, 0, a);
    assert(line.subrange(0, a) =~= t1);
    assert(split_state(line, 0).1 =~= Seq::<char>::empty());
    assert(line[a] == ' ');
    assert(is_white_space(' '));
    assert forall|i: int| a + 1 <= i < line.len() implies !is_white_space(#[trigger] line[i]) by {
        assert(line[i] == t2[i - a - 1]);
    }
    lemma_split_run(line, a + 1, line.len() as int);
    assert(line.subrange(a + 1, line.len() as int) =~= t2);
    assert(split_state(line, a + 1).1 =~= Seq::<char>::empty());
    assert(split_state(line, a + 1).0 =~= seq![t1]);
    assert(words_of(line) =~= seq![t1, t2]);
}

/// A text that neither starts nor ends with white space is its own trimmed form.
proof fn lemma_trim_plain(s: Seq<char>)
    requires
        s.len() > 0,
        !is_white_space(s[0]),
        !is_white_space(s.last()),
    ensures
        trim(s) == s,
{
}

/// A hexadecimal numeral in angle brackets loses exactly its brackets.
proof fn lemma_unbracket(h: Seq<char>)
    requires
        h.len() > 0,
        forall|i: int| 0 <= i < h.len() ==> #[trigger] is_hex(h[i]),
    ensures
        unbracket(seq!['<'] + h + seq!['>']) == h,
{
    let tok = seq!['<'] + h + seq!['>'];
    lemma_hex_is_plain(h[0]);
    lemma_hex_is_plain(h.last());
    assert(tok[0] == '<');
    assert(tok.last() == '>');
    lemma_trim_plain(tok);
    assert(tok.drop_first() =~= h + seq!['>']);
    let rest = h + seq!['>'];
    assert(rest[0] == h[0]);
    assert(trim_char_start(rest, '<') == rest);
    assert(trim_char_start(tok, '<') == rest);
    assert(trim_char_end(rest, '<') == rest);
    assert(trim(rest) == rest) by {
        lemma_trim_plain(rest);
    }
    assert(trim_char_start(rest, '>') == rest);
    assert(rest.drop_last() =~= h);
    assert(trim_char_end(h, '>') == h);
    assert(trim_char_end(rest, '>') == h);
}

/// A hexadecimal numeral as the writer pads it, in angle brackets: a word that reads back as
/// the number written.
proof fn lemma_hex_token(v: u32)
    ensures
        ({
            let h = hex_padded(v as nat, 4);
            let tok = seq!['<'] + h + seq!['>'];
            &&& tok.len() > 0
            &&& forall|i: int| 0 <= i < tok.len() ==> !is_white_space(#[trigger] tok[i])
            &&& hex_token(tok) == Some(v)
            &&& parse_radix16(unbracket(tok)) == Some(v)
        }),
{
    let h = hex_padded(v as nat, 4);
    lemma_hex_padded(v as nat, 4);
    let tok = seq!['<'] + h + seq!['>'];
    assert forall|i: int| 0 <= i < tok.len() implies !is_white_space(#[trigger] tok[i]) by {
        if 0 < i < tok.len() - 1 {
            assert(tok[i] == h[i - 1]);
            lemma_hex_is_plain(h[i - 1]);
        }
    }
    lemma_unbracket(h);
    lemma_hex_is_plain(h[0]);
    lemma_hex_is_plain(h.last());
    lemma_trim_plain(h);
    assert(all_hex(h)) by {
        assert forall|i: int| 0 <= i < h.len() implies #[trigger] hex_digit_value(h[i]) is Some by {
            assert(is_hex(h[i]));
        }
    }
    assert(parse_radix16(h) == Some(v));
}

/// The writer's `bfchar` line mapping code `a` to character `c` reads back, in a `bfchar`
/// section, as that mapping.
pub proof fn law_bfchar_line_reads_back(a: u32, c: char, s: CmapState)
    requires
        s.in_bf_char,
    ensures
        ({
            let line = bfchar_line(a as nat, c as u32 as nat);
            &&& bf_char(trim(line.drop_last())) == Some((a, c))
            &&& cmap_step(s, line.drop_last()) == CmapState { map: s.map.insert(a, c), ..s }
        }),
{
    let code = c as u32;
    reveal_strlit("<");
    reveal_strlit("> <");
    reveal_strlit(">\n");
    lemma_hex_token(a);
    lemma_hex_token(code);
    let tok1 = seq!['<'] + hex_padded(a as nat, 4) + seq!['>'];
    let tok2 = seq!['<'] + hex_padded(code as nat, 4) + seq!['>'];
    let body = bfchar_line(a as nat, code as nat).drop_last();
    assert(body =~= tok1 + seq![' '] + tok2);
    assert(tok1[0] == '<');
    assert(tok2.last() == '>');
    lemma_trim_plain(body);
    lemma_two_words(tok1, tok2);
    vstd::utf8::char_is_scalar(c);
    vstd::utf8::char_u32_cast(c, code);
    reveal_strlit("beginbfchar");
    reveal_strlit("endbfchar");
    reveal_strlit("beginbfrange");
    reveal_strlit("endbfrange");
    let line = trim(body);
    assert(line.last() == '>');
    assert(!ends_with(line, "beginbfchar"@)) by {
        if ends_with(line, "beginbfchar"@) {
            assert(line.subrange(line.len() - 11, line.len() as int)[10] == line.last());
        }
    }
    assert(!ends_with(line, "beginbfrange"@)) by {
        if ends_with(line, "beginbfrange"@) {
            assert(line.subrange(line.len() - 12, line.len() as int)[11] == line.last());
        }
    }
    assert(line != "endbfchar"@) by {
        if line == "endbfchar"@ {
            assert(line[line.len() - 1] == 'r');
        }
    }
    assert(line != "endbfrange"@) by {
        if line == "endbfrange"@ {
            assert(line[line.len() - 1] == 'e');
        }
    }
}

/// The state of a reader that has read nothing yet.
pub open spec fn initial_cmap_state() -> CmapState {
    CmapState { in_bf_char: false, in_bf_range: false, map: Map::empty() }
}

/// The reader's state after `lines`, starting from `s`.
pub open spec fn cmap_run(s: CmapState, lines: Seq<Seq<char>>) -> CmapState
    decreases lines.len(),
{
    if lines.len() == 0 {
        s
    } else {
        cmap_step(cmap_run(s, lines.drop_last()), lines.last())
    }
}

/// Reading the first `k` lines is running the reader on them from the start.
proof fn lemma_cmap_read_run(lines: Seq<Seq<char>>, k: int)
    requires
        0 <= k <= lines.len(),
    ensures
        cmap_read(lines, k) == cmap_run(initial_cmap_state(), lines.take(k)),
    decreases k,
{
    if k > 0 {
        lemma_cmap_read_run(lines, k - 1);
        assert(lines.take(k).drop_last() =~= lines.take(k - 1));
        assert(lines.take(k).last() == lines[k - 1]);
    } else {
        assert(lines.take(0) =~= Seq::<Seq<char>>::empty());
    }
}

/// Running the reader on two blocks of lines runs it on the first, then on the second.
proof fn lemma_cmap_run_concat(s: CmapState, a: Seq<Seq<char>>, b: Seq<Seq<char>>)
    ensures
        cmap_run(s, a + b) == cmap_run(cmap_run(s, a), b),
    decreases b.len(),
{
    if b.len() == 0 {
        assert(a + b =~= a);
    } else {
        lemma_cmap_run_concat(s, a, b.drop_last());
        assert((a + b).drop_last() =~= a + b.drop_last());
        assert((a + b).last() == b.last());
    }
}

/// Splitting into lines reads only the characters up to the point reached.
proof fn lemma_line_state_prefix(x: Seq<char>, y: Seq<char>, k: int)
    requires
        0 <= k <= x.len(),
        k <= y.len(),
        x.take(k) == y.take(k),
    ensures
        line_state(x, k) == line_state(y, k),
    decreases k,
{
    if k > 0 {
        assert(x.take(k - 1) =~= x.take(k).take(k - 1));
        assert(y.take(k - 1) =~= y.take(k).take(k - 1));
        lemma_line_state_prefix(x, y, k - 1);
        assert(x[k - 1] == x.take(k)[k - 1]);
        assert(y[k - 1] == y.take(k)[k - 1]);
    }
}

/// After a text that ends a line, the lines of what follows are read on their own.
proof fn lemma_line_state_concat(a: Seq<char>, b: Seq<char>, k: int)
    requires
        0 <= k <= b.len(),
        line_state(a, a.len() as int).1.len() == 0,
    ensures
        line_state(a + b, a.len() + k) == (line_state(a, a.len() as int).0 + line_state(b, k).0, line_state(b, k).1),
    decreases k,
{
    if k == 0 {
        assert((a + b).take(a.len() as int) =~= a.take(a.len() as int));
        lemma_line_state_prefix(a + b, a, a.len() as int);
        assert(line_state(a, a.len() as int).0 + Seq::<Seq<char>>::empty() =~= line_state(a, a.len() as int).0);
        assert(line_state(a, a.len() as int).1 =~= Seq::<char>::empty());
    } else {
        lemma_line_state_concat(a, b, k - 1);
        assert((a + b)[a.len() + k - 1] == b[k - 1]);
        let prev = line_state(b, k - 1);
        let la = line_state(a, a.len() as int).0;
        if b[k - 1] == '\n' {
            let line = if prev.1.len() > 0 && prev.1.last() == '\r' { prev.1.drop_last() } else { prev.1 };
            assert((la + prev.0).push(line) =~= la + prev.0.push(line));
        }
    }
}

/// Characters without a line feed extend the line being read.
proof fn lemma_line_run(cs: Seq<char>, k: int)
    requires
        0 <= k <= cs.len(),
        forall|i: int| 0 <= i < k ==> #[trigger] cs[i] != '\n',
    ensures
        line_state(cs, k) == (Seq::<Seq<char>>::empty(), cs.take(k)),
    decreases k,
{
    if k > 0 {
        lemma_line_run(cs, k - 1);
        assert(cs.take(k) =~= cs.take(k - 1).push(cs[k - 1]));
    } else {
        assert(cs.take(0) =~= Seq::<char>::empty());
    }
}

/// Whether `l` can be a line of a text: no line feed in it, and no carriage return at its end.
pub open spec fn line_ok(l: Seq<char>) -> bool {
    &&& forall|i: int| 0 <= i < l.len() ==> #[trigger] l[i] != '\n'
    &&& (l.len() == 0 || l.last() != '\r')
}

/// A line followed by a line feed is read as that line.
proof fn lemma_single_line(l: Seq<char>)
    requires
        line_ok(l),
    ensures
        line_state(l + "\n"@, l.len() + 1int) == (seq![l], Seq::<char>::empty()),
{
    reveal_strlit("\n");
    let cs = l + "\n"@;
    assert forall|i: int| 0 <= i < l.len() implies #[trigger] cs[i] != '\n' by {
        assert(cs[i] == l[i]);
    }
    lemma_line_run(cs, l.len() as int);
    assert(cs.take(l.len() as int) =~= l);
    assert(cs[l.len() as int] == '\n');
    assert(Seq::<Seq<char>>::empty().push(l) =~= seq![l]);
}

/// Lines written each with a line feed are read back as those lines.
proof fn lemma_text_of_lines(ls: Seq<Seq<char>>)
    requires
        forall|j: int| 0 <= j < ls.len() ==> line_ok(#[trigger] ls[j]),
    ensures
        line_state(text_of_lines(ls), text_of_lines(ls).len() as int) == (ls, Seq::<char>::empty()),
        lines_of(text_of_lines(ls)) == ls,
    decreases ls.len(),
{
    if ls.len() == 0 {
        assert(ls =~= Seq::<Seq<char>>::empty());
    } else {
        let init = ls.drop_last();
        assert forall|j: int| 0 <= j < init.len() implies line_ok(#[trigger] init[j]) by {
            assert(init[j] == ls[j]);
        }
        lemma_text_of_lines(init);
        reveal_strlit("\n");
        let a = text_of_lines(init);
        let b = ls.last() + "\n"@;
        assert(text_of_lines(ls) =~= a + b);
        assert(b.len() == ls.last().len() + 1);
        assert(line_ok(ls[ls.len() - 1]));
        lemma_single_line(ls.last());
        lemma_line_state_concat(a, b, b.len() as int);
        assert(init + seq![ls.last()] =~= ls);
        assert(line_state(a + b, (a.len() + b.len()) as int) == (ls, Seq::<char>::empty()));
        assert((a + b).len() == a.len() + b.len());
    }
}

/// The text of two blocks of lines is the text of the first, then of the second.
proof fn lemma_text_of_lines_concat(a: Seq<Seq<char>>, b: Seq<Seq<char>>)
    ensures
        text_of_lines(a + b) == text_of_lines(a) + text_of_lines(b),
    decreases b.len(),
{
    if b.len() == 0 {
        assert(a + b =~= a);
        assert(text_of_lines(a) + text_of_lines(b) =~= text_of_lines(a));
    } else {
        lemma_text_of_lines_concat(a, b.drop_last());
        assert((a + b).drop_last() =~= a + b.drop_last());
        assert((a + b).last() == b.last());
        assert(text_of_lines(a + b) =~= text_of_lines(a) + text_of_lines(b));
    }
}

/// The `bfchar` line for a character, without its line feed.
pub open spec fn bfchar_text(c: char) -> Seq<char> {
    bfchar_line(c as u32 as nat, c as u32 as nat).drop_last()
}

/// The identity `bfchar` lines for the characters of `entries`, without line feeds.
pub open spec fn bfchar_texts(entries: Seq<(char, u16)>) -> Seq<Seq<char>> {
    entries.map_values(|e: (char, u16)| bfchar_text(e.0))
}

/// The identity mapping of the characters of `entries`, each from its code.
pub open spec fn identity_cmap(entries: Seq<(char, u16)>) -> Map<u32, char>
    decreases entries.len(),
{
    if entries.len() == 0 {
        Map::empty()
    } else {
        identity_cmap(entries.drop_last()).insert(entries.last().0 as u32, entries.last().0)
    }
}

/// A `bfchar` line ends with a line feed, and without it is a possible line.
proof fn lemma_bfchar_line_text(a: nat, b: nat)
    ensures
        bfchar_line(a, b) == bfchar_line(a, b).drop_last() + "\n"@,
        line_ok(bfchar_line(a, b).drop_last()),
{
    let ha = hex_padded(a, 4);
    let hb = hex_padded(b, 4);
    lemma_hex_padded(a, 4);
    lemma_hex_padded(b, 4);
    reveal_strlit("<");
    reveal_strlit("> <");
    reveal_strlit(">\n");
    reveal_strlit("\n");
    let t = bfchar_line(a, b).drop_last();
    assert(t =~= seq!['<'] + ha + seq!['>', ' ', '<'] + hb + seq!['>']);
    assert(bfchar_line(a, b) =~= t + "\n"@);
    assert forall|i: int| 0 <= i < t.len() implies #[trigger] t[i] != '\n' by {
        if 1 <= i < 1 + ha.len() {
            assert(t[i] == ha[i - 1]);
            lemma_hex_is_plain(ha[i - 1]);
        } else if 4 + ha.len() <= i < 4 + ha.len() + hb.len() {
            assert(t[i] == hb[i - 4 - ha.len()]);
            lemma_hex_is_plain(hb[i - 4 - ha.len()]);
        }
    }
}

/// The identity lines for `entries` are the text of their `bfchar` lines.
proof fn lemma_identity_lines(entries: Seq<(char, u16)>)
    ensures
        identity_lines_for(entries) == text_of_lines(bfchar_texts(entries)),
        forall|j: int| 0 <= j < bfchar_texts(entries).len() ==> line_ok(#[trigger] bfchar_texts(entries)[j]),
    decreases entries.len(),
{
    let ts = bfchar_texts(entries);
    if entries.len() == 0 {
        assert(ts =~= Seq::<Seq<char>>::empty());
    } else {
        lemma_identity_lines(entries.drop_last());
        assert(bfchar_texts(entries.drop_last()) =~= ts.drop_last());
        lemma_bfchar_line_text(entries.last().0 as u32 as nat, entries.last().0 as u32 as nat);
        assert(ts.last() == bfchar_text(entries.last().0));
        assert(identity_lines_for(entries) =~= text_of_lines(ts));
        assert forall|j: int| 0 <= j < ts.len() implies line_ok(#[trigger] ts[j]) by {
            lemma_bfchar_line_text(entries[j].0 as u32 as nat, entries[j].0 as u32 as nat);
        }
    }
}

/// Whether `l` is a line that a reader outside sections passes over: not white space at
/// either end, and neither opening nor closing a `bfchar` or `bfrange` section.
pub open spec fn inert_line(l: Seq<char>) -> bool {
    &&& l.len() > 0
    &&& !is_white_space(l[0])
    &&& !is_white_space(l.last())
    &&& !ends_with(l, "beginbfchar"@)
    &&& l != "endbfchar"@
    &&& !ends_with(l, "beginbfrange"@)
    &&& l != "endbfrange"@
}

/// A line ending in neither `r` nor `e` opens or closes no section.
proof fn lemma_inert_by_last(l: Seq<char>)
    requires
        l.len() > 0,
        !is_white_space(l[0]),
        !is_white_space(l.last()),
        l.last() != 'r',
        l.last() != 'e',
    ensures
        inert_line(l),
{
    reveal_strlit("beginbfchar");
    reveal_strlit("endbfchar");
    reveal_strlit("beginbfrange");
    reveal_strlit("endbfrange");
    if ends_with(l, "beginbfchar"@) {
        assert(l.subrange(l.len() - 11, l.len() as int)[10] == l.last());
    }
    if ends_with(l, "beginbfrange"@) {
        assert(l.subrange(l.len() - 12, l.len() as int)[11] == l.last());
    }
    if l == "endbfchar"@ {
        assert(l[8] == 'r');
    }
    if l == "endbfrange"@ {
        assert(l[9] == 'e');
    }
}

/// A line ending in `e` whose sixth character from the end is not `f`, of another length
/// than `endbfrange`, opens or closes no section.
proof fn lemma_inert_range_like(l: Seq<char>)
    requires
        l.len() >= 12,
        l.len() != 10,
        !is_white_space(l[0]),
        !is_white_space(l.last()),
        l.last() == 'e',
        l[l.len() - 6] != 'f',
    ensures
        inert_line(l),
{
    reveal_strlit("beginbfchar");
    reveal_strlit("endbfchar");
    reveal_strlit("beginbfrange");
    reveal_strlit("endbfrange");
    if ends_with(l, "beginbfchar"@) {
        assert(l.subrange(l.len() - 11, l.len() as int)[10] == l.last());
    }
    if ends_with(l, "beginbfrange"@) {
        assert(l.subrange(l.len() - 12, l.len() as int)[6] == l[l.len() - 6]);
    }
}

/// A reader outside sections passes over inert lines unchanged.
proof fn lemma_run_inert(s: CmapState, ls: Seq<Seq<char>>)
    requires
        !s.in_bf_char,
        !s.in_bf_range,
        forall|j: int| 0 <= j < ls.len() ==> inert_line(#[trigger] ls[j]),
    ensures
        cmap_run(s, ls) == s,
    decreases ls.len(),
{
    if ls.len() > 0 {
        let init = ls.drop_last();
        assert forall|j: int| 0 <= j < init.len() implies inert_line(#[trigger] init[j]) by {
            assert(init[j] == ls[j]);
        }
        lemma_run_inert(s, init);
        let l = ls.last();
        assert(inert_line(ls[ls.len() - 1]));
        lemma_trim_plain(l);
    }
}

/// The opening and closing lines of a ToUnicode CMap are inert lines and possible lines.
proof fn lemma_cmap_frame()
    ensures
        forall|j: int| 0 <= j < cmap_header_lines().len() ==> inert_line(#[trigger] cmap_header_lines()[j]),
        forall|j: int| 0 <= j < cmap_header_lines().len() ==> line_ok(#[trigger] cmap_header_lines()[j]),
        forall|j: int| 0 <= j < cmap_trailer_lines().len() ==> inert_line(#[trigger] cmap_trailer_lines()[j]),
        forall|j: int| 0 <= j < cmap_trailer_lines().len() ==> line_ok(#[trigger] cmap_trailer_lines()[j]),
{
    reveal_strlit("/CIDInit /ProcSet findresource begin");
    reveal_strlit("12 dict begin");
    reveal_strlit("begincmap");
    reveal_strlit("/CIDSystemInfo <<");
    reveal_strlit("/Registry (Adobe)");
    reveal_strlit("/Ordering (Identity)");
    reveal_strlit("/Supplement 0");
    reveal_strlit(">> def");
    reveal_strlit("/CMapName /Adobe-Identity-UCS def");
    reveal_strlit("/CMapType 2 def");
    reveal_strlit("1 begincodespacerange");
    reveal_strlit("<0000> <FFFF>");
    reveal_strlit("endcodespacerange");
    reveal_strlit("endcmap");
    reveal_strlit("CMapName currentdict /CMap defineresource pop");
    reveal_strlit("end");
    let h = cmap_header_lines();
    let t = cmap_trailer_lines();
    lemma_inert_by_last(h[0]);
    lemma_inert_by_last(h[1]);
    lemma_inert_by_last(h[2]);
    lemma_inert_by_last(h[3]);
    lemma_inert_by_last(h[4]);
    lemma_inert_by_last(h[5]);
    lemma_inert_by_last(h[6]);
    lemma_inert_by_last(h[7]);
    lemma_inert_by_last(h[8]);
    lemma_inert_by_last(h[9]);
    lemma_inert_range_like(h[10]);
    lemma_inert_by_last(h[11]);
    lemma_inert_range_like(h[12]);
    lemma_inert_by_last(t[0]);
    lemma_inert_by_last(t[1]);
    lemma_inert_by_last(t[2]);
    lemma_inert_by_last(t[3]);
}

/// In a `bfchar` section, the reader maps the code of each character of `entries` to it.
proof fn lemma_run_bfchar(s: CmapState, entries: Seq<(char, u16)>)
    requires
        s.in_bf_char,
        s.map == Map::<u32, char>::empty(),
    ensures
        cmap_run(s, bfchar_texts(entries)) == (CmapState { map: identity_cmap(entries), ..s }),
    decreases entries.len(),
{
    if entries.len() == 0 {
        assert(bfchar_texts(entries) =~= Seq::<Seq<char>>::empty());
        assert(identity_cmap(entries) =~= Map::<u32, char>::empty());
    } else {
        lemma_run_bfchar(s, entries.drop_last());
        let ts = bfchar_texts(entries);
        assert(ts.drop_last() =~= bfchar_texts(entries.drop_last()));
        assert(ts.last() == bfchar_text(entries.last().0));
        let mid = CmapState { map: identity_cmap(entries.drop_last()), ..s };
        law_bfchar_line_reads_back(entries.last().0 as u32, entries.last().0, mid);
    }
}

/// The line that opens a `bfchar` section of `n` lines.
pub open spec fn section_open(n: nat) -> Seq<char> {
    dec_nat(n) + seq![' '] + "beginbfchar"@
}

/// The lines of a CMap made of opening lines, one `bfchar` section and the usual closing lines.
pub open spec fn section_cmap_lines(head: Seq<Seq<char>>, body: Seq<Seq<char>>) -> Seq<Seq<char>> {
    head + seq![section_open(body.len())] + body + seq!["endbfchar"@] + cmap_trailer_lines()
}

/// The text of such a CMap is the text of its lines, each of which is a possible line.
proof fn lemma_section_text(head: Seq<Seq<char>>, body: Seq<Seq<char>>)
    requires
        forall|j: int| 0 <= j < head.len() ==> line_ok(#[trigger] head[j]),
        forall|j: int| 0 <= j < body.len() ==> line_ok(#[trigger] body[j]),
    ensures
        text_of_lines(head) + (dec_nat(body.len()) + " beginbfchar\n"@ + text_of_lines(body) + "endbfchar\n"@)
            + text_of_lines(cmap_trailer_lines()) == text_of_lines(section_cmap_lines(head, body)),
        lines_of(text_of_lines(section_cmap_lines(head, body))) == section_cmap_lines(head, body),
{
    let n = body.len();
    reveal_strlit("beginbfchar");
    reveal_strlit("endbfchar");
    reveal_strlit(" beginbfchar\n");
    reveal_strlit("endbfchar\n");
    reveal_strlit("\n");
    let kw = "beginbfchar"@;
    let open = section_open(n);
    let close = "endbfchar"@;
    let tail = cmap_trailer_lines();
    let all = section_cmap_lines(head, body);
    assert(" beginbfchar\n"@ =~= seq![' '] + kw + "\n"@);
    lemma_text_of_lines_concat(head, seq![open]);
    lemma_text_of_lines_concat(head + seq![open], body);
    lemma_text_of_lines_concat(head + seq![open] + body, seq![close]);
    lemma_text_of_lines_concat(head + seq![open] + body + seq![close], tail);
    assert(seq![open].drop_last() =~= Seq::<Seq<char>>::empty());
    assert(seq![close].drop_last() =~= Seq::<Seq<char>>::empty());
    assert(text_of_lines(Seq::<Seq<char>>::empty()) =~= Seq::<char>::empty());
    assert(text_of_lines(seq![open]) == text_of_lines(Seq::<Seq<char>>::empty()) + open + "\n"@);
    assert(text_of_lines(seq![close]) == text_of_lines(Seq::<Seq<char>>::empty()) + close + "\n"@);
    assert(text_of_lines(seq![open]) =~= dec_nat(n) + " beginbfchar\n"@);
    assert(text_of_lines(seq![close]) =~= "endbfchar\n"@);
    lemma_cmap_frame();
    lemma_dec_plain(n);
    let d = dec_nat(n);
    assert forall|i: int| 0 <= i < open.len() implies #[trigger] open[i] != '\n' by {
        if i < d.len() {
            assert(open[i] == d[i]);
            assert(is_decimal_digit(d[i]));
        } else if i == d.len() {
            assert(open[i] == ' ');
        } else {
            assert(open[i] == kw[i - d.len() - 1]);
        }
    }
    assert(open.last() == 'r');
    assert(line_ok(open));
    assert(line_ok(close));
    assert forall|j: int| 0 <= j < all.len() implies line_ok(#[trigger] all[j]) by {
        let k1 = head.len() as int;
        let k2 = k1 + 1 + body.len();
        if j < k1 {
            assert(all[j] == head[j]);
        } else if j == k1 {
            assert(all[j] == open);
        } else if j < k2 {
            assert(all[j] == body[j - k1 - 1]);
        } else if j == k2 {
            assert(all[j] == close);
        } else {
            assert(all[j] == tail[j - k2 - 1]);
        }
    }
    lemma_text_of_lines(all);
}

/// Reading the lines of such a CMap, with inert opening lines and a section that takes the
/// reader from an empty map to `result`, ends with `result`, outside any section.
proof fn lemma_section_read(head: Seq<Seq<char>>, body: Seq<Seq<char>>, result: Map<u32, char>)
    requires
        forall|j: int| 0 <= j < head.len() ==> inert_line(#[trigger] head[j]),
        cmap_run(CmapState { in_bf_char: true, in_bf_range: false, map: Map::empty() }, body)
            == (CmapState { in_bf_char: true, in_bf_range: false, map: result }),
    ensures
        cmap_run(initial_cmap_state(), section_cmap_lines(head, body))
            == (CmapState { in_bf_char: false, in_bf_range: false, map: result }),
{
    let n = body.len();
    reveal_strlit("beginbfchar");
    reveal_strlit("endbfchar");
    reveal_strlit("beginbfrange");
    reveal_strlit("endbfrange");
    let kw = "beginbfchar"@;
    let open = section_open(n);
    let close = "endbfchar"@;
    let tail = cmap_trailer_lines();
    lemma_cmap_frame();
    lemma_dec_plain(n);
    let d = dec_nat(n);
    let s0 = initial_cmap_state();
    lemma_cmap_run_concat(s0, head + seq![open] + body + seq![close], tail);
    lemma_cmap_run_concat(s0, head + seq![open] + body, seq![close]);
    lemma_cmap_run_concat(s0, head + seq![open], body);
    lemma_cmap_run_concat(s0, head, seq![open]);
    lemma_run_inert(s0, head);
    assert(is_decimal_digit(d[0]));
    assert(open[0] == d[0]);
    assert(open.last() == 'r');
    lemma_trim_plain(open);
    assert(ends_with(open, kw)) by {
        assert(open.subrange(open.len() - 11, open.len() as int) =~= kw);
    }
    let s1 = CmapState { in_bf_char: true, in_bf_range: false, ..s0 };
    assert(seq![open].drop_last() =~= Seq::<Seq<char>>::empty());
    assert(cmap_run(s0, seq![open]) == cmap_step(cmap_run(s0, Seq::<Seq<char>>::empty()), open));
    assert(cmap_run(s0, seq![open]) == s1);
    let s2 = CmapState { map: result, ..s1 };
    lemma_trim_plain(close);
    assert(!ends_with(close, kw));
    let s3 = CmapState { in_bf_char: false, ..s2 };
    assert(seq![close].drop_last() =~= Seq::<Seq<char>>::empty());
    assert(cmap_run(s2, seq![close]) == cmap_step(cmap_run(s2, Seq::<Seq<char>>::empty()), close));
    assert(cmap_run(s2, seq![close]) == s3);
    lemma_run_inert(s3, tail);
}

/// A CMap made of inert opening lines, one `bfchar` section whose lines take a reader from
/// an empty map to `result`, and the usual closing lines reads back as `result`.
proof fn lemma_section_cmap(head: Seq<Seq<char>>, body: Seq<Seq<char>>, result: Map<u32, char>)
    requires
        forall|j: int| 0 <= j < head.len() ==> inert_line(#[trigger] head[j]),
        forall|j: int| 0 <= j < head.len() ==> line_ok(#[trigger] head[j]),
        forall|j: int| 0 <= j < body.len() ==> line_ok(#[trigger] body[j]),
        cmap_run(CmapState { in_bf_char: true, in_bf_range: false, map: Map::empty() }, body)
            == (CmapState { in_bf_char: true, in_bf_range: false, map: result }),
    ensures
        cmap_of_text(text_of_lines(head) + (dec_nat(body.len()) + " beginbfchar\n"@ + text_of_lines(body)
            + "endbfchar\n"@) + text_of_lines(cmap_trailer_lines()))
            == (CmapState { in_bf_char: false, in_bf_range: false, map: result }),
{
    let all = section_cmap_lines(head, body);
    lemma_section_text(head, body);
    lemma_section_read(head, body, result);
    lemma_cmap_read_run(all, all.len() as int);
    assert(all.take(all.len() as int) =~= all);
}

/// The ToUnicode CMap written for an embedded font reads back as the identity on the font's
/// mapped characters: the reader maps the code of each character to that character, ends
/// outside any section, and finds every range in bounds.
pub proof fn law_to_unicode_cmap_reads_back(font: PdfFont)
    requires
        font.char_to_glyph.entries().len() > 0,
    ensures
        cmap_of_text(to_unicode_text(font)) == (CmapState {
            in_bf_char: false,
            in_bf_range: false,
            map: identity_cmap(font.char_to_glyph.entries()),
        }),
        valid_utf8(encode_utf8(to_unicode_text(font))),
        decode_utf8(encode_utf8(to_unicode_text(font))) == to_unicode_text(font),
{
    vstd::utf8::encode_utf8_valid_utf8(to_unicode_text(font));
    vstd::utf8::encode_utf8_decode_utf8(to_unicode_text(font));
    let e = font.char_to_glyph.entries();
    let body = bfchar_texts(e);
    lemma_identity_lines(e);
    lemma_cmap_frame();
    let s1 = CmapState { in_bf_char: true, in_bf_range: false, map: Map::<u32, char>::empty() };
    lemma_run_bfchar(s1, e);
    lemma_section_cmap(cmap_header_lines(), body, identity_cmap(e));
    assert(to_unicode_text(font) =~= text_of_lines(cmap_header_lines()) + (dec_nat(body.len()) + " beginbfchar\n"@
        + text_of_lines(body) + "endbfchar\n"@) + text_of_lines(cmap_trailer_lines()));
}

/// A `bfchar` line from code `a` to code `b`, read in a `bfchar` section, maps `a` to the
/// character `b` when `b` is a character's code, and is passed over otherwise.
proof fn lemma_bfchar_code_line(a: u32, b: u32, s: CmapState)
    requires
        s.in_bf_char,
    ensures
        cmap_step(s, bfchar_line(a as nat, b as nat).drop_last()) == (if is_char_code(b as int) {
            CmapState { map: s.map.insert(a, b as char), ..s }
        } else {
            s
        }),
{
    reveal_strlit("<");
    reveal_strlit("> <");
    reveal_strlit(">\n");
    lemma_hex_token(a);
    lemma_hex_token(b);
    let tok1 = seq!['<'] + hex_padded(a as nat, 4) + seq!['>'];
    let tok2 = seq!['<'] + hex_padded(b as nat, 4) + seq!['>'];
    let body = bfchar_line(a as nat, b as nat).drop_last();
    assert(body =~= tok1 + seq![' '] + tok2);
    assert(tok1[0] == '<');
    assert(tok2.last() == '>');
    lemma_trim_plain(body);
    lemma_two_words(tok1, tok2);
    reveal_strlit("beginbfchar");
    reveal_strlit("endbfchar");
    reveal_strlit("beginbfrange");
    reveal_strlit("endbfrange");
    let line = trim(body);
    assert(line.last() == '>');
    assert(!ends_with(line, "beginbfchar"@)) by {
        if ends_with(line, "beginbfchar"@) {
            assert(line.subrange(line.len() - 11, line.len() as int)[10] == line.last());
        }
    }
    assert(!ends_with(line, "beginbfrange"@)) by {
        if ends_with(line, "beginbfrange"@) {
            assert(line.subrange(line.len() - 12, line.len() as int)[11] == line.last());
        }
    }
    assert(line != "endbfchar"@) by {
        if line == "endbfchar"@ {
            assert(line[line.len() - 1] == 'r');
        }
    }
    assert(line != "endbfrange"@) by {
        if line == "endbfrange"@ {
            assert(line[line.len() - 1] == 'e');
        }
    }
}

/// The mapping that identity `bfchar` lines for the `count` codes from `first` give: each
/// code that is a character's code maps to that character; other codes map to nothing.
pub open spec fn range_identity_cmap(first: nat, count: nat) -> Map<u32, char>
    decreases count,
{
    if count == 0 {
        Map::empty()
    } else {
        let k = first + count - 1;
        if is_char_code(k) {
            range_identity_cmap(first, (count - 1) as nat).insert(k as u32, k as char)
        } else {
            range_identity_cmap(first, (count - 1) as nat)
        }
    }
}

/// The identity `bfchar` lines for the `count` codes from `first`, without line feeds.
pub open spec fn range_texts(first: nat, count: nat) -> Seq<Seq<char>> {
    Seq::new(count, |i: int| bfchar_line((first + i) as nat, (first + i) as nat).drop_last())
}

/// The identity lines for a range of codes are the text of their `bfchar` lines.
proof fn lemma_range_lines(first: nat, count: nat)
    ensures
        identity_lines_range(first, count) == text_of_lines(range_texts(first, count)),
        forall|j: int| 0 <= j < range_texts(first, count).len() ==> line_ok(#[trigger] range_texts(first, count)[j]),
    decreases count,
{
    let ts = range_texts(first, count);
    if count == 0 {
        assert(ts =~= Seq::<Seq<char>>::empty());
    } else {
        lemma_range_lines(first, (count - 1) as nat);
        assert(range_texts(first, (count - 1) as nat) =~= ts.drop_last());
        let k = (first + count - 1) as nat;
        lemma_bfchar_line_text(k, k);
        assert(identity_lines_range(first, count) =~= text_of_lines(ts));
        assert forall|j: int| 0 <= j < ts.len() implies line_ok(#[trigger] ts[j]) by {
            lemma_bfchar_line_text((first + j) as nat, (first + j) as nat);
        }
    }
}

/// In a `bfchar` section, the identity lines for a range of codes map each code of a
/// character to that character.
proof fn lemma_run_range(s: CmapState, first: nat, count: nat)
    requires
        s.in_bf_char,
        s.map == Map::<u32, char>::empty(),
        first + count <= u32::MAX + 1,
    ensures
        cmap_run(s, range_texts(first, count)) == (CmapState { map: range_identity_cmap(first, count), ..s }),
    decreases count,
{
    let ts = range_texts(first, count);
    if count == 0 {
        assert(ts =~= Seq::<Seq<char>>::empty());
        assert(range_identity_cmap(first, count) =~= Map::<u32, char>::empty());
    } else {
        lemma_run_range(s, first, (count - 1) as nat);
        assert(ts.drop_last() =~= range_texts(first, (count - 1) as nat));
        let k = (first + count - 1) as nat;
        assert(ts.last() == bfchar_line(k, k).drop_last());
        let mid = CmapState { map: range_identity_cmap(first, (count - 1) as nat), ..s };
        lemma_bfchar_code_line(k as u32, k as u32, mid);
    }
}

/// The ToUnicode CMap written for a font that maps no characters reads back, over its code
/// range of at most 256 codes, as the identity on the codes of characters (a surrogate code
/// in the range maps to nothing); the reader ends outside any section with every range in
/// bounds, and the bytes are valid UTF-8 that decode to the text.
pub proof fn law_to_unicode_range_cmap_reads_back(font: PdfFont)
    requires
        font.char_to_glyph.entries().len() == 0,
        font.first_char <= font.last_char,
        font.last_char - font.first_char + 1 <= 256,
    ensures
        cmap_of_text(to_unicode_text(font)) == (CmapState {
            in_bf_char: false,
            in_bf_range: false,
            map: range_identity_cmap(font.first_char as nat, (font.last_char - font.first_char + 1) as nat),
        }),
        valid_utf8(encode_utf8(to_unicode_text(font))),
        decode_utf8(encode_utf8(to_unicode_text(font))) == to_unicode_text(font),
{
    vstd::utf8::encode_utf8_valid_utf8(to_unicode_text(font));
    vstd::utf8::encode_utf8_decode_utf8(to_unicode_text(font));
    let first = font.first_char as nat;
    let count = (font.last_char - font.first_char + 1) as nat;
    let body = range_texts(first, count);
    lemma_range_lines(first, count);
    lemma_cmap_frame();
    let s1 = CmapState { in_bf_char: true, in_bf_range: false, map: Map::<u32, char>::empty() };
    lemma_run_range(s1, first, count);
    lemma_section_cmap(cmap_header_lines(), body, range_identity_cmap(first, count));
    assert(to_unicode_text(font) =~= text_of_lines(cmap_header_lines()) + (dec_nat(body.len()) + " beginbfchar\n"@
        + text_of_lines(body) + "endbfchar\n"@) + text_of_lines(cmap_trailer_lines()));
}

/// Decimal numerals are made of digits: no white space, no line break.
proof fn lemma_dec_plain(n: nat)
    ensures
        dec_nat(n).len() > 0,
        forall|i: int| 0 <= i < dec_nat(n).len() ==> #[trigger] is_decimal_digit(dec_nat(n)[i]),
    decreases n,
{
    if n >= 10 {
        lemma_dec_plain(n / 10);
        let d = dec_nat(n);
        assert(d == dec_nat(n / 10).push(digit_char((n % 10) as int)));
        assert forall|i: int| 0 <= i < d.len() implies #[trigger] is_decimal_digit(d[i]) by {
            if i < d.len() - 1 {
                assert(d[i] == dec_nat(n / 10)[i]);
            }
        }
    }
}

/// Whether `c` is one of the digits `0` to `9`.
pub open spec fn is_decimal_digit(c: char) -> bool {
    '0' <= c <= '9'
}

/// The `bfchar` line of a CID font's ToUnicode CMap for glyph `e.0` and character `e.1`,
/// without its line feed.
pub open spec fn glyph_text(e: (u16, char)) -> Seq<char> {
    bfchar_line(e.0 as nat, e.1 as u32 as nat).drop_last()
}

/// The `bfchar` lines for `entries`, without line feeds.
pub open spec fn glyph_texts(entries: Seq<(u16, char)>) -> Seq<Seq<char>> {
    entries.map_values(|e: (u16, char)| glyph_text(e))
}

/// The mapping from glyph ids to characters that `entries` give, later entries winning.
pub open spec fn glyph_cmap(entries: Seq<(u16, char)>) -> Map<u32, char>
    decreases entries.len(),
{
    if entries.len() == 0 {
        Map::empty()
    } else {
        glyph_cmap(entries.drop_last()).insert(entries.last().0 as u32, entries.last().1)
    }
}

/// The glyph lines for `entries` are the text of their `bfchar` lines.
proof fn lemma_glyph_lines(entries: Seq<(u16, char)>)
    ensures
        glyph_lines(entries) == text_of_lines(glyph_texts(entries)),
        forall|j: int| 0 <= j < glyph_texts(entries).len() ==> line_ok(#[trigger] glyph_texts(entries)[j]),
    decreases entries.len(),
{
    let ts = glyph_texts(entries);
    if entries.len() == 0 {
        assert(ts =~= Seq::<Seq<char>>::empty());
    } else {
        lemma_glyph_lines(entries.drop_last());
        assert(glyph_texts(entries.drop_last()) =~= ts.drop_last());
        let e = entries.last();
        lemma_bfchar_line_text(e.0 as nat, e.1 as u32 as nat);
        assert(ts.last() == glyph_text(e));
        assert(glyph_lines(entries) =~= text_of_lines(ts));
        assert forall|j: int| 0 <= j < ts.len() implies line_ok(#[trigger] ts[j]) by {
            lemma_bfchar_line_text(entries[j].0 as nat, entries[j].1 as u32 as nat);
        }
    }
}

/// In a `bfchar` section, the reader maps each glyph id of `entries` to its character.
proof fn lemma_run_glyphs(s: CmapState, entries: Seq<(u16, char)>)
    requires
        s.in_bf_char,
        s.map == Map::<u32, char>::empty(),
    ensures
        cmap_run(s, glyph_texts(entries)) == (CmapState { map: glyph_cmap(entries), ..s }),
    decreases entries.len(),
{
    if entries.len() == 0 {
        assert(glyph_texts(entries) =~= Seq::<Seq<char>>::empty());
        assert(glyph_cmap(entries) =~= Map::<u32, char>::empty());
    } else {
        lemma_run_glyphs(s, entries.drop_last());
        let ts = glyph_texts(entries);
        assert(ts.drop_last() =~= glyph_texts(entries.drop_last()));
        let e = entries.last();
        assert(ts.last() == glyph_text(e));
        let mid = CmapState { map: glyph_cmap(entries.drop_last()), ..s };
        law_bfchar_line_reads_back(e.0 as u32, e.1, mid);
    }
}

/// The opening lines of a CID font's ToUnicode CMap are inert lines and possible lines.
proof fn lemma_ucs_frame()
    ensures
        forall|j: int| 0 <= j < ucs_cmap_header_lines().len() ==> inert_line(#[trigger] ucs_cmap_header_lines()[j]),
        forall|j: int| 0 <= j < ucs_cmap_header_lines().len() ==> line_ok(#[trigger] ucs_cmap_header_lines()[j]),
{
    lemma_cmap_frame();
    reveal_strlit("/Ordering (UCS)");
    let u = ucs_cmap_header_lines();
    let h = cmap_header_lines();
    lemma_inert_by_last(u[5]);
    assert forall|j: int| 0 <= j < u.len() implies inert_line(#[trigger] u[j]) && line_ok(u[j]) by {
        if j != 5 {
            assert(u[j] == h[j]);
        }
    }
}

/// The ToUnicode CMap written for a CID-keyed font reads back as the mapping from each
/// glyph id of its entries to the entry's character, ending outside any section with every
/// range in bounds; its bytes are valid UTF-8 that decode to it.
pub proof fn law_cid_to_unicode_cmap_reads_back(entries: Seq<(u16, char)>)
    requires
        entries.len() > 0,
    ensures
        cmap_of_text(cid_cmap_text(entries)) == (CmapState {
            in_bf_char: false,
            in_bf_range: false,
            map: glyph_cmap(entries),
        }),
        valid_utf8(encode_utf8(cid_cmap_text(entries))),
        decode_utf8(encode_utf8(cid_cmap_text(entries))) == cid_cmap_text(entries),
{
    vstd::utf8::encode_utf8_valid_utf8(cid_cmap_text(entries));
    vstd::utf8::encode_utf8_decode_utf8(cid_cmap_text(entries));
    let body = glyph_texts(entries);
    lemma_glyph_lines(entries);
    lemma_ucs_frame();
    let s1 = CmapState { in_bf_char: true, in_bf_range: false, map: Map::<u32, char>::empty() };
    lemma_run_glyphs(s1, entries);
    lemma_section_cmap(ucs_cmap_header_lines(), body, glyph_cmap(entries));
    assert(cid_cmap_text(entries) =~= text_of_lines(ucs_cmap_header_lines()) + (dec_nat(body.len())
        + " beginbfchar\n"@ + text_of_lines(body) + "endbfchar\n"@) + text_of_lines(cmap_trailer_lines()));
}

/// A CMap made only of inert lines reads back as the empty mapping.
proof fn lemma_inert_cmap(ls: Seq<Seq<char>>)
    requires
        forall|j: int| 0 <= j < ls.len() ==> inert_line(#[trigger] ls[j]),
        forall|j: int| 0 <= j < ls.len() ==> line_ok(#[trigger] ls[j]),
    ensures
        cmap_of_text(text_of_lines(ls)) == initial_cmap_state(),
{
    lemma_text_of_lines(ls);
    lemma_cmap_read_run(ls, ls.len() as int);
    assert(ls.take(ls.len() as int) =~= ls);
    lemma_run_inert(initial_cmap_state(), ls);
}

/// The ToUnicode CMap written for a CID-keyed font with no glyph reads back as the empty
/// mapping: it has no `bfchar` section; its bytes are valid UTF-8 that decode to it.
pub proof fn law_empty_cid_to_unicode_cmap_reads_back()
    ensures
        cmap_of_text(cid_cmap_text(Seq::empty())) == initial_cmap_state(),
        initial_cmap_state().map == Map::<u32, char>::empty(),
        valid_utf8(encode_utf8(cid_cmap_text(Seq::empty()))),
        decode_utf8(encode_utf8(cid_cmap_text(Seq::empty()))) == cid_cmap_text(Seq::empty()),
{
    let t = cid_cmap_text(Seq::empty());
    vstd::utf8::encode_utf8_valid_utf8(t);
    vstd::utf8::encode_utf8_decode_utf8(t);
    lemma_ucs_frame();
    lemma_cmap_frame();
    let ls = ucs_cmap_header_lines() + cmap_trailer_lines();
    lemma_text_of_lines_concat(ucs_cmap_header_lines(), cmap_trailer_lines());
    assert forall|j: int| 0 <= j < ls.len() implies inert_line(#[trigger] ls[j]) && line_ok(ls[j]) by {
        if j < ucs_cmap_header_lines().len() {
            assert(ls[j] == ucs_cmap_header_lines()[j]);
        } else {
            assert(ls[j] == cmap_trailer_lines()[j - ucs_cmap_header_lines().len()]);
        }
    }
    lemma_inert_cmap(ls);
    assert(t =~= text_of_lines(ls));
}

/// Entries that are pairs of a map give back that map, whatever their order.
proof fn lemma_glyph_cmap_of_pairs(entries: Seq<(u16, char)>, m: Map<u16, char>)
    requires
        forall|j: int| 0 <= j < entries.len() ==> m.contains_key(#[trigger] entries[j].0) && m[entries[j].0] == entries[j].1,
    ensures
        glyph_cmap(entries) == Map::new(
            |k: u32| exists|j: int| 0 <= j < entries.len() && #[trigger] entries[j].0 as u32 == k,
            |k: u32| m[k as u16],
        ),
    decreases entries.len(),
{
    let target = Map::new(
        |k: u32| exists|j: int| 0 <= j < entries.len() && #[trigger] entries[j].0 as u32 == k,
        |k: u32| m[k as u16],
    );
    if entries.len() == 0 {
        assert(glyph_cmap(entries) =~= target);
    } else {
        let init = entries.drop_last();
        assert forall|j: int| 0 <= j < init.len() implies m.contains_key(#[trigger] init[j].0) && m[init[j].0] == init[j].1 by {
            assert(init[j] == entries[j]);
        }
        lemma_glyph_cmap_of_pairs(init, m);
        let e = entries.last();
        assert(m[e.0] == e.1) by {
            assert(entries[entries.len() - 1] == e);
        }
        assert forall|k: u32| #[trigger] glyph_cmap(entries).dom().contains(k) <==> target.dom().contains(k) by {
            if target.dom().contains(k) {
                let j = choose|j: int| 0 <= j < entries.len() && #[trigger] entries[j].0 as u32 == k;
                if j < init.len() {
                    assert(init[j] == entries[j]);
                }
            }
            if glyph_cmap(init).dom().contains(k) {
                let j = choose|j: int| 0 <= j < init.len() && #[trigger] init[j].0 as u32 == k;
                assert(entries[j] == init[j]);
            }
            if k == e.0 as u32 {
                assert(entries[entries.len() - 1].0 as u32 == k);
            }
        }
        assert forall|k: u32| glyph_cmap(entries).dom().contains(k) implies #[trigger] glyph_cmap(entries)[k] == target[k] by {
            if k == e.0 as u32 {
                assert((k as u16) == e.0);
            }
        }
        assert(glyph_cmap(entries) =~= target);
    }
}

/// The entries that [`crate::cidfont::generate_cidfont_tounicode_cmap`] writes for a map,
/// in whatever order the map is walked, read back as that map: each glyph id to its
/// character.
pub proof fn law_cid_cmap_is_the_glyph_map(entries: Seq<(u16, char)>, m: Map<u16, char>)
    requires
        entries.to_set() == m.kv_pairs(),
    ensures
        glyph_cmap(entries) == Map::new(|k: u32| k <= 0xFFFF && m.dom().contains(k as u16), |k: u32| m[k as u16]),
{
    assert forall|j: int| 0 <= j < entries.len() implies m.contains_key(#[trigger] entries[j].0) && m[entries[j].0] == entries[j].1 by {
        assert(entries.to_set().contains(entries[j]));
        assert(m.kv_pairs().contains(entries[j]));
    }
    lemma_glyph_cmap_of_pairs(entries, m);
    let target = Map::new(|k: u32| k <= 0xFFFF && m.dom().contains(k as u16), |k: u32| m[k as u16]);
    assert forall|k: u32| #[trigger] glyph_cmap(entries).dom().contains(k) <==> target.dom().contains(k) by {
        if target.dom().contains(k) {
            let g = k as u16;
            assert(m.kv_pairs().contains((g, m[g])));
            assert(entries.to_set().contains((g, m[g])));
            let j = choose|j: int| 0 <= j < entries.len() && entries[j] == (g, m[g]);
            assert(entries[j].0 as u32 == k);
        }
    }
    assert(glyph_cmap(entries) =~= target);
}

/// The ToUnicode CMap that [`crate::cidfont::generate_cidfont_tounicode_cmap`] writes for a
/// glyph map `m` (`text`, whose `entries` are the pairs of `m` in some order), read back by
/// [`crate::to_unicode::parse_to_unicode`] from its UTF-8 bytes (`parsed`, as that
/// function's contract gives it), is `m`: each glyph id maps to its character.
pub proof fn law_cid_cmap_parses_back(m: Map<u16, char>, entries: Seq<(u16, char)>, text: Seq<char>, parsed: Map<u32, char>)
    requires
        cid_cmap_text(entries) == text,
        entries.to_set() == m.kv_pairs(),
        valid_utf8(encode_utf8(text)) ==> parsed == cmap_of_text(decode_utf8(encode_utf8(text))).map,
    ensures
        parsed == Map::new(|k: u32| k <= 0xFFFF && m.dom().contains(k as u16), |k: u32| m[k as u16]),
{
    vstd::utf8::encode_utf8_valid_utf8(text);
    vstd::utf8::encode_utf8_decode_utf8(text);
    if entries.len() > 0 {
        law_cid_to_unicode_cmap_reads_back(entries);
    } else {
        law_empty_cid_to_unicode_cmap_reads_back();
        assert(entries =~= Seq::<(u16, char)>::empty());
        assert(glyph_cmap(entries) =~= Map::<u32, char>::empty());
    }
    law_cid_cmap_is_the_glyph_map(entries, m);
}

} // verus!
