//! Reading ToUnicode CMaps: the `bfchar` and `bfrange` sections that map character ids
//! (CIDs) of a PDF font to Unicode characters.

use vstd::prelude::*;
use vstd::utf8::{decode_utf8, valid_utf8};
use std::collections::HashMap;
use crate::knuth_plass::{is_white_space, split_words, white_space, words_of};
use crate::textfmt::{char_from_code, chars_of};

verus! {

/// The characters of `s` without its leading and trailing white space.
pub open spec fn trim(s: Seq<char>) -> Seq<char> {
    trim_end(trim_start(s))
}

/// `s` without its leading white space.
pub open spec fn trim_start(s: Seq<char>) -> Seq<char>
    decreases s.len(),
{
    if s.len() > 0 && is_white_space(s[0]) { trim_start(s.drop_first()) } else { s }
}

/// `s` without its trailing white space.
pub open spec fn trim_end(s: Seq<char>) -> Seq<char>
    decreases s.len(),
{
    if s.len() > 0 && is_white_space(s.last()) { trim_end(s.drop_last()) } else { s }
}

/// `s` without the copies of `c` at its start and at its end.
pub open spec fn trim_char(s: Seq<char>, c: char) -> Seq<char> {
    trim_char_end(trim_char_start(s, c), c)
}

/// `s` without the copies of `c` at its start.
pub open spec fn trim_char_start(s: Seq<char>, c: char) -> Seq<char>
    decreases s.len(),
{
    if s.len() > 0 && s[0] == c { trim_char_start(s.drop_first(), c) } else { s }
}

/// `s` without the copies of `c` at its end.
pub open spec fn trim_char_end(s: Seq<char>, c: char) -> Seq<char>
    decreases s.len(),
{
    if s.len() > 0 && s.last() == c { trim_char_end(s.drop_last(), c) } else { s }
}

/// Whether `s` ends with `suffix`.
pub open spec fn ends_with(s: Seq<char>, suffix: Seq<char>) -> bool {
    suffix.len() <= s.len() && s.subrange(s.len() - suffix.len(), s.len() as int) == suffix
}

/// The value of hexadecimal digit `c`, if it is one.
pub open spec fn hex_digit_value(c: char) -> Option<int> {
    let u = c as u32 as int;
    if 0x30 <= u <= 0x39 {
        Some(u - 0x30)
    } else if 0x41 <= u <= 0x46 {
        Some(u - 0x41 + 10)
    } else if 0x61 <= u <= 0x66 {
        Some(u - 0x61 + 10)
    } else {
        None
    }
}

/// Whether every character of `s` is a hexadecimal digit.
pub open spec fn all_hex(s: Seq<char>) -> bool {
    forall|i: int| 0 <= i < s.len() ==> #[trigger] hex_digit_value(s[i]) is Some
}

/// The number written in hexadecimal by the digits of `s`.
pub open spec fn hex_number(s: Seq<char>) -> int
    decreases s.len(),
{
    if s.len() == 0 { 0 } else { hex_number(s.drop_last()) * 16 + hex_digit_value(s.last())->0 }
}

/// What `u32::from_str_radix(s, 16)` accepts: an optional `+` and at least one hexadecimal
/// digit, with a value that fits in `u32`.
pub open spec fn parse_radix16(s: Seq<char>) -> Option<u32> {
    let d = if s.len() > 0 && s[0] == '+' { s.drop_first() } else { s };
    if d.len() > 0 && all_hex(d) && hex_number(d) <= u32::MAX { Some(hex_number(d) as u32) } else { None }
}

/// A token with its angle brackets removed: trimmed, then stripped of `<` and of `>`.
pub open spec fn unbracket(s: Seq<char>) -> Seq<char> {
    trim_char(trim_char(trim(s), '<'), '>')
}

/// The value of a hexadecimal token such as `<0041>`.
pub open spec fn hex_token(s: Seq<char>) -> Option<u32> {
    parse_radix16(trim(unbracket(s)))
}

/// Whether `v` is the code point of a character (not a surrogate, at most `0x10FFFF`).
pub open spec fn is_char_code(v: int) -> bool {
    (0 <= v <= 0xD7FF) || (0xE000 <= v <= 0x10FFFF)
}

/// The mapping of a `bfchar` line `<cid> <unicode>`, if it is well formed.
pub open spec fn bf_char(line: Seq<char>) -> Option<(u32, char)> {
    let parts = words_of(line);
    if parts.len() < 2 {
        None
    } else {
        match (hex_token(parts[0]), parse_radix16(unbracket(parts[1]))) {
            (Some(cid), Some(cp)) => if is_char_code(cp as int) { Some((cid, cp as char)) } else { None },
            _ => None,
        }
    }
}

/// The values `(start, end, unicode start)` of a `bfrange` line, if it is well formed.
pub open spec fn bf_range(line: Seq<char>) -> Option<(u32, u32, u32)> {
    let parts = words_of(line);
    if parts.len() < 3 {
        None
    } else {
        match (hex_token(parts[0]), hex_token(parts[1]), parse_radix16(unbracket(parts[2]))) {
            (Some(s), Some(e), Some(u)) => Some((s, e, u)),
            _ => None,
        }
    }
}

/// `m` with the first `n` codes of the range starting at `start` mapped to the characters
/// from `unicode_start` (codes that are not characters are skipped).
pub open spec fn fill_range(m: Map<u32, char>, start: int, unicode_start: int, n: nat) -> Map<u32, char>
    decreases n,
{
    if n == 0 {
        m
    } else {
        let prev = fill_range(m, start, unicode_start, (n - 1) as nat);
        let off = n - 1;
        if is_char_code(unicode_start + off) {
            prev.insert((start + off) as u32, (unicode_start + off) as u32 as char)
        } else {
            prev
        }
    }
}

/// Where a CMap reader is: inside a `bfchar` section, inside a `bfrange` section, and the
/// mapping read so far.
pub struct CmapState {
    pub in_bf_char: bool,
    pub in_bf_range: bool,
    pub map: Map<u32, char>,
}

/// The reader's state after one more line.
pub open spec fn cmap_step(s: CmapState, raw: Seq<char>) -> CmapState {
    let line = trim(raw);
    if ends_with(line, "beginbfchar"@) {
        CmapState { in_bf_char: true, in_bf_range: false, ..s }
    } else if line == "endbfchar"@ {
        CmapState { in_bf_char: false, ..s }
    } else if ends_with(line, "beginbfrange"@) {
        CmapState { in_bf_char: false, in_bf_range: true, ..s }
    } else if line == "endbfrange"@ {
        CmapState { in_bf_range: false, ..s }
    } else if s.in_bf_char {
        match bf_char(line) {
            Some((cid, ch)) => CmapState { map: s.map.insert(cid, ch), ..s },
            None => s,
        }
    } else if s.in_bf_range {
        match bf_range(line) {
            Some((start, end, u)) => if start <= end && u + (end - start) <= u32::MAX {
                CmapState { map: fill_range(s.map, start as int, u as int, (end - start + 1) as nat), ..s }
            } else {
                s
            },
            None => s,
        }
    } else {
        s
    }
}

/// The reader's state after the first `k` lines.
pub open spec fn cmap_read(lines: Seq<Seq<char>>, k: int) -> CmapState
    decreases k,
{
    if k <= 0 {
        CmapState { in_bf_char: false, in_bf_range: false, map: Map::empty() }
    } else {
        cmap_step(cmap_read(lines, k - 1), lines[k - 1])
    }
}

/// Splitting the first `k` characters of `cs` into lines: the lines completed so far and
/// the line being read.
pub open spec fn line_state(cs: Seq<char>, k: int) -> (Seq<Seq<char>>, Seq<char>)
    decreases k,
{
    if k <= 0 {
        (Seq::empty(), Seq::empty())
    } else {
        let (ls, cur) = line_state(cs, k - 1);
        if cs[k - 1] == '\n' {
            let line = if cur.len() > 0 && cur.last() == '\r' { cur.drop_last() } else { cur };
            (ls.push(line), Seq::empty())
        } else {
            (ls, cur.push(cs[k - 1]))
        }
    }
}

/// The lines of `cs` as `str::lines` gives them: split at `\n`, a `\r` before it dropped,
/// no empty line after a final `\n`.
pub open spec fn lines_of(cs: Seq<char>) -> Seq<Seq<char>> {
    let (ls, cur) = line_state(cs, cs.len() as int);
    if cur.len() > 0 { ls.push(cur) } else { ls }
}

/// The mapping a CMap text gives.
pub open spec fn cmap_of_text(text: Seq<char>) -> CmapState {
    cmap_read(lines_of(text), lines_of(text).len() as int)
}

/// What `String::from_utf8_lossy` decodes from `bytes`: the UTF-8 text, with each invalid
/// sequence replaced by U+FFFD.
pub uninterp spec fn utf8_lossy(bytes: Seq<u8>) -> Seq<char>;

/// `String::from_utf8_lossy`: `bytes` decoded as UTF-8, named [`utf8_lossy`]; bytes that
/// are valid UTF-8 come back as the text they encode, as std documents.
#[verifier::external_body]
fn decode_utf8_lossy(bytes: &[u8]) -> (r: String)
    ensures
        r@ == utf8_lossy(bytes@),
        valid_utf8(bytes@) ==> r@ == decode_utf8(bytes@),
{
    String::from_utf8_lossy(bytes).into_owned()
}

/// `s` trimmed of white space at both ends.
fn trim_exec(s: &Vec<char>) -> (r: Vec<char>)
    ensures
        r@ == trim(s@),
{
    let n = s.len();
    let mut a: usize = 0;
    proof { assert(s@.subrange(0, n as int) =~= s@); }
    while a < n && white_space(s[a])
        invariant
            n == s@.len(),
            a <= n,
            trim_start(s@) == trim_start(s@.subrange(a as int, n as int)),
        decreases n - a,
    {
        proof {
            assert(s@.subrange(a as int, n as int).drop_first() =~= s@.subrange(a + 1, n as int));
        }
        a = a + 1;
    }
    let mut b: usize = n;
    proof {
        assert(trim_start(s@.subrange(a as int, n as int)) == s@.subrange(a as int, n as int));
    }
    while b > a && white_space(s[b - 1])
        invariant
            n == s@.len(),
            a <= b <= n,
            trim(s@) == trim_end(s@.subrange(a as int, b as int)),
        decreases b - a,
    {
        proof {
            assert(s@.subrange(a as int, b as int).drop_last() =~= s@.subrange(a as int, b - 1));
        }
        b = b - 1;
    }
    proof {
        assert(trim_end(s@.subrange(a as int, b as int)) == s@.subrange(a as int, b as int));
    }
    slice_chars(s, a, b)
}

/// `s` stripped of the copies of `c` at both ends.
fn trim_char_exec(s: &Vec<char>, c: char) -> (r: Vec<char>)
    ensures
        r@ == trim_char(s@, c),
{
    let n = s.len();
    let mut a: usize = 0;
    proof { assert(s@.subrange(0, n as int) =~= s@); }
    while a < n && s[a] == c
        invariant
            n == s@.len(),
            a <= n,
            trim_char_start(s@, c) == trim_char_start(s@.subrange(a as int, n as int), c),
        decreases n - a,
    {
        proof {
            assert(s@.subrange(a as int, n as int).drop_first() =~= s@.subrange(a + 1, n as int));
        }
        a = a + 1;
    }
    let mut b: usize = n;
    proof {
        assert(trim_char_start(s@.subrange(a as int, n as int), c) == s@.subrange(a as int, n as int));
    }
    while b > a && s[b - 1] == c
        invariant
            n == s@.len(),
            a <= b <= n,
            trim_char(s@, c) == trim_char_end(s@.subrange(a as int, b as int), c),
        decreases b - a,
    {
        proof {
            assert(s@.subrange(a as int, b as int).drop_last() =~= s@.subrange(a as int, b - 1));
        }
        b = b - 1;
    }
    proof {
        assert(trim_char_end(s@.subrange(a as int, b as int), c) == s@.subrange(a as int, b as int));
    }
    slice_chars(s, a, b)
}

/// The characters `s[a..b]`.
fn slice_chars(s: &Vec<char>, a: usize, b: usize) -> (r: Vec<char>)
    requires
        a <= b <= s@.len(),
    ensures
        r@ == s@.subrange(a as int, b as int),
{
    let mut out: Vec<char> = Vec::new();
    let mut k: usize = a;
    while k < b
        invariant
            a <= k <= b <= s@.len(),
            out@ == s@.subrange(a as int, k as int),
        decreases b - k,
    {
        out.push(s[k]);
        k = k + 1;
        proof { assert(out@ =~= s@.subrange(a as int, k as int)); }
    }
    out
}

/// The value of hexadecimal digit `c`, if it is one.
fn hex_value(c: char) -> (r: Option<u32>)
    ensures
        r is Some <==> hex_digit_value(c) is Some,
        r is Some ==> r->0 == hex_digit_value(c)->0,
{
    let u = c as u32;
    if 0x30 <= u && u <= 0x39 {
        Some(u - 0x30)
    } else if 0x41 <= u && u <= 0x46 {
        Some(u - 0x41 + 10)
    } else if 0x61 <= u && u <= 0x66 {
        Some(u - 0x61 + 10)
    } else {
        None
    }
}

/// `u32::from_str_radix(s, 16)` as an option.
fn radix16(s: &Vec<char>) -> (r: Option<u32>)
    ensures
        r == parse_radix16(s@),
{
    let n = s.len();
    let start: usize = if n > 0 && s[0] == '+' { 1 } else { 0 };
    let ghost d = if s@.len() > 0 && s@[0] == '+' { s@.drop_first() } else { s@ };
    proof { assert(d =~= s@.subrange(start as int, n as int)); }
    if start == n {
        return None;
    }
    let mut value: u64 = 0;
    let mut fits = true;
    let mut k: usize = start;
    while k < n
        invariant
            n == s@.len(),
            start <= k <= n,
            d == s@.subrange(start as int, n as int),
            d == (if s@.len() > 0 && s@[0] == '+' { s@.drop_first() } else { s@ }),
            all_hex(s@.subrange(start as int, k as int)),
            fits ==> value == hex_number(s@.subrange(start as int, k as int)) && value <= u32::MAX,
            !fits ==> hex_number(s@.subrange(start as int, k as int)) > u32::MAX,
        decreases n - k,
    {
        let ghost pre = s@.subrange(start as int, k as int);
        let ghost nxt = s@.subrange(start as int, k + 1);
        proof {
            assert(nxt.drop_last() =~= pre);
            assert(nxt.last() == s@[k as int]);
        }
        match hex_value(s[k]) {
            None => {
                proof {
                    assert(d[k - start] == s@[k as int]);
                    assert(!all_hex(d));
                }
                return None;
            },
            Some(v) => {
                proof {
                    lemma_hex_number_nonneg(pre);
                    assert forall|i: int| 0 <= i < nxt.len() implies #[trigger] hex_digit_value(nxt[i]) is Some by {
                        if i < pre.len() {
                            assert(nxt[i] == pre[i]);
                        }
                    }
                }
                if fits {
                    let next = value * 16 + v as u64;
                    if next <= 0xFFFF_FFFF {
                        value = next;
                    } else {
                        fits = false;
                    }
                }
            },
        }
        k = k + 1;
    }
    proof { assert(s@.subrange(start as int, n as int) == d); }
    if fits {
        Some(value as u32)
    } else {
        None
    }
}

/// Hexadecimal numbers are never negative.
proof fn lemma_hex_number_nonneg(s: Seq<char>)
    requires
        all_hex(s),
    ensures
        hex_number(s) >= 0,
    decreases s.len(),
{
    if s.len() > 0 {
        assert(all_hex(s.drop_last())) by {
            assert forall|i: int| 0 <= i < s.drop_last().len() implies #[trigger] hex_digit_value(s.drop_last()[i]) is Some by {
                assert(s.drop_last()[i] == s[i]);
            }
        }
        lemma_hex_number_nonneg(s.drop_last());
        assert(hex_digit_value(s[s.len() - 1]) is Some);
    }
}

/// The brackets of a token removed.
fn unbracket_exec(s: &Vec<char>) -> (r: Vec<char>)
    ensures
        r@ == unbracket(s@),
{
    let t = trim_exec(s);
    let t = trim_char_exec(&t, '<');
    trim_char_exec(&t, '>')
}

/// The value of a hexadecimal token such as `<0041>`: trimmed, stripped of `<` and `>`,
/// trimmed again, and read as a hexadecimal `u32`.
pub fn parse_hex_u32(s: &str) -> (r: Option<u32>)
    ensures
        r == hex_token(s@),
{
    let cs = chars_of(s);
    let u = unbracket_exec(&cs);
    let t = trim_exec(&u);
    radix16(&t)
}

/// The mapping of a `bfchar` line `<cid> <unicode>`: `None` with fewer than two tokens, a
/// token that is not hexadecimal, or a code that is not a character.
pub fn parse_bf_char_line(line: &str) -> (r: Option<(u32, char)>)
    ensures
        r == bf_char(line@),
{
    let parts = split_words(line);
    if parts.len() < 2 {
        return None;
    }
    proof {
        assert(parts@[0]@ == words_of(line@)[0]);
        assert(parts@[1]@ == words_of(line@)[1]);
    }
    let cid = match parse_hex_u32(parts[0].as_str()) {
        Some(v) => v,
        None => return None,
    };
    let cs = chars_of(parts[1].as_str());
    let u = unbracket_exec(&cs);
    let code_point = match radix16(&u) {
        Some(v) => v,
        None => return None,
    };
    match char_from_code(code_point) {
        Some(ch) => {
            proof { vstd::utf8::char_u32_cast(ch, code_point); }
            Some((cid, ch))
        },
        None => None,
    }
}

/// The values `(start, end, unicode start)` of a `bfrange` line.
fn parse_bf_range_values(line: &str) -> (r: Option<(u32, u32, u32)>)
    ensures
        r == bf_range(line@),
{
    let parts = split_words(line);
    if parts.len() < 3 {
        return None;
    }
    proof {
        assert(parts@[0]@ == words_of(line@)[0]);
        assert(parts@[1]@ == words_of(line@)[1]);
        assert(parts@[2]@ == words_of(line@)[2]);
    }
    let start = match parse_hex_u32(parts[0].as_str()) {
        Some(v) => v,
        None => return None,
    };
    let end = match parse_hex_u32(parts[1].as_str()) {
        Some(v) => v,
        None => return None,
    };
    let cs = chars_of(parts[2].as_str());
    let u = unbracket_exec(&cs);
    match radix16(&u) {
        Some(v) => Some((start, end, v)),
        None => None,
    }
}

/// Adds the mappings of a `bfrange` line `<start> <end> <unicode start>` to `map`: CID
/// `start + i` to the character `unicode start + i`, for each `i` up to `end - start`
/// whose code is a character. A malformed line adds nothing, and so does a range that ends
/// before it starts or whose characters would run past `u32`.
pub fn parse_bf_range_line(line: &str, map: &mut HashMap<u32, char>)
    ensures
        final(map)@ == match bf_range(line@) {
            Some((s, e, u)) => if s <= e && u + (e - s) <= u32::MAX {
                fill_range(old(map)@, s as int, u as int, (e - s + 1) as nat)
            } else {
                old(map)@
            },
            None => old(map)@,
        },
{
    broadcast use vstd::std_specs::hash::group_hash_axioms;
    let (start, end, unicode_start) = match parse_bf_range_values(line) {
        Some(v) => v,
        None => return,
    };
    if !(start <= end && (unicode_start as u64) + ((end - start) as u64) <= 0xFFFF_FFFF) {
        return;
    }
    let count = end - start;
    let mut offset: u32 = 0;
    let ghost m0 = map@;
    loop
        invariant_except_break
            map@ == fill_range(m0, start as int, unicode_start as int, offset as nat),
        invariant
            start <= end,
            count == end - start,
            unicode_start + count <= u32::MAX,
            offset <= count,
        ensures
            map@ == fill_range(m0, start as int, unicode_start as int, (count + 1) as nat),
        decreases count - offset,
    {
        let cid = start + offset;
        let code_point = unicode_start + offset;
        match char_from_code(code_point) {
            Some(ch) => {
                proof { vstd::utf8::char_u32_cast(ch, code_point); }
                map.insert(cid, ch);
            },
            None => {},
        }
        if offset == count {
            break;
        }
        offset = offset + 1;
    }
}

/// Whether a trimmed line ends with `suffix`.
fn ends_with_exec(s: &Vec<char>, suffix: &str) -> (r: bool)
    ensures
        r == ends_with(s@, suffix@),
{
    let suf = chars_of(suffix);
    let n = s.len();
    let m = suf.len();
    if m > n {
        return false;
    }
    let mut k: usize = 0;
    while k < m
        invariant
            n == s@.len(),
            m == suf@.len(),
            suf@ == suffix@,
            m <= n,
            k <= m,
            forall|j: int| 0 <= j < k ==> s@[n - m + j] == suf@[j],
        decreases m - k,
    {
        if s[n - m + k] != suf[k] {
            proof {
                assert(s@.subrange(n - m, n as int)[k as int] != suffix@[k as int]);
            }
            return false;
        }
        k = k + 1;
    }
    proof { assert(s@.subrange(n - m, n as int) =~= suffix@); }
    true
}

/// Whether a trimmed line equals `word`.
fn equals_exec(s: &Vec<char>, word: &str) -> (r: bool)
    ensures
        r == (s@ == word@),
{
    let w = chars_of(word);
    if w.len() != s.len() {
        return false;
    }
    let n = s.len();
    let mut k: usize = 0;
    while k < n
        invariant
            n == s@.len(),
            n == w@.len(),
            w@ == word@,
            k <= n,
            forall|j: int| 0 <= j < k ==> s@[j] == w@[j],
        decreases n - k,
    {
        if s[k] != w[k] {
            proof { assert(s@[k as int] != word@[k as int]); }
            return false;
        }
        k = k + 1;
    }
    proof { assert(s@ =~= word@); }
    true
}

/// The lines of `text`, as `str::lines` splits them.
fn split_lines(text: &Vec<char>) -> (r: Vec<Vec<char>>)
    ensures
        r@.map_values(|l: Vec<char>| l@) == lines_of(text@),
{
    let n = text.len();
    let mut lines: Vec<Vec<char>> = Vec::new();
    let mut cur: Vec<char> = Vec::new();
    let mut k: usize = 0;
    while k < n
        invariant
            n == text@.len(),
            k <= n,
            (lines@.map_values(|l: Vec<char>| l@), cur@) == line_state(text@, k as int),
        decreases n - k,
    {
        let c = text[k];
        let ghost before = lines@.map_values(|l: Vec<char>| l@);
        if c == '\n' {
            let len = cur.len();
            let line = if len > 0 && cur[len - 1] == '\r' { slice_chars(&cur, 0, len - 1) } else { slice_chars(&cur, 0, len) };
            proof {
                assert(cur@.subrange(0, len as int) =~= cur@);
                if len > 0 {
                    assert(cur@.subrange(0, len - 1) =~= cur@.drop_last());
                }
            }
            lines.push(line);
            cur = Vec::new();
            proof {
                assert(lines@.map_values(|l: Vec<char>| l@) =~= line_state(text@, k + 1).0);
            }
        } else {
            cur.push(c);
            proof {
                assert(lines@.map_values(|l: Vec<char>| l@) =~= before);
            }
        }
        k = k + 1;
    }
    if cur.len() > 0 {
        let ghost before = lines@.map_values(|l: Vec<char>| l@);
        lines.push(cur);
        proof {
            assert(lines@.map_values(|l: Vec<char>| l@) =~= before.push(line_state(text@, n as int).1));
        }
    }
    lines
}

/// A string of the given characters.
fn string_of_chars(cs: &Vec<char>) -> (r: String)
    ensures
        r@ == cs@,
{
    let mut s = String::new();
    crate::textfmt::push_chars(&mut s, cs);
    proof { assert(s@ =~= cs@); }
    s
}

/// The CID-to-character mapping of a ToUnicode CMap: the text is read line by line, each
/// trimmed; `beginbfchar`/`endbfchar` and `beginbfrange`/`endbfrange` open and close
/// sections, and the well-formed lines of a section add their mappings (a later mapping of
/// a CID replaces an earlier one). Other lines, malformed ones among them, are ignored.
pub fn parse_to_unicode(data: &[u8]) -> (r: HashMap<u32, char>)
    ensures
        r@ == cmap_of_text(utf8_lossy(data@)).map,
        valid_utf8(data@) ==> r@ == cmap_of_text(decode_utf8(data@)).map,
{
    broadcast use vstd::std_specs::hash::group_hash_axioms;
    let text = decode_utf8_lossy(data);
    let cs = chars_of(text.as_str());
    let lines = split_lines(&cs);
    let ghost ls = lines_of(text@);
    let mut map: HashMap<u32, char> = HashMap::new();
    let mut in_bf_char = false;
    let mut in_bf_range = false;
    let n = lines.len();
    let mut k: usize = 0;
    while k < n
        invariant
            n == ls.len(),
            lines@.map_values(|l: Vec<char>| l@) == ls,
            k <= n,
            in_bf_char == cmap_read(ls, k as int).in_bf_char,
            in_bf_range == cmap_read(ls, k as int).in_bf_range,
            map@ == cmap_read(ls, k as int).map,
        decreases n - k,
    {
        proof { assert(lines@[k as int]@ == ls[k as int]); }
        let line = trim_exec(&lines[k]);
        if ends_with_exec(&line, "beginbfchar") {
            in_bf_char = true;
            in_bf_range = false;
        } else if equals_exec(&line, "endbfchar") {
            in_bf_char = false;
        } else if ends_with_exec(&line, "beginbfrange") {
            in_bf_range = true;
            in_bf_char = false;
        } else if equals_exec(&line, "endbfrange") {
            in_bf_range = false;
        } else if in_bf_char {
            let text_line = string_of_chars(&line);
            match parse_bf_char_line(text_line.as_str()) {
                Some((cid, ch)) => {
                    map.insert(cid, ch);
                },
                None => {},
            }
        } else if in_bf_range {
            let text_line = string_of_chars(&line);
            parse_bf_range_line(text_line.as_str(), &mut map);
        }
        k = k + 1;
    }
    map
}

} // verus!
