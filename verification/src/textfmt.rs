//! Building text: characters of strings, decimal and hexadecimal numerals.

use vstd::prelude::*;

verus! {

/// The decimal digit character for `d` (0 to 9).
pub open spec fn digit_char(d: int) -> char {
    if d == 0 { '0' } else if d == 1 { '1' } else if d == 2 { '2' } else if d == 3 { '3' }
    else if d == 4 { '4' } else if d == 5 { '5' } else if d == 6 { '6' } else if d == 7 { '7' }
    else if d == 8 { '8' } else { '9' }
}

/// The upper-case hexadecimal digit character for `d` (0 to 15).
pub open spec fn hex_char(d: int) -> char {
    if d < 10 { digit_char(d) } else if d == 10 { 'A' } else if d == 11 { 'B' } else if d == 12 { 'C' }
    else if d == 13 { 'D' } else if d == 14 { 'E' } else { 'F' }
}

/// Decimal numeral of `n`, without leading zeros.
pub open spec fn dec_nat(n: nat) -> Seq<char>
    decreases n,
{
    if n < 10 {
        seq![digit_char(n as int)]
    } else {
        dec_nat(n / 10).push(digit_char((n % 10) as int))
    }
}

/// Decimal numeral of `v`, with a leading `-` when negative.
pub open spec fn dec_int(v: int) -> Seq<char> {
    if v < 0 { seq!['-'] + dec_nat((-v) as nat) } else { dec_nat(v as nat) }
}

/// Upper-case hexadecimal numeral of `n`, left-padded with zeros to at least `w` digits.
pub open spec fn hex_padded(n: nat, w: nat) -> Seq<char>
    decreases n + w,
{
    if n < 16 && w <= 1 {
        seq![hex_char(n as int)]
    } else {
        hex_padded(n / 16, if w > 0 { (w - 1) as nat } else { 0 }).push(hex_char((n % 16) as int))
    }
}

/// The character for decimal digit `d`.
pub fn digit(d: u64) -> (c: char)
    requires
        d < 10,
    ensures
        c == digit_char(d as int),
{
    match d {
        0 => '0',
        1 => '1',
        2 => '2',
        3 => '3',
        4 => '4',
        5 => '5',
        6 => '6',
        7 => '7',
        8 => '8',
        _ => '9',
    }
}

/// The upper-case character for hexadecimal digit `d`.
pub fn hex_digit(d: u64) -> (c: char)
    requires
        d < 16,
    ensures
        c == hex_char(d as int),
{
    if d < 10 {
        digit(d)
    } else {
        match d {
            10 => 'A',
            11 => 'B',
            12 => 'C',
            13 => 'D',
            14 => 'E',
            _ => 'F',
        }
    }
}

/// Appends the character `c` to `s` (`String::push`).
#[verifier::external_body]
pub(crate) fn push_char(s: &mut String, c: char)
    ensures
        final(s)@ == old(s)@.push(c),
{
    s.push(c);
}

/// Appends the decimal numeral of `v` to `s`.
pub fn push_dec(s: &mut String, v: u64)
    ensures
        final(s)@ == old(s)@ + dec_nat(v as nat),
    decreases v,
{
    if v >= 10 {
        push_dec(s, v / 10);
    }
    let c = digit(v % 10);
    push_char(s, c);
    proof {
        if v >= 10 {
            assert(dec_nat(v as nat) == dec_nat((v / 10) as nat).push(digit_char((v % 10) as int)));
        } else {
            assert(dec_nat(v as nat) == seq![digit_char(v as int)]);
        }
        assert(final(s)@ =~= old(s)@ + dec_nat(v as nat));
    }
}

/// Appends the decimal numeral of the signed `v` to `s`.
pub fn push_dec_signed(s: &mut String, v: i64)
    ensures
        final(s)@ == old(s)@ + dec_int(v as int),
{
    if v < 0 {
        push_char(s, '-');
        let m: u64 = if v == i64::MIN { 9223372036854775808u64 } else { (-v) as u64 };
        push_dec(s, m);
        proof {
            assert(final(s)@ =~= old(s)@ + dec_int(v as int));
        }
    } else {
        push_dec(s, v as u64);
    }
}

/// Appends the upper-case hexadecimal numeral of `v`, zero-padded to at least `w` digits.
pub fn push_hex(s: &mut String, v: u64, w: u64)
    ensures
        final(s)@ == old(s)@ + hex_padded(v as nat, w as nat),
    decreases v + w,
{
    if !(v < 16 && w <= 1) {
        let w2: u64 = if w > 0 { w - 1 } else { 0 };
        push_hex(s, v / 16, w2);
    }
    let c = hex_digit(v % 16);
    push_char(s, c);
    proof {
        assert(final(s)@ =~= old(s)@ + hex_padded(v as nat, w as nat));
    }
}

/// The characters of `s`, in order.
pub fn chars_of(s: &str) -> (r: Vec<char>)
    ensures
        r@ == s@,
{
    broadcast use vstd::string::group_string_axioms;
    let mut out: Vec<char> = Vec::new();
    for c in it: s.chars()
        invariant
            out@ == it.seq().take(it.index() as int),
            it.seq() == s@,
    {
        out.push(c);
        proof {
            assert(out@ =~= it.seq().take(it.index() as int + 1));
        }
    }
    out
}

/// Appends a sequence of characters to `s`.
pub fn push_chars(s: &mut String, cs: &Vec<char>)
    ensures
        final(s)@ == old(s)@ + cs@,
{
    let n = cs.len();
    let mut k: usize = 0;
    while k < n
        invariant
            n == cs@.len(),
            k <= n,
            s@ == old(s)@ + cs@.take(k as int),
        decreases n - k,
    {
        push_char(s, cs[k]);
        k = k + 1;
        proof { assert(s@ =~= old(s)@ + cs@.take(k as int)); }
    }
    proof { assert(cs@.take(n as int) =~= cs@); }
}

/// Whether two strings have the same characters.
pub fn same_text(a: &str, b: &str) -> (r: bool)
    ensures
        r == (a@ == b@),
{
    let x = chars_of(a);
    let y = chars_of(b);
    if x.len() != y.len() {
        return false;
    }
    let n = x.len();
    let mut k: usize = 0;
    while k < n
        invariant
            n == x@.len(),
            n == y@.len(),
            x@ == a@,
            y@ == b@,
            k <= n,
            forall|j: int| 0 <= j < k ==> x@[j] == y@[j],
        decreases n - k,
    {
        if x[k] != y[k] {
            proof {
                assert(x@[k as int] != y@[k as int]);
                assert(x@ != y@);
            }
            return false;
        }
        k = k + 1;
    }
    proof { assert(x@ =~= y@); }
    true
}

/// `char::from_u32`: the character with code point `code`, `None` for a surrogate or a
/// value above `0x10FFFF`.
#[verifier::external_body]
pub(crate) fn char_from_code(code: u32) -> (r: Option<char>)
    ensures
        r is Some <==> (code <= 0xD7FF || (0xE000 <= code <= 0x10FFFF)),
        r is Some ==> r->0 as u32 == code,
{
    char::from_u32(code)
}

/// What `str::to_lowercase` returns for `s`: its full Unicode lower-case mapping.
pub uninterp spec fn lowercase_of(s: Seq<char>) -> Seq<char>;

/// `str::to_lowercase`: the lower-case form of `s`, named [`lowercase_of`].
#[verifier::external_body]
pub(crate) fn to_lowercase(s: &str) -> (r: String)
    ensures
        r@ == lowercase_of(s@),
{
    s.to_lowercase()
}

} // verus!
