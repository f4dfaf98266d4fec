//! CID-keyed (Type 0) fonts for Unicode text: font dictionaries, the ToUnicode CMap,
//! UTF-16BE text encoding and the CIDToGIDMap stream.

use vstd::prelude::*;
use std::collections::HashMap;
use vstd::std_specs::iter::IteratorSpec;
use crate::pdf_font::{bfchar_line, cmap_trailer_lines, code_of, push_lines, spaced_numbers, text_of_lines, GlyphMap};
use crate::textfmt::{chars_of, dec_nat, hex_padded, push_dec, push_hex};

verus! {

/// The Type 0 font dictionary for `base_font_name` with Identity-H encoding.
pub open spec fn cid_type0_text(base_font_name: Seq<char>, cid_font_obj_id: int, to_unicode_obj_id: int) -> Seq<char> {
    "<<\n/Type /Font\n/Subtype /Type0\n/BaseFont /"@ + base_font_name + "-Identity-H\n/Encoding /Identity-H\n/DescendantFonts ["@
        + dec_nat(cid_font_obj_id as nat) + " 0 R]\n/ToUnicode "@ + dec_nat(to_unicode_obj_id as nat) + " 0 R\n>>"@
}

/// The CIDFontType2 dictionary for `base_font_name` with the widths of CIDs from 0.
pub open spec fn cid_font_text(base_font_name: Seq<char>, descriptor_obj_id: int, widths: Seq<u16>, default_width: int) -> Seq<char> {
    "<<\n/Type /Font\n/Subtype /CIDFontType2\n/BaseFont /"@ + base_font_name
        + "\n/CIDSystemInfo <<\n/Registry (Adobe)\n/Ordering (Identity)\n/Supplement 0\n>>\n/FontDescriptor "@
        + dec_nat(descriptor_obj_id as nat) + " 0 R\n/DW "@ + dec_nat(default_width as nat) + "\n/W [0 ["@
        + spaced_numbers(widths) + " ]]\n>>"@
}

/// The start of the ToUnicode CMap of a CID-keyed font.
pub open spec fn ucs_cmap_header() -> Seq<char> {
    text_of_lines(ucs_cmap_header_lines())
}

/// The lines that open the ToUnicode CMap of a CID-keyed font.
pub open spec fn ucs_cmap_header_lines() -> Seq<Seq<char>> {
    seq![
        "/CIDInit /ProcSet findresource begin"@,
        "12 dict begin"@,
        "begincmap"@,
        "/CIDSystemInfo <<"@,
        "/Registry (Adobe)"@,
        "/Ordering (UCS)"@,
        "/Supplement 0"@,
        ">> def"@,
        "/CMapName /Adobe-Identity-UCS def"@,
        "/CMapType 2 def"@,
        "1 begincodespacerange"@,
        "<0000> <FFFF>"@,
        "endcodespacerange"@,
    ]
}

/// The end of a ToUnicode CMap.
pub open spec fn ucs_cmap_trailer() -> Seq<char> {
    text_of_lines(cmap_trailer_lines())
}

/// `bfchar` lines mapping each glyph id of `entries` to its character, in order.
pub open spec fn glyph_lines(entries: Seq<(u16, char)>) -> Seq<char>
    decreases entries.len(),
{
    if entries.len() == 0 {
        Seq::empty()
    } else {
        glyph_lines(entries.drop_last()) + bfchar_line(entries.last().0 as nat, entries.last().1 as u32 as nat)
    }
}

/// The ToUnicode CMap mapping the glyph ids of `entries` to their characters.
pub open spec fn cid_cmap_text(entries: Seq<(u16, char)>) -> Seq<char> {
    ucs_cmap_header() + (if entries.len() > 0 {
        dec_nat(entries.len()) + " beginbfchar\n"@ + glyph_lines(entries) + "endbfchar\n"@
    } else {
        Seq::empty()
    }) + ucs_cmap_trailer()
}

/// UTF-16BE code units of `cs`, each as four hexadecimal digits.
pub open spec fn utf16_hex(cs: Seq<char>) -> Seq<char>
    decreases cs.len(),
{
    if cs.len() == 0 {
        Seq::empty()
    } else {
        let code = cs.last() as u32 as int;
        utf16_hex(cs.drop_last()) + if code <= 0xFFFF {
            hex_padded(code as nat, 4)
        } else {
            let c = code - 0x10000;
            hex_padded((0xD800 + c / 1024) as nat, 4) + hex_padded((0xDC00 + c % 1024) as nat, 4)
        }
    }
}

/// The Type 0 font dictionary of a CID-keyed font named `base_font_name`.
pub fn generate_type0_font_dict(base_font_name: &str, cid_font_obj_id: usize, to_unicode_obj_id: usize) -> (r: String)
    ensures
        r@ == cid_type0_text(base_font_name@, cid_font_obj_id as int, to_unicode_obj_id as int),
{
    let mut s = "<<\n/Type /Font\n/Subtype /Type0\n/BaseFont /".to_owned();
    s.append(base_font_name);
    s.append("-Identity-H\n/Encoding /Identity-H\n/DescendantFonts [");
    push_dec(&mut s, cid_font_obj_id as u64);
    s.append(" 0 R]\n/ToUnicode ");
    push_dec(&mut s, to_unicode_obj_id as u64);
    s.append(" 0 R\n>>");
    proof { assert(s@ =~= cid_type0_text(base_font_name@, cid_font_obj_id as int, to_unicode_obj_id as int)); }
    s
}

/// The CIDFontType2 dictionary of a CID-keyed font: default width and the widths from CID 0.
pub fn generate_cidfont_dict(base_font_name: &str, descriptor_obj_id: usize, widths: &[u16], default_width: u16) -> (r: String)
    ensures
        r@ == cid_font_text(base_font_name@, descriptor_obj_id as int, widths@, default_width as int),
{
    let mut s = "<<\n/Type /Font\n/Subtype /CIDFontType2\n/BaseFont /".to_owned();
    s.append(base_font_name);
    s.append("\n/CIDSystemInfo <<\n/Registry (Adobe)\n/Ordering (Identity)\n/Supplement 0\n>>\n/FontDescriptor ");
    push_dec(&mut s, descriptor_obj_id as u64);
    s.append(" 0 R\n/DW ");
    push_dec(&mut s, default_width as u64);
    s.append("\n/W [0 [");
    let ghost start = s@;
    let n = widths.len();
    let mut k: usize = 0;
    proof { assert(widths@.take(0) =~= Seq::<u16>::empty()); }
    while k < n
        invariant
            n == widths@.len(),
            k <= n,
            s@ == start + spaced_numbers(widths@.take(k as int)),
        decreases n - k,
    {
        if k > 0 {
            s.append(" ");
        }
        push_dec(&mut s, widths[k] as u64);
        k = k + 1;
        proof {
            let t = widths@.take(k as int);
            assert(t.drop_last() =~= widths@.take(k - 1));
            if k == 1 {
                assert(t =~= seq![widths@[0]]);
            }
            assert(s@ =~= start + spaced_numbers(t));
        }
    }
    proof { assert(widths@.take(n as int) =~= widths@); }
    s.append(" ]]\n>>");
    proof { assert(s@ =~= cid_font_text(base_font_name@, descriptor_obj_id as int, widths@, default_width as int)); }
    s
}

/// The ToUnicode CMap of a CID-keyed font, mapping each glyph id of `char_map` to its
/// character; the lines come in the order in which the map is walked.
pub fn generate_cidfont_tounicode_cmap(char_map: &HashMap<u16, char>) -> (r: String)
    ensures
        exists|entries: Seq<(u16, char)>| {
            &&& #[trigger] cid_cmap_text(entries) == r@
            &&& entries.no_duplicates()
            &&& entries.to_set() == char_map@.kv_pairs()
            &&& entries.len() == char_map@.len()
        },
{
    broadcast use vstd::std_specs::hash::group_hash_axioms;
    let mut s = String::new();
    let header = [
        "/CIDInit /ProcSet findresource begin",
        "12 dict begin",
        "begincmap",
        "/CIDSystemInfo <<",
        "/Registry (Adobe)",
        "/Ordering (UCS)",
        "/Supplement 0",
        ">> def",
        "/CMapName /Adobe-Identity-UCS def",
        "/CMapType 2 def",
        "1 begincodespacerange",
        "<0000> <FFFF>",
        "endcodespacerange",
    ];
    push_lines(&mut s, &header);
    proof {
        assert(header@.map_values(|l: &str| l@) =~= ucs_cmap_header_lines());
        assert(s@ =~= ucs_cmap_header());
    }
    let mut walked: Vec<(u16, char)> = Vec::new();
    for pair in it: char_map.iter()
        invariant
            walked@ == it.seq().take(it.index() as int).map_values(|p: (&u16, &char)| (*p.0, *p.1)),
            it.seq().len() == char_map@.len(),
            it.seq().no_duplicates(),
            forall|i: int| 0 <= i < it.seq().len() ==> #[trigger] char_map@.contains_key(*it.seq()[i].0)
                && char_map@[*it.seq()[i].0] == *it.seq()[i].1,
            forall|key: u16| #[trigger] char_map@.contains_key(key) ==>
                exists|i: int| 0 <= i < it.seq().len() && *it.seq()[i].0 == key,
            it.index() == walked@.len(),
            forall|i: int| 0 <= i < walked@.len() ==> #[trigger] char_map@.contains_key(walked@[i].0)
                && char_map@[walked@[i].0] == walked@[i].1,
            forall|i: int, j: int| 0 <= i < walked@.len() && 0 <= j < walked@.len() && i != j ==>
                #[trigger] walked@[i].0 != #[trigger] walked@[j].0,
            it.index() == it.seq().len() ==> forall|key: u16| #[trigger] char_map@.contains_key(key) ==>
                exists|i: int| 0 <= i < walked@.len() && walked@[i].0 == key,
    {
        let (g, c) = pair;
        let ghost w0 = walked@;
        proof {
            let idx = it.index() as int;
            assert(*it.seq()[idx].0 == *g && *it.seq()[idx].1 == *c);
            assert forall|i: int| 0 <= i < w0.len() implies w0[i].0 != *g by {
                if w0[i].0 == *g {
                    assert(w0[i] == (*it.seq()[i].0, *it.seq()[i].1));
                    assert(char_map@.contains_key(*it.seq()[i].0));
                    assert(char_map@.contains_key(*it.seq()[idx].0));
                    assert(it.seq()[i] == it.seq()[idx]);
                }
            }
        }
        walked.push((*g, *c));
        proof {
            let w = it.seq().take(it.index() as int + 1).map_values(|p: (&u16, &char)| (*p.0, *p.1));
            assert(walked@ =~= w);
            assert forall|key: u16| #[trigger] char_map@.contains_key(key) && it.index() + 1 == it.seq().len() implies
                exists|i: int| 0 <= i < walked@.len() && walked@[i].0 == key by {
                let i0 = choose|i: int| 0 <= i < it.seq().len() && *it.seq()[i].0 == key;
                assert(walked@[i0].0 == key);
            }
        }
    }
    let ghost entries = walked@;
    proof {
        assert(entries.len() == char_map@.len());
        assert forall|a: int, b: int| 0 <= a < b < entries.len() implies entries[a] != entries[b] by {
            assert(entries[a].0 != entries[b].0);
        }
        assert(entries.to_set() =~= char_map@.kv_pairs()) by {
            assert forall|p: (u16, char)| entries.to_set().contains(p) implies char_map@.kv_pairs().contains(p) by {
                let i = choose|i: int| 0 <= i < entries.len() && entries[i] == p;
                assert(char_map@.contains_key(entries[i].0));
            }
            assert forall|p: (u16, char)| char_map@.kv_pairs().contains(p) implies entries.to_set().contains(p) by {
                assert(char_map@.contains_key(p.0));
                let i = choose|i: int| 0 <= i < entries.len() && entries[i].0 == p.0;
                assert(entries[i] == p);
            }
        }
    }
    let count = walked.len();
    if count > 0 {
        push_dec(&mut s, count as u64);
        s.append(" beginbfchar\n");
        let ghost start = s@;
        let mut k: usize = 0;
        while k < count
            invariant
                count == walked@.len(),
                k <= count,
                s@ == start + glyph_lines(walked@.take(k as int)),
            decreases count - k,
        {
            let (g, c) = walked[k];
            s.append("<");
            push_hex(&mut s, g as u64, 4);
            s.append("> <");
            push_hex(&mut s, code_of(c) as u64, 4);
            s.append(">\n");
            k = k + 1;
            proof {
                assert(walked@.take(k as int).drop_last() =~= walked@.take(k - 1));
                assert(s@ =~= start + glyph_lines(walked@.take(k as int)));
            }
        }
        proof { assert(walked@.take(count as int) =~= walked@); }
        s.append("endbfchar\n");
    }
    let trailer = ["endcmap", "CMapName currentdict /CMap defineresource pop", "end", "end"];
    push_lines(&mut s, &trailer);
    proof {
        assert(trailer@.map_values(|l: &str| l@) =~= cmap_trailer_lines());
        assert(s@ =~= cid_cmap_text(entries));
    }
    s
}

/// Appends the UTF-16BE code units of `text` to `s` as upper-case hexadecimal, four digits
/// each.
fn push_utf16_hex(s: &mut String, text: &str)
    ensures
        final(s)@ == old(s)@ + utf16_hex(text@),
{
    let ghost start = s@;
    let cs = chars_of(text);
    let n = cs.len();
    let mut k: usize = 0;
    proof { assert(cs@.take(0) =~= Seq::<char>::empty()); }
    while k < n
        invariant
            n == cs@.len(),
            cs@ == text@,
            k <= n,
            s@ == start + utf16_hex(cs@.take(k as int)),
        decreases n - k,
    {
        let code = code_of(cs[k]);
        proof { vstd::utf8::char_is_scalar(cs@[k as int]); }
        if code <= 0xFFFF {
            push_hex(s, code as u64, 4);
        } else {
            let c = code - 0x10000;
            let high = 0xD800 + c / 1024;
            let low = 0xDC00 + c % 1024;
            push_hex(s, high as u64, 4);
            push_hex(s, low as u64, 4);
        }
        k = k + 1;
        proof {
            assert(cs@.take(k as int).drop_last() =~= cs@.take(k - 1));
            assert(s@ =~= start + utf16_hex(cs@.take(k as int)));
        }
    }
    proof { assert(cs@.take(n as int) =~= cs@); }
}

/// `text` in UTF-16BE as a PDF hexadecimal string with a byte order mark: `<FEFF...>`.
pub fn encode_text_utf16be(text: &str) -> (r: String)
    ensures
        r@ == "<FEFF"@ + utf16_hex(text@) + ">"@,
{
    let mut s = "<FEFF".to_owned();
    push_utf16_hex(&mut s, text);
    s.append(">");
    s
}

/// Text for a content stream set in a CID font: its UTF-16BE code units as a hexadecimal
/// string, without byte order mark.
pub fn encode_pdf_text(text: &str) -> (r: String)
    ensures
        r@ == "<"@ + utf16_hex(text@) + ">"@,
{
    let mut s = "<".to_owned();
    push_utf16_hex(&mut s, text);
    s.append(">");
    s
}


/// The largest code point among `cs`, 0 when there is none.
pub open spec fn max_code(cs: Seq<char>) -> int
    decreases cs.len(),
{
    if cs.len() == 0 {
        0
    } else {
        let m = max_code(cs.drop_last());
        let c = cs.last() as u32 as int;
        if c > m { c } else { m }
    }
}

/// The glyph mapped to `c` in `entries`, if any.
pub open spec fn glyph_of(entries: Seq<(char, u16)>, c: char) -> Option<u16> {
    if exists|k: int| 0 <= k < entries.len() && entries[k].0 == c {
        Some(entries[choose|k: int| 0 <= k < entries.len() && entries[k].0 == c].1)
    } else {
        None
    }
}

/// Whether some character of `used` has code point `cid`.
pub open spec fn is_used_cid(used: Seq<char>, cid: int) -> bool {
    exists|k: int| 0 <= k < used.len() && used[k] as u32 == cid
}

/// The glyph of CID `cid`: that of the used character with code point `cid`, if any.
pub open spec fn cid_glyph(entries: Seq<(char, u16)>, used: Seq<char>, cid: int) -> Option<u16> {
    if is_used_cid(used, cid) { glyph_of(entries, (cid as u32) as char) } else { None }
}

/// The two bytes of CID `cid` in a CIDToGIDMap stream.
pub open spec fn cid_entry(map: Seq<u8>, cid: int) -> (u8, u8) {
    (map[2 * cid], map[2 * cid + 1])
}

/// A glyph id in big-endian bytes, zero for none.
pub open spec fn glyph_bytes(g: Option<u16>) -> (u8, u8) {
    match g {
        Some(g) => ((g / 256) as u8, (g % 256) as u8),
        None => (0, 0),
    }
}

/// The CIDToGIDMap stream: two bytes per CID from 0 to the largest used code point, the
/// big-endian glyph id of the used character with that code point when it has one, zero
/// elsewhere.
pub fn generate_cidtogidmap_stream(char_to_glyph: &GlyphMap, used_chars: &Vec<char>) -> (r: Vec<u8>)
    ensures
        r@.len() == 2 * (max_code(used_chars@) + 1),
        forall|cid: int| 0 <= cid <= max_code(used_chars@) ==>
            #[trigger] cid_entry(r@, cid) == glyph_bytes(cid_glyph(char_to_glyph.entries(), used_chars@, cid)),
{
    let n = used_chars.len();
    let mut max_cid: u32 = 0;
    let mut k: usize = 0;
    proof { assert(used_chars@.take(0) =~= Seq::<char>::empty()); }
    while k < n
        invariant
            n == used_chars@.len(),
            k <= n,
            max_cid == max_code(used_chars@.take(k as int)),
            max_cid <= 0x10FFFF,
        decreases n - k,
    {
        let c = code_of(used_chars[k]);
        proof {
            vstd::utf8::char_is_scalar(used_chars@[k as int]);
            assert(used_chars@.take(k as int + 1).drop_last() =~= used_chars@.take(k as int));
        }
        if c > max_cid {
            max_cid = c;
        }
        k = k + 1;
    }
    proof { assert(used_chars@.take(n as int) =~= used_chars@); }
    let size = ((max_cid as usize) + 1) * 2;
    let mut map: Vec<u8> = vec![0u8; size];
    let ghost entries = char_to_glyph.entries();
    let mut j: usize = 0;
    while j < n
        invariant
            n == used_chars@.len(),
            j <= n,
            entries == char_to_glyph.entries(),
            max_cid == max_code(used_chars@),
            map@.len() == size,
            size == 2 * (max_cid + 1),
            forall|cid: int| 0 <= cid <= max_cid ==>
                #[trigger] cid_entry(map@, cid) == glyph_bytes(cid_glyph(entries, used_chars@.take(j as int), cid)),
        decreases n - j,
    {
        let ch = used_chars[j];
        let cid = code_of(ch);
        proof { lemma_max_code(used_chars@, j as int); }
        let ghost before = map@;
        let ghost u0 = used_chars@.take(j as int);
        let ghost u1 = used_chars@.take(j as int + 1);
        let found = char_to_glyph.get(ch);
        match found {
            Some(gid) => {
                let offset = (cid as usize) * 2;
                map.set(offset, (gid / 256) as u8);
                map.set(offset + 1, (gid % 256) as u8);
            },
            None => {},
        }
        proof {
            vstd::utf8::char_u32_cast(ch, cid);
            assert(u1 =~= u0.push(ch));
            assert(u1[j as int] as u32 == cid);
            assert(is_used_cid(u1, cid as int));
            assert(glyph_of(entries, ch) == found) by {
                if found is Some {
                    let k0 = choose|k: int| 0 <= k < entries.len() && entries[k].0 == ch;
                }
            }
            assert forall|c2: int| 0 <= c2 <= max_cid implies
                #[trigger] cid_entry(map@, c2) == glyph_bytes(cid_glyph(entries, u1, c2)) by {
                if c2 == cid {
                    if is_used_cid(u0, c2) {
                        let k = choose|k: int| 0 <= k < u0.len() && u0[k] as u32 == c2;
                        vstd::utf8::char_u32_cast(u0[k], cid);
                    }
                } else {
                    assert(cid_entry(map@, c2) == cid_entry(before, c2));
                    assert(is_used_cid(u1, c2) == is_used_cid(u0, c2)) by {
                        if is_used_cid(u1, c2) {
                            let k = choose|k: int| 0 <= k < u1.len() && u1[k] as u32 == c2;
                            assert(k < u0.len());
                            assert(u0[k] == u1[k]);
                        }
                        if is_used_cid(u0, c2) {
                            let k = choose|k: int| 0 <= k < u0.len() && u0[k] as u32 == c2;
                            assert(u1[k] == u0[k]);
                        }
                    }
                }
            }
        }
        j = j + 1;
    }
    proof { assert(used_chars@.take(n as int) =~= used_chars@); }
    map
}

/// Every code point of `cs` is at most [`max_code`]`(cs)`.
proof fn lemma_max_code(cs: Seq<char>, k: int)
    requires
        0 <= k < cs.len(),
    ensures
        cs[k] as u32 as int <= max_code(cs),
    decreases cs.len(),
{
    if k < cs.len() - 1 {
        lemma_max_code(cs.drop_last(), k);
    }
}

} // verus!
