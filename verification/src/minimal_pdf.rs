//! A self-contained PDF 1.4 writer for text-only documents set in the 14 standard fonts.
//!
//! Object layout: 1 is the catalog, 2 the page tree, 3 to 16 the font dictionaries `F1`
//! to `F14`, then a page object and its content stream for each page (17 and 18 for the
//! first page), and last, when the document has a title, the document information
//! dictionary. The cross-reference table gives the byte offset of each object.

use vstd::prelude::*;
use vstd::utf8::encode_utf8;
use crate::simple::{all_builtin_fonts, base_font_name_of, escape_pdf_string, escaped, resource_name_of, BuiltinFont};
use crate::textfmt::{dec_nat, push_char, push_dec};

verus! {

/// A page to write: the width and height of its media box as PDF numbers, and its
/// content stream.
pub struct MinimalPage {
    pub width_text: String,
    pub height_text: String,
    pub content: Vec<u8>,
}

/// A page as the writer sees it: width text, height text, content bytes.
pub type PageView = (Seq<char>, Seq<char>, Seq<u8>);

/// The views of a list of pages.
pub open spec fn page_views(pages: Seq<MinimalPage>) -> Seq<PageView> {
    pages.map_values(|p: MinimalPage| (p.width_text@, p.height_text@, p.content@))
}

/// The byte strings of `parts`, one after the other.
pub open spec fn concat_all(parts: Seq<Seq<u8>>) -> Seq<u8>
    decreases parts.len(),
{
    if parts.len() == 0 {
        Seq::empty()
    } else {
        concat_all(parts.drop_last()) + parts.last()
    }
}

/// The file header: the version line and a comment of four bytes above 127, which marks
/// the file as binary.
pub open spec fn header_bytes() -> Seq<u8> {
    encode_utf8("%PDF-1.4\n"@) + seq![0x25u8, 0xE2u8, 0xE3u8, 0xCFu8, 0xD3u8, 0x0Au8]
}

/// The line that opens object `id`.
pub open spec fn obj_line(id: nat) -> Seq<char> {
    dec_nat(id) + " 0 obj\n"@
}

/// The catalog, object 1.
pub open spec fn catalog_text() -> Seq<char> {
    obj_line(1) + "<<\n/Type /Catalog\n/Pages 2 0 R\n>>\nendobj\n"@
}

/// References to the page objects of the first `n` pages.
pub open spec fn kids_text(n: nat) -> Seq<char>
    decreases n,
{
    if n == 0 {
        Seq::empty()
    } else {
        kids_text((n - 1) as nat) + dec_nat((17 + 2 * (n - 1)) as nat) + " 0 R "@
    }
}

/// The page tree, object 2, for `n` pages.
pub open spec fn pages_text(n: nat) -> Seq<char> {
    obj_line(2) + "<<\n/Type /Pages\n/Kids ["@ + kids_text(n) + "]\n/Count "@ + dec_nat(n) + "\n>>\nendobj\n"@
}

/// The font dictionary of the `i`-th standard font, object `3 + i`.
pub open spec fn font_text(i: int) -> Seq<char> {
    obj_line((3 + i) as nat) + "<<\n/Type /Font\n/Subtype /Type1\n/BaseFont /"@
        + base_font_name_of(all_builtin_fonts()[i]) + "\n>>\nendobj\n"@
}

/// The font resource entries of the first `k` standard fonts.
pub open spec fn font_entries(k: nat) -> Seq<char>
    decreases k,
{
    if k == 0 {
        Seq::empty()
    } else {
        font_entries((k - 1) as nat) + "  /"@ + resource_name_of(all_builtin_fonts()[k - 1]) + " "@
            + dec_nat((3 + k - 1) as nat) + " 0 R\n"@
    }
}

/// The font resources that every page refers to.
pub open spec fn font_resources_text() -> Seq<char> {
    "/Font <<\n"@ + font_entries(14) + ">>\n"@
}

/// The page object `id` of page `p`; its content stream is object `id + 1`.
pub open spec fn page_text(p: PageView, id: nat) -> Seq<char> {
    obj_line(id) + "<<\n/Type /Page\n/Parent 2 0 R\n/MediaBox [0 0 "@ + p.0 + " "@ + p.1 + "]\n/Resources <<\n"@
        + font_resources_text() + ">>\n/Contents "@ + dec_nat(id + 1) + " 0 R\n>>\nendobj\n"@
}

/// The content stream object `id` holding `content`.
pub open spec fn content_bytes(content: Seq<u8>, id: nat) -> Seq<u8> {
    encode_utf8(obj_line(id) + "<<\n/Length "@ + dec_nat(content.len()) + "\n>>\nstream\n"@) + content
        + encode_utf8("\nendstream\nendobj\n"@)
}

/// The document information dictionary, object `id`, holding the title.
pub open spec fn info_text(title: Seq<char>, id: nat) -> Seq<char> {
    obj_line(id) + "<<\n/Title ("@ + escaped(title) + ")\n>>\nendobj\n"@
}

/// The objects of the document in order; object `k + 1` is at index `k`.
#[verifier::opaque]
pub open spec fn pdf_objects(pages: Seq<PageView>, title: Seq<char>) -> Seq<Seq<u8>> {
    let n = pages.len();
    seq![encode_utf8(catalog_text()), encode_utf8(pages_text(n))]
        + Seq::new(14, |i: int| encode_utf8(font_text(i)))
        + Seq::new(2 * n, |j: int| if j % 2 == 0 {
            encode_utf8(page_text(pages[j / 2], (17 + j) as nat))
        } else {
            content_bytes(pages[j / 2].2, (17 + j) as nat)
        })
        + (if title.len() > 0 { seq![encode_utf8(info_text(title, (17 + 2 * n) as nat))] } else { Seq::empty() })
}

/// The file up to the cross-reference table: the header and every object.
pub open spec fn body_bytes(pages: Seq<PageView>, title: Seq<char>) -> Seq<u8> {
    header_bytes() + concat_all(pdf_objects(pages, title))
}

/// The byte offset at which the object at index `k` starts.
pub open spec fn obj_offset(pages: Seq<PageView>, title: Seq<char>, k: int) -> int {
    (header_bytes().len() + concat_all(pdf_objects(pages, title).take(k)).len()) as int
}

/// `s` padded on the left with zeros to `w` characters.
pub open spec fn zero_padded(s: Seq<char>, w: nat) -> Seq<char> {
    if s.len() >= w { s } else { Seq::new((w - s.len()) as nat, |i: int| '0') + s }
}

/// The cross-reference entries of the first `k` objects.
pub open spec fn xref_entries(pages: Seq<PageView>, title: Seq<char>, k: nat) -> Seq<char>
    decreases k,
{
    if k == 0 {
        Seq::empty()
    } else {
        xref_entries(pages, title, (k - 1) as nat) + zero_padded(dec_nat(obj_offset(pages, title, k - 1) as nat), 10)
            + " 00000 n \n"@
    }
}

/// Everything after the objects: cross-reference table, trailer and end-of-file marker.
pub open spec fn tail_text(pages: Seq<PageView>, title: Seq<char>) -> Seq<char> {
    let m = pdf_objects(pages, title).len();
    let size = dec_nat((m + 1) as nat);
    "xref\n0 "@ + size + "\n0000000000 65535 f \n"@ + xref_entries(pages, title, m) + "trailer\n<<\n/Size "@ + size
        + "\n/Root 1 0 R\n"@
        + (if title.len() > 0 { "/Info "@ + dec_nat((17 + 2 * pages.len()) as nat) + " 0 R\n"@ } else { Seq::empty() })
        + ">>\nstartxref\n"@ + dec_nat(body_bytes(pages, title).len()) + "\n%%EOF\n"@
}

/// The whole file.
pub open spec fn minimal_pdf(pages: Seq<PageView>, title: Seq<char>) -> Seq<u8> {
    body_bytes(pages, title) + encode_utf8(tail_text(pages, title))
}

/// The UTF-8 encoding of a concatenation is the concatenation of the encodings.
proof fn lemma_utf8_concat(a: Seq<char>, b: Seq<char>)
    ensures
        encode_utf8(a + b) == encode_utf8(a) + encode_utf8(b),
    decreases a.len(),
{
    if a.len() == 0 {
        assert(a + b =~= b);
        assert(encode_utf8(a) =~= Seq::<u8>::empty());
        assert(encode_utf8(a) + encode_utf8(b) =~= encode_utf8(b));
    } else {
        assert((a + b).drop_first() =~= a.drop_first() + b);
        assert((a + b)[0] == a[0]);
        lemma_utf8_concat(a.drop_first(), b);
        assert(encode_utf8(a + b) =~= encode_utf8(a) + encode_utf8(b));
    }
}

/// Appends the UTF-8 bytes of `s` to `out`.
pub(crate) fn append_text(out: &mut Vec<u8>, s: &str)
    ensures
        final(out)@ == old(out)@ + encode_utf8(s@),
{
    let b = s.as_bytes();
    let n = b.len();
    let mut k: usize = 0;
    while k < n
        invariant
            n == b@.len(),
            b@ == encode_utf8(s@),
            k <= n,
            out@ == old(out)@ + b@.take(k as int),
        decreases n - k,
    {
        out.push(b[k]);
        k = k + 1;
        proof { assert(out@ =~= old(out)@ + b@.take(k as int)); }
    }
    proof { assert(b@.take(n as int) =~= b@); }
}

/// Appends the bytes `b` to `out`.
fn append_bytes(out: &mut Vec<u8>, b: &[u8])
    ensures
        final(out)@ == old(out)@ + b@,
{
    let n = b.len();
    let mut k: usize = 0;
    while k < n
        invariant
            n == b@.len(),
            k <= n,
            out@ == old(out)@ + b@.take(k as int),
        decreases n - k,
    {
        out.push(b[k]);
        k = k + 1;
        proof { assert(out@ =~= old(out)@ + b@.take(k as int)); }
    }
    proof { assert(b@.take(n as int) =~= b@); }
}

/// Appends the decimal numeral of `v`, padded with zeros to `w` digits, to `s`.
fn push_dec_padded(s: &mut String, v: u64, w: usize)
    ensures
        final(s)@ == old(s)@ + zero_padded(dec_nat(v as nat), w as nat),
{
    let mut digits = String::new();
    push_dec(&mut digits, v);
    let len = digits.as_str().unicode_len();
    let mut k: usize = len;
    let ghost start = s@;
    while k < w
        invariant
            len == dec_nat(v as nat).len(),
            digits@ == dec_nat(v as nat),
            len <= k,
            k <= w || k == len,
            s@ == start + Seq::new((k - len) as nat, |i: int| '0'),
        decreases w - k,
    {
        push_char(s, '0');
        k = k + 1;
        proof { assert(s@ =~= start + Seq::new((k - len) as nat, |i: int| '0')); }
    }
    s.append(digits.as_str());
    proof {
        if len >= w {
            assert(s@ =~= start + dec_nat(v as nat));
        } else {
            assert(k == w);
            assert(s@ =~= start + zero_padded(dec_nat(v as nat), w as nat));
        }
    }
}

/// Writing one more object extends the written objects by it.
proof fn lemma_take_step(parts: Seq<Seq<u8>>, k: int)
    requires
        0 <= k < parts.len(),
    ensures
        concat_all(parts.take(k + 1)) == concat_all(parts.take(k)) + parts[k],
{
    assert(parts.take(k + 1).drop_last() =~= parts.take(k));
    assert(parts.take(k + 1).last() == parts[k]);
}

/// The line that opens object `id`.
fn obj_line_string(id: usize) -> (r: String)
    ensures
        r@ == obj_line(id as nat),
{
    let mut s = String::new();
    push_dec(&mut s, id as u64);
    s.append(" 0 obj\n");
    proof { assert(s@ =~= obj_line(id as nat)); }
    s
}

/// The font resources that every page refers to.
fn font_resources() -> (r: String)
    ensures
        r@ == font_resources_text(),
{
    let fonts = BuiltinFont::all();
    let mut s = String::new();
    s.append("/Font <<\n");
    let mut k: usize = 0;
    while k < 14
        invariant
            fonts@ == all_builtin_fonts(),
            k <= 14,
            s@ == "/Font <<\n"@ + font_entries(k as nat),
        decreases 14 - k,
    {
        s.append("  /");
        s.append(fonts[k].resource_name());
        s.append(" ");
        push_dec(&mut s, (3 + k) as u64);
        s.append(" 0 R\n");
        k = k + 1;
        proof {
            assert(font_entries(k as nat) == font_entries((k - 1) as nat) + "  /"@
                + resource_name_of(all_builtin_fonts()[k - 1]) + " "@ + dec_nat((3 + k - 1) as nat) + " 0 R\n"@);
            assert(s@ =~= "/Font <<\n"@ + font_entries(k as nat));
        }
    }
    s.append(">>\n");
    s
}

/// `bytes` holds the header and the first `k` of `objs`, and `offsets` the offset of
/// each of them.
pub open spec fn written(bytes: Seq<u8>, offsets: Seq<usize>, objs: Seq<Seq<u8>>, k: int) -> bool {
    &&& 0 <= k <= objs.len()
    &&& bytes == header_bytes() + concat_all(objs.take(k))
    &&& offsets.len() == k
    &&& forall|j: int| 0 <= j < k ==> offsets[j] == header_bytes().len() + concat_all(#[trigger] objs.take(j)).len()
}

/// Writing the next object keeps [`written`].
proof fn lemma_written_step(bytes: Seq<u8>, offsets: Seq<usize>, objs: Seq<Seq<u8>>, k: int)
    requires
        written(bytes, offsets, objs, k),
        k < objs.len(),
        bytes.len() <= usize::MAX,
    ensures
        written(bytes + objs[k], offsets.push(bytes.len() as usize), objs, k + 1),
{
    lemma_take_step(objs, k);
    assert(bytes + objs[k] =~= header_bytes() + concat_all(objs.take(k + 1)));
    let o2 = offsets.push(bytes.len() as usize);
    assert forall|j: int| 0 <= j < k + 1 implies o2[j] == header_bytes().len() + concat_all(#[trigger] objs.take(j)).len() by {
        if j < k {
            assert(o2[j] == offsets[j]);
        }
    }
}

/// What each object of [`pdf_objects`] is.
proof fn lemma_objects(pages: Seq<PageView>, title: Seq<char>)
    ensures
        pdf_objects(pages, title).len() == 16 + 2 * pages.len() + (if title.len() > 0 { 1int } else { 0 }),
        pdf_objects(pages, title)[0] == encode_utf8(catalog_text()),
        pdf_objects(pages, title)[1] == encode_utf8(pages_text(pages.len())),
        forall|i: int| 0 <= i < 14 ==> #[trigger] pdf_objects(pages, title)[2 + i] == encode_utf8(font_text(i)),
        forall|m: int| 0 <= m < pages.len() ==> #[trigger] pdf_objects(pages, title)[16 + 2 * m]
            == encode_utf8(page_text(pages[m], (17 + 2 * m) as nat)),
        forall|m: int| 0 <= m < pages.len() ==> #[trigger] pdf_objects(pages, title)[17 + 2 * m]
            == content_bytes(pages[m].2, (18 + 2 * m) as nat),
        title.len() > 0 ==> pdf_objects(pages, title)[16 + 2 * pages.len() as int]
            == encode_utf8(info_text(title, (17 + 2 * pages.len()) as nat)),
{
    reveal(pdf_objects);
    let n = pages.len();
    let objs = pdf_objects(pages, title);
    let fixed = seq![encode_utf8(catalog_text()), encode_utf8(pages_text(n))];
    let fonts = Seq::new(14, |i: int| encode_utf8(font_text(i)));
    let body = Seq::new(2 * n, |j: int| if j % 2 == 0 {
        encode_utf8(page_text(pages[j / 2], (17 + j) as nat))
    } else {
        content_bytes(pages[j / 2].2, (17 + j) as nat)
    });
    assert forall|i: int| 0 <= i < 14 implies #[trigger] objs[2 + i] == encode_utf8(font_text(i)) by {
        assert(objs[2 + i] == fonts[i]);
    }
    assert forall|m: int| 0 <= m < n implies #[trigger] objs[16 + 2 * m]
        == encode_utf8(page_text(pages[m], (17 + 2 * m) as nat)) by {
        assert(objs[16 + 2 * m] == body[2 * m]);
        assert((2 * m) % 2 == 0 && (2 * m) / 2 == m);
    }
    assert forall|m: int| 0 <= m < n implies #[trigger] objs[17 + 2 * m]
        == content_bytes(pages[m].2, (18 + 2 * m) as nat) by {
        assert(objs[17 + 2 * m] == body[2 * m + 1]);
        assert((2 * m + 1) % 2 == 1 && (2 * m + 1) / 2 == m);
    }
}

/// The page tree object for `n` pages.
fn pages_object(n: usize) -> (r: String)
    requires
        n <= (usize::MAX - 20) / 2,
    ensures
        r@ == pages_text(n as nat),
{
    let mut s = obj_line_string(2);
    s.append("<<\n/Type /Pages\n/Kids [");
    let mut i: usize = 0;
    while i < n
        invariant
            i <= n,
            n <= (usize::MAX - 20) / 2,
            s@ == obj_line(2) + "<<\n/Type /Pages\n/Kids ["@ + kids_text(i as nat),
        decreases n - i,
    {
        push_dec(&mut s, (17 + 2 * i) as u64);
        s.append(" 0 R ");
        i = i + 1;
        proof { assert(s@ =~= obj_line(2) + "<<\n/Type /Pages\n/Kids ["@ + kids_text(i as nat)); }
    }
    s.append("]\n/Count ");
    push_dec(&mut s, n as u64);
    s.append("\n>>\nendobj\n");
    proof { assert(s@ =~= pages_text(n as nat)); }
    s
}

/// The font dictionary of the `i`-th standard font.
fn font_object(font: BuiltinFont, i: usize) -> (r: String)
    requires
        i < 14,
        font == all_builtin_fonts()[i as int],
    ensures
        r@ == font_text(i as int),
{
    let mut s = obj_line_string(3 + i);
    s.append("<<\n/Type /Font\n/Subtype /Type1\n/BaseFont /");
    s.append(font.base_font_name());
    s.append("\n>>\nendobj\n");
    proof { assert(s@ =~= font_text(i as int)); }
    s
}

/// The page object `id` of `page`.
fn page_object(page: &MinimalPage, id: usize, resources: &String) -> (r: String)
    requires
        id < usize::MAX,
        resources@ == font_resources_text(),
    ensures
        r@ == page_text((page.width_text@, page.height_text@, page.content@), id as nat),
{
    let mut s = obj_line_string(id);
    s.append("<<\n/Type /Page\n/Parent 2 0 R\n/MediaBox [0 0 ");
    s.append(page.width_text.as_str());
    s.append(" ");
    s.append(page.height_text.as_str());
    s.append("]\n/Resources <<\n");
    s.append(resources.as_str());
    s.append(">>\n/Contents ");
    push_dec(&mut s, (id + 1) as u64);
    s.append(" 0 R\n>>\nendobj\n");
    proof { assert(s@ =~= page_text((page.width_text@, page.height_text@, page.content@), id as nat)); }
    s
}

/// Appends the content stream object `id` holding `content`.
fn append_content_object(bytes: &mut Vec<u8>, content: &Vec<u8>, id: usize)
    ensures
        final(bytes)@ == old(bytes)@ + content_bytes(content@, id as nat),
{
    let mut h = obj_line_string(id);
    h.append("<<\n/Length ");
    push_dec(&mut h, content.len() as u64);
    h.append("\n>>\nstream\n");
    proof { assert(h@ =~= obj_line(id as nat) + "<<\n/Length "@ + dec_nat(content@.len()) + "\n>>\nstream\n"@); }
    append_text(bytes, h.as_str());
    append_bytes(bytes, content.as_slice());
    append_text(bytes, "\nendstream\nendobj\n");
    proof {
        assert(final(bytes)@ =~= old(bytes)@ + content_bytes(content@, id as nat));
    }
}

/// The information dictionary `id` holding `title`.
fn info_object(title: &str, id: usize) -> (r: String)
    ensures
        r@ == info_text(title@, id as nat),
{
    let mut s = obj_line_string(id);
    s.append("<<\n/Title (");
    let esc = escape_pdf_string(title);
    s.append(esc.as_str());
    s.append(")\n>>\nendobj\n");
    proof { assert(s@ =~= info_text(title@, id as nat)); }
    s
}

/// The cross-reference table, trailer and end-of-file marker, given the object offsets.
fn tail_string(offsets: &Vec<usize>, pages_len: usize, has_title: bool, xref_offset: usize, Ghost(pv): Ghost<Seq<PageView>>,
    Ghost(title): Ghost<Seq<char>>) -> (r: String)
    requires
        offsets@.len() == pdf_objects(pv, title).len(),
        forall|j: int| 0 <= j < offsets@.len() ==> offsets@[j] == obj_offset(pv, title, j),
        pages_len == pv.len(),
        pages_len <= (usize::MAX - 20) / 2,
        has_title == (title.len() > 0),
        xref_offset == body_bytes(pv, title).len(),
        offsets@.len() < usize::MAX,
    ensures
        r@ == tail_text(pv, title),
{
    let count = offsets.len();
    let mut t = String::new();
    t.append("xref\n0 ");
    push_dec(&mut t, (count + 1) as u64);
    t.append("\n0000000000 65535 f \n");
    let ghost head = t@;
    let mut k: usize = 0;
    while k < count
        invariant
            count == offsets@.len(),
            forall|j: int| 0 <= j < offsets@.len() ==> offsets@[j] == obj_offset(pv, title, j),
            k <= count,
            t@ == head + xref_entries(pv, title, k as nat),
        decreases count - k,
    {
        push_dec_padded(&mut t, offsets[k] as u64, 10);
        t.append(" 00000 n \n");
        k = k + 1;
        proof { assert(t@ =~= head + xref_entries(pv, title, k as nat)); }
    }
    t.append("trailer\n<<\n/Size ");
    push_dec(&mut t, (count + 1) as u64);
    t.append("\n/Root 1 0 R\n");
    if has_title {
        t.append("/Info ");
        push_dec(&mut t, (17 + 2 * pages_len) as u64);
        t.append(" 0 R\n");
    }
    t.append(">>\nstartxref\n");
    push_dec(&mut t, xref_offset as u64);
    t.append("\n%%EOF\n");
    proof { assert(t@ =~= tail_text(pv, title)); }
    t
}

/// Writes a complete PDF 1.4 file with the 14 standard fonts as resources, one page
/// object and content stream per page, the title (when not empty) in the document
/// information dictionary, and the cross-reference table and trailer.
pub fn write_minimal_pdf(pages: &Vec<MinimalPage>, title: &str) -> (r: Vec<u8>)
    requires
        pages@.len() <= (usize::MAX - 20) / 2,
    ensures
        r@ == minimal_pdf(page_views(pages@), title@),
{
    let ghost pv = page_views(pages@);
    let ghost objs = pdf_objects(pv, title@);
    let n = pages.len();
    let has_title = !title.is_empty();
    proof {
        lemma_objects(pv, title@);
        assert(pv.len() == n);
    }
    let mut bytes: Vec<u8> = Vec::new();
    let mut offsets: Vec<usize> = Vec::new();
    append_text(&mut bytes, "%PDF-1.4\n");
    bytes.push(0x25);
    bytes.push(0xE2);
    bytes.push(0xE3);
    bytes.push(0xCF);
    bytes.push(0xD3);
    bytes.push(0x0A);
    proof {
        assert(objs.take(0) =~= Seq::<Seq<u8>>::empty());
        assert(bytes@ =~= header_bytes() + concat_all(objs.take(0)));
        assert(written(bytes@, offsets@, objs, 0));
    }
    let cat = obj_line_string(1).concat("<<\n/Type /Catalog\n/Pages 2 0 R\n>>\nendobj\n");
    let off = bytes.len();
    proof {
        assert(cat@ =~= catalog_text());
        lemma_written_step(bytes@, offsets@, objs, 0);
    }
    offsets.push(off);
    append_text(&mut bytes, cat.as_str());
    let tree = pages_object(n);
    let off = bytes.len();
    proof { lemma_written_step(bytes@, offsets@, objs, 1); }
    offsets.push(off);
    append_text(&mut bytes, tree.as_str());
    let fonts = BuiltinFont::all();
    let mut i: usize = 0;
    while i < 14
        invariant
            fonts@ == all_builtin_fonts(),
            objs == pdf_objects(pv, title@),
            objs.len() == 16 + 2 * n + (if has_title { 1int } else { 0 }),
            forall|i: int| 0 <= i < 14 ==> #[trigger] objs[2 + i] == encode_utf8(font_text(i)),
            i <= 14,
            written(bytes@, offsets@, objs, 2 + i),
        decreases 14 - i,
    {
        let s = font_object(fonts[i], i);
        let off = bytes.len();
        proof { lemma_written_step(bytes@, offsets@, objs, 2 + i); }
        offsets.push(off);
        append_text(&mut bytes, s.as_str());
        i = i + 1;
    }
    let resources = font_resources();
    let mut m: usize = 0;
    while m < n
        invariant
            n == pages@.len(),
            n <= (usize::MAX - 20) / 2,
            pv == page_views(pages@),
            pv.len() == n,
            resources@ == font_resources_text(),
            objs == pdf_objects(pv, title@),
            objs.len() == 16 + 2 * n + (if has_title { 1int } else { 0 }),
            forall|m: int| 0 <= m < pv.len() ==> #[trigger] objs[16 + 2 * m]
                == encode_utf8(page_text(pv[m], (17 + 2 * m) as nat)),
            forall|m: int| 0 <= m < pv.len() ==> #[trigger] objs[17 + 2 * m]
                == content_bytes(pv[m].2, (18 + 2 * m) as nat),
            m <= n,
            written(bytes@, offsets@, objs, 16 + 2 * m),
        decreases n - m,
    {
        let page = &pages[m];
        let id = 17 + 2 * m;
        proof { assert(pv[m as int] == (page.width_text@, page.height_text@, page.content@)); }
        let s = page_object(page, id, &resources);
        let off = bytes.len();
        proof { lemma_written_step(bytes@, offsets@, objs, 16 + 2 * m); }
        offsets.push(off);
        append_text(&mut bytes, s.as_str());
        let off = bytes.len();
        proof { lemma_written_step(bytes@, offsets@, objs, 17 + 2 * m); }
        offsets.push(off);
        append_content_object(&mut bytes, &page.content, id + 1);
        m = m + 1;
    }
    if has_title {
        let s = info_object(title, 17 + 2 * n);
        let off = bytes.len();
        proof { lemma_written_step(bytes@, offsets@, objs, 16 + 2 * n); }
        offsets.push(off);
        append_text(&mut bytes, s.as_str());
    }
    proof {
        assert(objs.take(objs.len() as int) =~= objs);
        assert(bytes@ == body_bytes(pv, title@));
        assert forall|j: int| 0 <= j < offsets@.len() implies offsets@[j] == obj_offset(pv, title@, j) by {
            assert(offsets@[j] == header_bytes().len() + concat_all(objs.take(j)).len());
        }
    }
    let t = tail_string(&offsets, n, has_title, bytes.len(), Ghost(pv), Ghost(title@));
    append_text(&mut bytes, t.as_str());
    bytes
}

/// Concatenating all parts splits at any index.
proof fn lemma_concat_split(parts: Seq<Seq<u8>>, j: int)
    requires
        0 <= j <= parts.len(),
    ensures
        concat_all(parts) == concat_all(parts.take(j)) + concat_all(parts.skip(j)),
    decreases parts.len(),
{
    if j == parts.len() {
        assert(parts.take(j) =~= parts);
        assert(parts.skip(j) =~= Seq::<Seq<u8>>::empty());
        assert(concat_all(parts) + concat_all(parts.skip(j)) =~= concat_all(parts));
    } else {
        let dl = parts.drop_last();
        lemma_concat_split(dl, j);
        assert(dl.take(j) =~= parts.take(j));
        assert(parts.skip(j).drop_last() =~= dl.skip(j));
        assert(parts.skip(j).last() == parts.last());
        assert(concat_all(parts) =~= concat_all(parts.take(j)) + concat_all(parts.skip(j)));
    }
}

/// A text that starts with `p` encodes to bytes that start with the encoding of `p`.
proof fn lemma_text_opens(s: Seq<char>, p: Seq<char>)
    requires
        p.len() <= s.len(),
        s.take(p.len() as int) == p,
    ensures
        encode_utf8(p).len() <= encode_utf8(s).len(),
        encode_utf8(s).take(encode_utf8(p).len() as int) == encode_utf8(p),
{
    assert(s =~= p + s.skip(p.len() as int));
    lemma_utf8_concat(p, s.skip(p.len() as int));
    assert(encode_utf8(s).take(encode_utf8(p).len() as int) =~= encode_utf8(p));
}

/// Each object of the file starts with the line that opens it: object `k + 1` at index `k`.
proof fn lemma_object_opens(pages: Seq<PageView>, title: Seq<char>, k: int)
    requires
        0 <= k < pdf_objects(pages, title).len(),
    ensures
        encode_utf8(obj_line((k + 1) as nat)).len() <= pdf_objects(pages, title)[k].len(),
        pdf_objects(pages, title)[k].take(encode_utf8(obj_line((k + 1) as nat)).len() as int)
            == encode_utf8(obj_line((k + 1) as nat)),
{
    lemma_objects(pages, title);
    let n = pages.len();
    let line = obj_line((k + 1) as nat);
    let l = line.len() as int;
    if k == 0 {
        assert(catalog_text().take(l) =~= line);
        lemma_text_opens(catalog_text(), line);
    } else if k == 1 {
        assert(pages_text(n).take(l) =~= line);
        lemma_text_opens(pages_text(n), line);
    } else if k < 16 {
        assert(pdf_objects(pages, title)[2 + (k - 2)] == encode_utf8(font_text(k - 2)));
        assert(font_text(k - 2).take(l) =~= line);
        lemma_text_opens(font_text(k - 2), line);
    } else if k < 16 + 2 * n {
        let m = (k - 16) / 2;
        if (k - 16) % 2 == 0 {
            assert(k == 16 + 2 * m);
            let t = page_text(pages[m], (17 + 2 * m) as nat);
            assert(t.take(l) =~= line);
            lemma_text_opens(t, line);
        } else {
            assert(k == 17 + 2 * m);
            let h = obj_line((18 + 2 * m) as nat) + "<<\n/Length "@ + dec_nat(pages[m].2.len()) + "\n>>\nstream\n"@;
            assert(h.take(l) =~= line);
            lemma_text_opens(h, line);
            let c = content_bytes(pages[m].2, (18 + 2 * m) as nat);
            assert(c.take(encode_utf8(line).len() as int) =~= encode_utf8(h).take(encode_utf8(line).len() as int));
        }
    } else {
        let t = info_text(title, (17 + 2 * n) as nat);
        assert(t.take(l) =~= line);
        lemma_text_opens(t, line);
    }
}

/// At the offset of each object, the file holds the line that opens it.
proof fn lemma_object_at(pages: Seq<PageView>, title: Seq<char>, k: int)
    requires
        0 <= k < pdf_objects(pages, title).len(),
    ensures
        ({
            let file = minimal_pdf(pages, title);
            let off = obj_offset(pages, title, k);
            let line = encode_utf8(obj_line((k + 1) as nat));
            &&& off + line.len() <= file.len()
            &&& file.subrange(off, off + line.len()) == line
        }),
{
    let objs = pdf_objects(pages, title);
    lemma_concat_split(objs, k);
    let rest = objs.skip(k);
    lemma_concat_split(rest, 1);
    let one = rest.take(1);
    assert(one.drop_last() =~= Seq::<Seq<u8>>::empty());
    assert(one.last() == objs[k]);
    assert(concat_all(one.drop_last()) =~= Seq::<u8>::empty());
    assert(concat_all(one) =~= objs[k]);
    lemma_object_opens(pages, title, k);
    let line = encode_utf8(obj_line((k + 1) as nat));
    let a = concat_all(objs.take(k));
    let b = concat_all(rest.skip(1));
    let t = encode_utf8(tail_text(pages, title));
    let file = minimal_pdf(pages, title);
    let off = obj_offset(pages, title, k);
    assert(concat_all(objs) == a + (objs[k] + b));
    assert(file == header_bytes() + (a + (objs[k] + b)) + t);
    assert(file.subrange(off, off + line.len()) =~= objs[k].take(line.len() as int));
}

/// At the offset that `startxref` gives, the file holds the cross-reference table.
proof fn lemma_xref_at(pages: Seq<PageView>, title: Seq<char>)
    ensures
        ({
            let file = minimal_pdf(pages, title);
            let at = body_bytes(pages, title).len() as int;
            let xref = encode_utf8("xref\n"@);
            &&& at + xref.len() <= file.len()
            &&& file.subrange(at, at + xref.len()) == xref
        }),
{
    let tail = tail_text(pages, title);
    reveal_strlit("xref\n");
    reveal_strlit("xref\n0 ");
    assert(tail.take(5) =~= "xref\n"@);
    lemma_text_opens(tail, "xref\n"@);
    let file = minimal_pdf(pages, title);
    let at = body_bytes(pages, title).len() as int;
    let xref = encode_utf8("xref\n"@);
    assert(file.subrange(at, at + xref.len()) =~= encode_utf8(tail).take(xref.len() as int));
}

/// The cross-reference table of a written file is right: at the offset it gives for each
/// object, the file holds the line that opens that object, and `startxref` gives the
/// offset of the table itself.
pub proof fn law_xref_offsets_point_at_objects(pages: Seq<PageView>, title: Seq<char>, k: int)
    requires
        0 <= k < pdf_objects(pages, title).len(),
    ensures
        ({
            let file = minimal_pdf(pages, title);
            let off = obj_offset(pages, title, k);
            let line = encode_utf8(obj_line((k + 1) as nat));
            &&& off + line.len() <= file.len()
            &&& file.subrange(off, off + line.len()) == line
        }),
        ({
            let file = minimal_pdf(pages, title);
            let at = body_bytes(pages, title).len() as int;
            let xref = encode_utf8("xref\n"@);
            &&& at + xref.len() <= file.len()
            &&& file.subrange(at, at + xref.len()) == xref
        }),
{
    lemma_object_at(pages, title, k);
    lemma_xref_at(pages, title);
}

/// The first line of the smallest valid PDF file.
pub open spec fn fallback_header() -> Seq<char> {
    "%PDF-1.4\n"@
}

/// Object 1 of the smallest valid PDF file: the catalog.
pub open spec fn fallback_catalog() -> Seq<char> {
    "1 0 obj\n<<\n/Type /Catalog\n/Pages 2 0 R\n>>\nendobj\n"@
}

/// Object 2 of the smallest valid PDF file: an empty page tree.
pub open spec fn fallback_pages() -> Seq<char> {
    "2 0 obj\n<<\n/Type /Pages\n/Kids []\n/Count 0\n>>\nendobj\n"@
}

/// The cross-reference table and trailer of the smallest valid PDF file: the objects at
/// bytes 9 and 58, the table itself at byte 110.
pub open spec fn fallback_tail() -> Seq<char> {
    "xref\n0 3\n0000000000 65535 f \n0000000009 00000 n \n0000000058 00000 n \ntrailer\n<<\n/Size 3\n/Root 1 0 R\n>>\nstartxref\n110\n%%EOF\n"@
}

/// The smallest valid PDF file: a catalog and an empty page tree.
pub open spec fn empty_pdf_text() -> Seq<char> {
    fallback_header() + fallback_catalog() + fallback_pages() + fallback_tail()
}

/// Whether every character of `s` is ASCII.
pub open spec fn all_ascii(s: Seq<char>) -> bool {
    forall|i: int| 0 <= i < s.len() ==> (#[trigger] s[i]) as u32 <= 0x7F
}

/// ASCII text encodes to one byte per character, each the character's code.
proof fn lemma_ascii_encoding(s: Seq<char>)
    requires
        all_ascii(s),
    ensures
        encode_utf8(s).len() == s.len(),
        forall|i: int| 0 <= i < s.len() ==> #[trigger] encode_utf8(s)[i] == s[i] as u32 as u8,
    decreases s.len(),
{
    if s.len() > 0 {
        let rest = s.drop_first();
        assert(all_ascii(rest)) by {
            assert forall|i: int| 0 <= i < rest.len() implies (#[trigger] rest[i]) as u32 <= 0x7F by {
                assert(rest[i] == s[i + 1]);
            }
        }
        lemma_ascii_encoding(rest);
        let c = s[0] as u32;
        assert(c <= 0x7F);
        assert((c & 0x7F) as u8 == c as u8) by (bit_vector)
            requires c <= 0x7F;
        let e = encode_utf8(s);
        assert(e == seq![c as u8] + encode_utf8(rest));
        assert forall|i: int| 0 <= i < s.len() implies #[trigger] e[i] == s[i] as u32 as u8 by {
            if i > 0 {
                assert(e[i] == encode_utf8(rest)[i - 1]);
                assert(rest[i - 1] == s[i]);
            }
        }
    }
}

/// The fallback file is right: it is ASCII, so each byte is the code of the character at
/// the same offset; objects 1 and 2 open at bytes 9 and 58, as its cross-reference table
/// gives, and the table opens at byte 110, as `startxref` gives.
pub proof fn law_fallback_pdf_offsets()
    ensures
        ({
            let t = empty_pdf_text();
            let b = encode_utf8(t);
            &&& b.len() == t.len()
            &&& forall|i: int| 0 <= i < t.len() ==> #[trigger] b[i] == t[i] as u32 as u8
            &&& t.subrange(9, 16) == "1 0 obj"@
            &&& t.subrange(58, 65) == "2 0 obj"@
            &&& t.subrange(110, 114) == "xref"@
            &&& t.subrange(t.len() - 20, t.len() as int) == "startxref\n110\n%%EOF\n"@
            &&& fallback_tail().subrange(29, 39) == "0000000009"@
            &&& fallback_tail().subrange(49, 59) == "0000000058"@
        }),
{
    reveal_strlit("%PDF-1.4\n");
    reveal_strlit("1 0 obj\n<<\n/Type /Catalog\n/Pages 2 0 R\n>>\nendobj\n");
    reveal_strlit("2 0 obj\n<<\n/Type /Pages\n/Kids []\n/Count 0\n>>\nendobj\n");
    reveal_strlit("xref\n0 3\n0000000000 65535 f \n0000000009 00000 n \n0000000058 00000 n \ntrailer\n<<\n/Size 3\n/Root 1 0 R\n>>\nstartxref\n110\n%%EOF\n");
    reveal_strlit("1 0 obj");
    reveal_strlit("2 0 obj");
    reveal_strlit("xref");
    reveal_strlit("startxref\n110\n%%EOF\n");
    reveal_strlit("0000000009");
    reveal_strlit("0000000058");
    let h = fallback_header();
    let c = fallback_catalog();
    let p = fallback_pages();
    let x = fallback_tail();
    let t = empty_pdf_text();
    assert(all_ascii(h));
    assert(all_ascii(c));
    assert(all_ascii(p));
    assert(all_ascii(x));
    assert(all_ascii(t)) by {
        assert forall|i: int| 0 <= i < t.len() implies (#[trigger] t[i]) as u32 <= 0x7F by {
            if i < 9 {
                assert(t[i] == h[i]);
            } else if i < 58 {
                assert(t[i] == c[i - 9]);
            } else if i < 110 {
                assert(t[i] == p[i - 58]);
            } else {
                assert(t[i] == x[i - 110]);
            }
        }
    }
    lemma_ascii_encoding(t);
    assert(t.subrange(9, 16) =~= "1 0 obj"@);
    assert(t.subrange(58, 65) =~= "2 0 obj"@);
    assert(t.subrange(110, 114) =~= "xref"@);
    assert(t.subrange(t.len() - 20, t.len() as int) =~= "startxref\n110\n%%EOF\n"@);
    assert(x.subrange(29, 39) =~= "0000000009"@);
    assert(x.subrange(49, 59) =~= "0000000058"@);
}

/// A minimal valid PDF file with no page, the last resort when a document cannot be
/// written.
pub fn write_minimal_pdf_fallback() -> (r: Vec<u8>)
    ensures
        r@ == encode_utf8(empty_pdf_text()),
{
    let mut out: Vec<u8> = Vec::new();
    append_text(&mut out, "%PDF-1.4\n");
    append_text(&mut out, "1 0 obj\n<<\n/Type /Catalog\n/Pages 2 0 R\n>>\nendobj\n");
    append_text(&mut out, "2 0 obj\n<<\n/Type /Pages\n/Kids []\n/Count 0\n>>\nendobj\n");
    append_text(&mut out, "xref\n0 3\n0000000000 65535 f \n0000000009 00000 n \n0000000058 00000 n \ntrailer\n<<\n/Size 3\n/Root 1 0 R\n>>\nstartxref\n110\n%%EOF\n");
    proof {
        let h = fallback_header();
        let c = fallback_catalog();
        let p = fallback_pages();
        let x = fallback_tail();
        lemma_utf8_concat(h, c);
        lemma_utf8_concat(h + c, p);
        lemma_utf8_concat(h + c + p, x);
        assert(out@ =~= encode_utf8(empty_pdf_text()));
    }
    out
}

} // verus!
