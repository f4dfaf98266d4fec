//! Line breaking after Knuth and Plass: a paragraph becomes boxes (words), glue (spaces)
//! and penalties (break opportunities); breaks are chosen by dynamic programming over
//! the feasible break points, keeping the path of least demerits.

use vstd::prelude::*;
use crate::area::TraitSet;
use crate::font_metrics::{is_standard_registry, registry_lookup, text_units, text_width, FontMetrics, FontRegistry};
use crate::length::{div_round, round_div, Length};
use crate::textfmt::{chars_of, push_chars};

verus! {

/// A break point in a paragraph.
#[derive(Debug, Clone)]
pub struct Breakpoint {
    /// Position in the text.
    pub position: usize,
    /// Width from the start of the line to this point.
    pub width: Length,
    /// Penalty for breaking here (0 is a good break, higher is worse).
    pub penalty: i32,
    /// Whether the break is forced.
    pub forced: bool,
}

/// A word of the paragraph.
#[derive(Debug, Clone)]
pub struct TextBox {
    /// Width of the word.
    pub width: Length,
    /// The word.
    pub text: String,
}

/// Stretchable space between words.
#[derive(Debug, Clone, Copy)]
pub struct Glue {
    /// Natural width.
    pub width: Length,
    /// How much it may grow.
    pub stretch: Length,
    /// How much it may shrink.
    pub shrink: Length,
}

/// A possible break.
#[derive(Debug, Clone, Copy)]
pub struct Penalty {
    /// Cost of breaking here (very negative: forced).
    pub penalty: i32,
    /// Width added when breaking here.
    pub width: Length,
    /// Whether the break is forced.
    pub forced: bool,
}

/// An element of a paragraph.
#[derive(Debug, Clone)]
pub enum Item {
    Box(TextBox),
    Glue(Glue),
    Penalty(Penalty),
}

/// The mathematical content of an [`Item`].
pub enum ItemModel {
    Box { width: int, text: Seq<char> },
    Glue { width: int, stretch: int, shrink: int },
    Penalty { penalty: int, width: int, forced: bool },
}

impl View for Item {
    type V = ItemModel;

    open spec fn view(&self) -> ItemModel {
        match self {
            Item::Box(b) => ItemModel::Box { width: b.width.mp(), text: b.text@ },
            Item::Glue(g) => ItemModel::Glue { width: g.width.mp(), stretch: g.stretch.mp(), shrink: g.shrink.mp() },
            Item::Penalty(p) => ItemModel::Penalty { penalty: p.penalty as int, width: p.width.mp(), forced: p.forced },
        }
    }
}

/// The items of a slice, by their views.
pub open spec fn item_views(items: Seq<Item>) -> Seq<ItemModel> {
    items.map_values(|i: Item| i@)
}

/// Whether `c` has the Unicode White_Space property.
pub open spec fn is_white_space(c: char) -> bool {
    let u = c as int;
    (0x9 <= u <= 0xD) || u == 0x20 || u == 0x85 || u == 0xA0 || u == 0x1680 || (0x2000 <= u <= 0x200A)
        || u == 0x2028 || u == 0x2029 || u == 0x202F || u == 0x205F || u == 0x3000
}

/// Splitting the first `k` characters of `cs` at white space: the words completed so far and
/// the word being read.
pub open spec fn split_state(cs: Seq<char>, k: int) -> (Seq<Seq<char>>, Seq<char>)
    decreases k,
{
    if k <= 0 {
        (Seq::empty(), Seq::empty())
    } else {
        let (ws, cur) = split_state(cs, k - 1);
        let c = cs[k - 1];
        if is_white_space(c) {
            if cur.len() > 0 { (ws.push(cur), Seq::empty()) } else { (ws, Seq::empty()) }
        } else {
            (ws, cur.push(c))
        }
    }
}

/// The words of `cs`: its maximal runs of characters other than white space, in order.
pub open spec fn words_of(cs: Seq<char>) -> Seq<Seq<char>> {
    let (ws, cur) = split_state(cs, cs.len() as int);
    if cur.len() > 0 { ws.push(cur) } else { ws }
}

/// The forced break that ends a paragraph.
pub open spec fn final_penalty() -> ItemModel {
    ItemModel::Penalty { penalty: -10000, width: 0, forced: true }
}

/// The items of word `i` of `words`: its box, then, except after the last word, a glue of
/// the width of a space and a free break.
pub open spec fn word_block(m: FontMetrics, fs: Length, words: Seq<Seq<char>>, i: int) -> Seq<ItemModel> {
    let b = ItemModel::Box { width: text_width(m, words[i], fs), text: words[i] };
    if i < words.len() - 1 {
        let space = text_width(m, seq![' '], fs);
        seq![
            b,
            ItemModel::Glue { width: space, stretch: round_div(space, 2), shrink: round_div(space * 33, 100) },
            ItemModel::Penalty { penalty: 0, width: 0, forced: false },
        ]
    } else {
        seq![b]
    }
}

/// The items of the first `k` words.
pub open spec fn words_items(m: FontMetrics, fs: Length, words: Seq<Seq<char>>, k: int) -> Seq<ItemModel>
    decreases k,
{
    if k <= 0 { Seq::empty() } else { words_items(m, fs, words, k - 1) + word_block(m, fs, words, k - 1) }
}

/// The items of a paragraph of `words`, ended by a forced break.
pub open spec fn paragraph_items(m: FontMetrics, fs: Length, words: Seq<Seq<char>>) -> Seq<ItemModel> {
    words_items(m, fs, words, words.len() as int).push(final_penalty())
}

/// Whether every word and the space can be measured in `m` at `fs` within `i32`.
pub open spec fn words_measurable(m: FontMetrics, fs: Length, words: Seq<Seq<char>>) -> bool {
    &&& forall|i: int| 0 <= i < words.len() ==> text_units(m, #[trigger] words[i]) <= i32::MAX
    &&& forall|i: int| 0 <= i < words.len() ==> i32::MIN <= text_width(m, #[trigger] words[i], fs) <= i32::MAX
    &&& text_units(m, seq![' ']) <= i32::MAX
    &&& i32::MIN <= text_width(m, seq![' '], fs) <= i32::MAX
    &&& i32::MIN <= text_width(m, seq![' '], fs) * 33
}

/// Whether `c` has the Unicode White_Space property.
pub fn white_space(c: char) -> (r: bool)
    ensures
        r == is_white_space(c),
{
    let u = c as u32;
    (0x9 <= u && u <= 0xD) || u == 0x20 || u == 0x85 || u == 0xA0 || u == 0x1680 || (0x2000 <= u && u <= 0x200A)
        || u == 0x2028 || u == 0x2029 || u == 0x202F || u == 0x205F || u == 0x3000
}

/// Copies characters into a new string.
fn string_of(cs: &Vec<char>) -> (r: String)
    ensures
        r@ == cs@,
{
    let mut s = String::new();
    push_chars(&mut s, cs);
    proof { assert(s@ =~= cs@); }
    s
}

/// The words of `text`, split at white space.
pub fn split_words(text: &str) -> (r: Vec<String>)
    ensures
        r@.map_values(|s: String| s@) == words_of(text@),
{
    let cs = chars_of(text);
    let n = cs.len();
    let mut words: Vec<String> = Vec::new();
    let mut cur: Vec<char> = Vec::new();
    let mut k: usize = 0;
    while k < n
        invariant
            n == cs@.len(),
            cs@ == text@,
            k <= n,
            (words@.map_values(|s: String| s@), cur@) == split_state(cs@, k as int),
        decreases n - k,
    {
        let c = cs[k];
        let ghost before = words@.map_values(|s: String| s@);
        if white_space(c) {
            if cur.len() > 0 {
                let w = string_of(&cur);
                words.push(w);
                cur = Vec::new();
                proof {
                    assert(words@.map_values(|s: String| s@) =~= before.push(w@));
                }
            }
        } else {
            cur.push(c);
        }
        k = k + 1;
        proof {
            assert(cur@ == split_state(cs@, k as int).1);
            assert(words@.map_values(|s: String| s@) =~= split_state(cs@, k as int).0);
        }
    }
    if cur.len() > 0 {
        let ghost before = words@.map_values(|s: String| s@);
        let w = string_of(&cur);
        words.push(w);
        proof {
            assert(words@.map_values(|s: String| s@) =~= before.push(w@));
        }
    }
    words
}

/// Breaks paragraphs into lines of a given width.
pub struct KnuthPlassBreaker {
    /// The width available to a line.
    pub line_width: Length,
    /// Metrics used to measure words.
    pub font_registry: FontRegistry,
    /// How loose lines may be: 0 (strict) to 10 (very loose).
    pub tolerance: u32,
}

/// The font size of `traits`, 12pt when unset.
pub open spec fn font_size_for(traits: TraitSet) -> Length {
    match traits.font_size {
        Some(s) => s,
        None => Length { mp: 12000 },
    }
}

/// The font family of `traits`, Helvetica when unset.
pub open spec fn font_family_for(traits: TraitSet) -> Seq<char> {
    match traits.font_family {
        Some(f) => f@,
        None => "Helvetica"@,
    }
}

impl KnuthPlassBreaker {
    /// The metrics used for text with `traits`: those of its font family, or Helvetica's.
    pub open spec fn metrics_for(&self, traits: TraitSet) -> FontMetrics {
        match registry_lookup(self.font_registry.entries(), font_family_for(traits)) {
            Some(m) => m,
            None => registry_lookup(self.font_registry.entries(), "Helvetica"@)->0,
        }
    }

    /// A breaker for lines of width `line_width`, with the standard fonts and tolerance 2.
    pub fn new(line_width: Length) -> (r: KnuthPlassBreaker)
        ensures
            r.line_width == line_width,
            r.tolerance == 2,
            is_standard_registry(r.font_registry),
    {
        KnuthPlassBreaker { line_width, font_registry: FontRegistry::new(), tolerance: 2 }
    }

    /// The same breaker with tolerance `tolerance`, capped at 10.
    pub fn with_tolerance(self, tolerance: u32) -> (r: KnuthPlassBreaker)
        ensures
            r.tolerance == if tolerance < 10 { tolerance } else { 10 },
            r.line_width == self.line_width,
            r.font_registry == self.font_registry,
    {
        let mut b = self;
        b.tolerance = if tolerance < 10 { tolerance } else { 10 };
        b
    }

    /// The boxes, glue and penalties of `text`: each word as a box measured in the font of
    /// `traits`, a space-wide glue and a free break between words, and a forced break at the end.
    pub fn text_to_items(&self, text: &str, traits: &TraitSet) -> (r: Vec<Item>)
        requires
            words_measurable(self.metrics_for(*traits), font_size_for(*traits), words_of(text@)),
        ensures
            item_views(r@) == paragraph_items(self.metrics_for(*traits), font_size_for(*traits), words_of(text@)),
    {
        let font_size = match traits.font_size {
            Some(s) => s,
            None => Length::from_pt(12),
        };
        let font_name: &str = match &traits.font_family {
            Some(f) => f.as_str(),
            None => "Helvetica",
        };
        let metrics = self.font_registry.get_or_default(font_name);
        let ghost m = self.metrics_for(*traits);
        let ghost fs = font_size_for(*traits);
        proof {
            reveal_strlit(" ");
            assert(*metrics == m);
            assert(font_size == fs);
        }
        let words = split_words(text);
        let ghost ws = words_of(text@);
        let n = words.len();
        let mut items: Vec<Item> = Vec::new();
        let mut i: usize = 0;
        while i < n
            invariant
                n == ws.len(),
                words@.map_values(|s: String| s@) == ws,
                i <= n,
                *metrics == m,
                font_size == fs,
                words_measurable(m, fs, ws),
                item_views(items@) == words_items(m, fs, ws, i as int),
            decreases n - i,
        {
            let ghost before = item_views(items@);
            proof {
                reveal_strlit(" ");
                assert(" "@ =~= seq![' ']);
                assert(words@[i as int]@ == ws[i as int]);
            }
            let width = metrics.measure_text(words[i].as_str(), font_size);
            items.push(Item::Box(TextBox { width, text: words[i].clone() }));
            if i < n - 1 {
                let space_width = metrics.measure_text(" ", font_size);
                let sw = space_width.millipoints() as i64;
                let stretch = div_round(sw, 2);
                let shrink = div_round(sw * 33, 100);
                proof {
                    assert(-2147483648 <= stretch <= 2147483647);
                    assert(-2147483648 <= shrink <= 2147483647);
                }
                items.push(Item::Glue(Glue {
                    width: space_width,
                    stretch: Length::from_millipoints(stretch as i32),
                    shrink: Length::from_millipoints(shrink as i32),
                }));
                items.push(Item::Penalty(Penalty { penalty: 0, width: Length::zero(), forced: false }));
            }
            proof {
                assert(item_views(items@) =~= before + word_block(m, fs, ws, i as int));
            }
            i = i + 1;
        }
        let ghost before = item_views(items@);
        items.push(Item::Penalty(Penalty { penalty: -10000, width: Length::zero(), forced: true }));
        proof {
            assert(item_views(items@) =~= before.push(final_penalty()));
        }
        items
    }
}

/// Width an item adds to a line: boxes and glue their width, penalties nothing.
pub open spec fn item_width(it: ItemModel) -> int {
    match it {
        ItemModel::Box { width, .. } => width,
        ItemModel::Glue { width, .. } => width,
        ItemModel::Penalty { .. } => 0,
    }
}

/// Width of the items from `start` (included) to `end` (excluded).
pub open spec fn span_width(items: Seq<ItemModel>, start: int, end: int) -> int
    decreases end - start,
{
    if end <= start { 0 } else { span_width(items, start, end - 1) + item_width(items[end - 1]) }
}

/// Sum of the absolute widths of the items from `start` to `end`.
pub open spec fn span_abs(items: Seq<ItemModel>, start: int, end: int) -> int
    decreases end - start,
{
    if end <= start {
        0
    } else {
        let w = item_width(items[end - 1]);
        span_abs(items, start, end - 1) + if w < 0 { -w } else { w }
    }
}

/// The widest line allowed: one and a half times the line width, to the nearest millipoint.
pub open spec fn max_line_width(line_width: Length) -> int {
    round_div(3 * line_width.mp(), 2)
}

/// Whether position `x` can end a line of `items`: the start of the paragraph, or the
/// position just after a penalty.
pub open spec fn is_break_at(items: Seq<ItemModel>, x: int) -> bool {
    x == 0 || (1 <= x <= items.len() && items[x - 1] is Penalty)
}

/// Natural width of the line from break `a` to break `b`: its boxes and glue, the penalty
/// that ends it left out.
pub open spec fn line_width_between(items: Seq<ItemModel>, a: int, b: int) -> int {
    span_width(items, a, b - 1)
}

/// Whether the line from break `a` to break `b` is feasible: it goes forward between two
/// break positions and is no wider than `max_width`.
pub open spec fn fits_line(items: Seq<ItemModel>, max_width: int, a: int, b: int) -> bool {
    &&& a < b
    &&& is_break_at(items, a)
    &&& is_break_at(items, b)
    &&& line_width_between(items, a, b) <= max_width
}

/// Demerits of the line from break `a` to break `b`: the square of its difference from the
/// line width, in millipoints. (For a positive line width this orders lines as
/// `100 * (width / line_width - 1)^2` does.)
pub open spec fn line_cost(items: Seq<ItemModel>, line_width: int, a: int, b: int) -> int {
    (line_width_between(items, a, b) - line_width) * (line_width_between(items, a, b) - line_width)
}

/// Whether `bps` is a feasible split of a prefix of `items`: it starts at position 0 and each
/// line between consecutive breaks is feasible.
pub open spec fn valid_split(items: Seq<ItemModel>, max_width: int, bps: Seq<int>) -> bool {
    &&& bps.len() >= 1
    &&& bps[0] == 0
    &&& forall|j: int| 0 < j < bps.len() ==> #[trigger] fits_line(items, max_width, bps[j - 1], bps[j])
}

/// Total demerits of the lines of a split.
pub open spec fn split_cost(items: Seq<ItemModel>, line_width: int, bps: Seq<int>) -> int
    decreases bps.len(),
{
    if bps.len() <= 1 {
        0
    } else {
        split_cost(items, line_width, bps.drop_last()) + line_cost(items, line_width, bps[bps.len() - 2], bps.last())
    }
}

/// The least-demerits feasible split ending at break `x`, with its demerits, if there is one;
/// among equal demerits the one whose last line starts earliest.
pub open spec fn best_split(items: Seq<ItemModel>, max_width: int, line_width: int, x: int) -> Option<(int, Seq<int>)>
    decreases x, x + 1,
{
    if x < 0 {
        None
    } else if x == 0 {
        Some((0, seq![0int]))
    } else if !is_break_at(items, x) {
        None
    } else {
        best_ending(items, max_width, line_width, x, x)
    }
}

/// The least-demerits feasible split ending at break `x` whose last line starts before `a`.
pub open spec fn best_ending(items: Seq<ItemModel>, max_width: int, line_width: int, x: int, a: int) -> Option<(int, Seq<int>)>
    decreases x, a,
{
    if a <= 0 || a > x {
        None
    } else {
        let prev = best_ending(items, max_width, line_width, x, a - 1);
        let s = a - 1;
        let o = best_split(items, max_width, line_width, s);
        if o is Some && fits_line(items, max_width, s, x) {
            let c = o.unwrap().0 + line_cost(items, line_width, s, x);
            match prev {
                Some(p) => if c < p.0 { Some((c, o.unwrap().1.push(x))) } else { prev },
                None => Some((c, o.unwrap().1.push(x))),
            }
        } else {
            prev
        }
    }
}

/// The last break position up to `k` that a feasible split reaches.
pub open spec fn last_reached(items: Seq<ItemModel>, max_width: int, line_width: int, k: int) -> int
    decreases k,
{
    if k <= 0 {
        0
    } else if best_split(items, max_width, line_width, k) is Some {
        k
    } else {
        last_reached(items, max_width, line_width, k - 1)
    }
}

/// The breaks chosen for `items`: the least-demerits feasible split of the whole paragraph,
/// or, when no feasible split reaches its end, of its longest prefix that one reaches.
pub open spec fn chosen_breaks(items: Seq<ItemModel>, max_width: int, line_width: int) -> Seq<int> {
    best_split(items, max_width, line_width, last_reached(items, max_width, line_width, items.len() as int)).unwrap().1
}

/// The split found for a break is feasible, ends there, and costs what it says.
proof fn lemma_best_split_valid(items: Seq<ItemModel>, max_width: int, line_width: int, x: int)
    requires
        best_split(items, max_width, line_width, x) is Some,
    ensures
        ({
            let (c, p) = best_split(items, max_width, line_width, x)->0;
            &&& valid_split(items, max_width, p)
            &&& p.last() == x
            &&& c == split_cost(items, line_width, p)
        }),
    decreases x, x + 1,
{
    if x > 0 {
        lemma_best_ending_valid(items, max_width, line_width, x, x);
    } else {
        assert(split_cost(items, line_width, seq![0int]) == 0);
    }
}

/// The same for the splits whose last line starts before `a`.
proof fn lemma_best_ending_valid(items: Seq<ItemModel>, max_width: int, line_width: int, x: int, a: int)
    requires
        best_ending(items, max_width, line_width, x, a) is Some,
    ensures
        ({
            let (c, p) = best_ending(items, max_width, line_width, x, a)->0;
            &&& valid_split(items, max_width, p)
            &&& p.last() == x
            &&& c == split_cost(items, line_width, p)
        }),
    decreases x, a,
{
    let prev = best_ending(items, max_width, line_width, x, a - 1);
    let s = a - 1;
    let o = best_split(items, max_width, line_width, s);
    if prev is Some {
        lemma_best_ending_valid(items, max_width, line_width, x, a - 1);
    }
    if o is Some && fits_line(items, max_width, s, x) {
        lemma_best_split_valid(items, max_width, line_width, s);
        let q = o.unwrap().1;
        let p = q.push(x);
        assert(p.drop_last() =~= q);
        assert(p[p.len() - 2] == q.last());
        assert forall|j: int| 0 < j < p.len() implies #[trigger] fits_line(items, max_width, p[j - 1], p[j]) by {
            if j < q.len() {
                assert(p[j - 1] == q[j - 1] && p[j] == q[j]);
                assert(fits_line(items, max_width, q[j - 1], q[j]));
            }
        }
    }
}

/// A feasible break `s` before `x` with a feasible line to `x` bounds the best split ending
/// at `x` over starts before `a > s`.
proof fn lemma_best_ending_bound(items: Seq<ItemModel>, max_width: int, line_width: int, x: int, a: int, s: int)
    requires
        0 <= s < a <= x,
        best_split(items, max_width, line_width, s) is Some,
        fits_line(items, max_width, s, x),
    ensures
        best_ending(items, max_width, line_width, x, a) is Some,
        best_ending(items, max_width, line_width, x, a).unwrap().0
            <= best_split(items, max_width, line_width, s).unwrap().0 + line_cost(items, line_width, s, x),
    decreases a,
{
    if a > s + 1 {
        lemma_best_ending_bound(items, max_width, line_width, x, a - 1, s);
    }
}

/// Every feasible split reaches its last break, at no less than the best split's demerits.
proof fn lemma_best_split_least(items: Seq<ItemModel>, max_width: int, line_width: int, p: Seq<int>)
    requires
        valid_split(items, max_width, p),
    ensures
        best_split(items, max_width, line_width, p.last()) is Some,
        best_split(items, max_width, line_width, p.last()).unwrap().0 <= split_cost(items, line_width, p),
    decreases p.len(),
{
    if p.len() == 1 {
        assert(p.last() == 0);
    } else {
        let q = p.drop_last();
        let s = q.last();
        let x = p.last();
        assert(fits_line(items, max_width, p[p.len() - 2], p[p.len() - 1]));
        assert forall|j: int| 0 < j < q.len() implies #[trigger] fits_line(items, max_width, q[j - 1], q[j]) by {
            assert(fits_line(items, max_width, p[j - 1], p[j]));
        }
        lemma_best_split_least(items, max_width, line_width, q);
        assert(s >= 0);
        lemma_best_ending_bound(items, max_width, line_width, x, x, s);
    }
}

/// The last break reached is a break that a feasible split reaches, and no later break up to
/// `k` is reached.
proof fn lemma_last_reached(items: Seq<ItemModel>, max_width: int, line_width: int, k: int)
    requires
        0 <= k,
    ensures
        0 <= last_reached(items, max_width, line_width, k) <= k,
        best_split(items, max_width, line_width, last_reached(items, max_width, line_width, k)) is Some,
        forall|y: int| last_reached(items, max_width, line_width, k) < y <= k
            ==> #[trigger] best_split(items, max_width, line_width, y) is None,
    decreases k,
{
    if k > 0 && best_split(items, max_width, line_width, k) is None {
        lemma_last_reached(items, max_width, line_width, k - 1);
    }
}

/// The chosen breaks form a feasible split; a feasible split that reaches a break at or
/// before `k` shows that the split chosen up to `k` ends no earlier.
proof fn lemma_chosen_valid(items: Seq<ItemModel>, max_width: int, line_width: int)
    ensures
        valid_split(items, max_width, chosen_breaks(items, max_width, line_width)),
        0 <= chosen_breaks(items, max_width, line_width).last() <= items.len(),
        chosen_breaks(items, max_width, line_width).last() == last_reached(items, max_width, line_width, items.len() as int),
        split_cost(items, line_width, chosen_breaks(items, max_width, line_width))
            == best_split(items, max_width, line_width, chosen_breaks(items, max_width, line_width).last()).unwrap().0,
{
    let n = items.len() as int;
    lemma_last_reached(items, max_width, line_width, n);
    lemma_best_split_valid(items, max_width, line_width, last_reached(items, max_width, line_width, n));
}

/// The chosen breaks go forward and stay within the items.
proof fn lemma_chosen_ordered(items: Seq<ItemModel>, max_width: int, line_width: int)
    ensures
        breaks_ordered(chosen_breaks(items, max_width, line_width), items.len() as int),
{
    lemma_chosen_valid(items, max_width, line_width);
    lemma_split_ordered(items, max_width, chosen_breaks(items, max_width, line_width));
}

/// The breaks of a feasible split go forward from 0 and stay within the items.
proof fn lemma_split_ordered(items: Seq<ItemModel>, max_width: int, bps: Seq<int>)
    requires
        valid_split(items, max_width, bps),
    ensures
        breaks_ordered(bps, items.len() as int),
        forall|a: int, b: int| 0 <= a < b < bps.len() ==> bps[a] < bps[b],
{
    assert forall|k: int| 0 <= k < bps.len() implies 0 <= #[trigger] bps[k] <= items.len() by {
        if k > 0 {
            assert(fits_line(items, max_width, bps[k - 1], bps[k]));
        }
    }
    assert forall|k: int| 0 < k < bps.len() implies bps[k - 1] <= #[trigger] bps[k] by {
        assert(fits_line(items, max_width, bps[k - 1], bps[k]));
    }
    assert forall|a: int, b: int| 0 <= a < b < bps.len() implies bps[a] < bps[b] by {
        lemma_split_increasing(items, max_width, bps, a, b);
    }
}

/// Breaks further along a feasible split are further along the items.
proof fn lemma_split_increasing(items: Seq<ItemModel>, max_width: int, bps: Seq<int>, a: int, b: int)
    requires
        valid_split(items, max_width, bps),
        0 <= a < b < bps.len(),
    ensures
        bps[a] < bps[b],
    decreases b - a,
{
    assert(fits_line(items, max_width, bps[b - 1], bps[b]));
    if b - 1 > a {
        lemma_split_increasing(items, max_width, bps, a, b - 1);
    }
}

/// Span widths split at a middle point.
proof fn lemma_span_split(items: Seq<ItemModel>, a: int, b: int, c: int)
    requires
        a <= b <= c,
    ensures
        span_width(items, a, c) == span_width(items, a, b) + span_width(items, b, c),
        span_abs(items, a, c) == span_abs(items, a, b) + span_abs(items, b, c),
        span_abs(items, b, c) >= 0,
        span_abs(items, a, b) >= 0,
    decreases c - b,
{
    if c > b {
        lemma_span_split(items, a, b, c - 1);
    } else {
        lemma_span_abs_nonneg(items, a, b);
    }
}

/// Absolute spans are non-negative.
proof fn lemma_span_abs_nonneg(items: Seq<ItemModel>, a: int, b: int)
    ensures
        span_abs(items, a, b) >= 0,
    decreases b - a,
{
    if b > a {
        lemma_span_abs_nonneg(items, a, b - 1);
    }
}

impl KnuthPlassBreaker {
    /// Total width of the boxes and glue of `items[start..end]`.
    pub fn calculate_width(&self, items: &[Item], start: usize, end: usize) -> (r: Length)
        requires
            start <= end <= items@.len(),
            span_abs(item_views(items@), start as int, end as int) <= i32::MAX,
        ensures
            r.mp() == span_width(item_views(items@), start as int, end as int),
    {
        let ghost v = item_views(items@);
        let mut width: i64 = 0;
        let mut k: usize = start;
        while k < end
            invariant
                v == item_views(items@),
                start <= k <= end <= items@.len(),
                span_abs(v, start as int, end as int) <= i32::MAX,
                width == span_width(v, start as int, k as int),
                -span_abs(v, start as int, k as int) <= width <= span_abs(v, start as int, k as int),
            decreases end - k,
        {
            proof {
                lemma_span_split(v, start as int, k as int + 1, end as int);
                assert(v[k as int] == items@[k as int]@);
            }
            match &items[k] {
                Item::Box(b) => { width = width + b.width.millipoints() as i64; },
                Item::Glue(g) => { width = width + g.width.millipoints() as i64; },
                Item::Penalty(_) => {},
            }
            k = k + 1;
        }
        proof { lemma_span_split(v, start as int, end as int, end as int); }
        Length::from_millipoints(width as i32)
    }

    /// The widest feasible line.
    fn max_width(&self) -> (r: i64)
        ensures
            r == max_line_width(self.line_width),
    {
        div_round(3 * (self.line_width.millipoints() as i64), 2)
    }

    /// The break positions of `items`: the feasible split of least demerits (the squared
    /// difference of each line's width from the line width, summed over the lines; a line is
    /// feasible when it is at most one and a half line widths wide), from position 0 to the
    /// end of the paragraph, or to the last break that a feasible split reaches.
    pub fn find_breakpoints(&self, items: &[Item]) -> (r: Vec<usize>)
        requires
            span_abs(item_views(items@), 0, items@.len() as int) <= i32::MAX,
            items@.len() <= 0x1000_0000_0000_0000,
        ensures
            positions(r@) == chosen_breaks(item_views(items@), max_line_width(self.line_width), self.line_width.mp()),
    {
        let ghost v = item_views(items@);
        let ghost mw = max_line_width(self.line_width);
        let ghost lw = self.line_width.mp();
        let max_width = self.max_width();
        let line_width = self.line_width.millipoints() as i64;
        let n = items.len();
        let mut reach: Vec<bool> = Vec::new();
        let mut cost: Vec<u128> = Vec::new();
        let mut paths: Vec<Vec<usize>> = Vec::new();
        let mut first: Vec<usize> = Vec::new();
        first.push(0);
        reach.push(true);
        cost.push(0);
        paths.push(first);
        proof {
            assert(positions(paths@[0]@) =~= seq![0int]);
        }
        let mut k: usize = 0;
        while k < n
            invariant
                k <= n,
                n == items@.len(),
                n <= 0x1000_0000_0000_0000,
                v == item_views(items@),
                mw == max_line_width(self.line_width),
                lw == self.line_width.mp(),
                max_width == mw,
                line_width == lw,
                span_abs(v, 0, n as int) <= i32::MAX,
                reach@.len() == k + 1,
                cost@.len() == k + 1,
                paths@.len() == k + 1,
                forall|y: int| 0 <= y <= k ==> (#[trigger] reach@[y]) == (best_split(v, mw, lw, y) is Some),
                forall|y: int| 0 <= y <= k && #[trigger] reach@[y] ==> cost@[y] == best_split(v, mw, lw, y).unwrap().0
                    && positions(paths@[y]@) == best_split(v, mw, lw, y).unwrap().1
                    && cost@[y] <= y * 0x1_0000_0000_0000_0000,
            decreases n - k,
        {
            let x = k + 1;
            let mut found = false;
            let mut best_cost: u128 = 0;
            let mut best_start: usize = 0;
            let is_pen = match &items[x - 1] {
                Item::Penalty(_) => true,
                _ => false,
            };
            proof { assert(v[x - 1] == items@[x - 1]@); }
            if is_pen {
                let mut s: usize = 0;
                while s < x
                    invariant
                        n == items@.len(),
                        n <= 0x1000_0000_0000_0000,
                        v == item_views(items@),
                        mw == max_line_width(self.line_width),
                        lw == self.line_width.mp(),
                        max_width == mw,
                        line_width == lw,
                        span_abs(v, 0, n as int) <= i32::MAX,
                        1 <= x <= n,
                        v[x - 1] is Penalty,
                        s <= x,
                        reach@.len() == x,
                        cost@.len() == x,
                        paths@.len() == x,
                        forall|y: int| 0 <= y < x ==> (#[trigger] reach@[y]) == (best_split(v, mw, lw, y) is Some),
                        forall|y: int| 0 <= y < x && #[trigger] reach@[y] ==> cost@[y] == best_split(v, mw, lw, y).unwrap().0
                            && positions(paths@[y]@) == best_split(v, mw, lw, y).unwrap().1
                            && cost@[y] <= y * 0x1_0000_0000_0000_0000,
                        found == (best_ending(v, mw, lw, x as int, s as int) is Some),
                        found ==> best_start < s && reach@[best_start as int]
                            && best_ending(v, mw, lw, x as int, s as int)->0
                                == (best_cost as int, best_split(v, mw, lw, best_start as int).unwrap().1.push(x as int))
                            && best_cost <= x * 0x1_0000_0000_0000_0000,
                    decreases x - s,
                {
                    if reach[s] {
                        proof {
                            lemma_span_split(v, 0, s as int, x - 1);
                            lemma_span_split(v, 0, x - 1, n as int);
                            lemma_span_bound(v, s as int, x - 1);
                        }
                        let w = self.calculate_width(items, s, x - 1);
                        let wv = w.millipoints() as i64;
                        if wv <= max_width {
                            let diff: i128 = (wv as i128) - (line_width as i128);
                            proof {
                                assert(0 <= diff * diff <= 0x1_0000_0000_0000_0000int) by (nonlinear_arith)
                                    requires -0x1_0000_0000int <= diff <= 0x1_0000_0000int;
                                assert(s * 0x1_0000_0000_0000_0000int + 0x1_0000_0000_0000_0000int
                                    <= x * 0x1_0000_0000_0000_0000int) by (nonlinear_arith)
                                    requires s < x;
                                assert(x * 0x1_0000_0000_0000_0000int <= 0x1000_0000_0000_0000 * 0x1_0000_0000_0000_0000int)
                                    by (nonlinear_arith) requires x <= 0x1000_0000_0000_0000int;
                            }
                            let c: u128 = cost[s] + (diff * diff) as u128;
                            if !found || c < best_cost {
                                found = true;
                                best_cost = c;
                                best_start = s;
                            }
                        }
                    }
                    s = s + 1;
                }
            }
            if found {
                let mut path = copy_positions(&paths[best_start]);
                path.push(x);
                proof {
                    assert(positions(path@) =~= positions(paths@[best_start as int]@).push(x as int));
                }
                reach.push(true);
                cost.push(best_cost);
                paths.push(path);
            } else {
                reach.push(false);
                cost.push(0);
                paths.push(Vec::new());
            }
            k = k + 1;
        }
        let mut e: usize = n;
        while !reach[e]
            invariant
                e <= n,
                reach@.len() == n + 1,
                reach@[0],
                forall|y: int| 0 <= y <= n ==> (#[trigger] reach@[y]) == (best_split(v, mw, lw, y) is Some),
                forall|y: int| e < y <= n ==> !(#[trigger] reach@[y]),
            decreases e,
        {
            e = e - 1;
        }
        proof {
            assert forall|y: int| e < y <= n implies !(best_split(v, mw, lw, y) is Some) by {
                assert(!reach@[y]);
            }
            lemma_last_reached_is(v, mw, lw, n as int, e as int);
        }
        copy_positions(&paths[e])
    }
}

/// Positions as integers.
pub open spec fn positions(s: Seq<usize>) -> Seq<int> {
    s.map_values(|p: usize| p as int)
}

/// A copy of a list of positions.
fn copy_positions(src: &Vec<usize>) -> (r: Vec<usize>)
    ensures
        r@ == src@,
{
    let mut out: Vec<usize> = Vec::new();
    let mut k: usize = 0;
    while k < src.len()
        invariant
            k <= src@.len(),
            out@ == src@.take(k as int),
        decreases src@.len() - k,
    {
        out.push(src[k]);
        k = k + 1;
        proof { assert(out@ =~= src@.take(k as int)); }
    }
    proof { assert(src@.take(src@.len() as int) =~= src@); }
    out
}

/// A span's width is bounded by its absolute width.
proof fn lemma_span_bound(items: Seq<ItemModel>, a: int, b: int)
    ensures
        -span_abs(items, a, b) <= span_width(items, a, b) <= span_abs(items, a, b),
    decreases b - a,
{
    if b > a {
        lemma_span_bound(items, a, b - 1);
    }
}

/// The break reached last up to `k` is the one after which no break up to `k` is reached.
proof fn lemma_last_reached_is(items: Seq<ItemModel>, max_width: int, line_width: int, k: int, e: int)
    requires
        0 <= e <= k,
        best_split(items, max_width, line_width, e) is Some,
        forall|y: int| e < y <= k ==> !(best_split(items, max_width, line_width, y) is Some),
    ensures
        last_reached(items, max_width, line_width, k) == e,
    decreases k,
{
    if k > e {
        lemma_last_reached_is(items, max_width, line_width, k - 1, e);
    }
}

/// The text of the line made of `items[start..end]`: the words of its boxes, separated by a
/// space once the line is not empty.
pub open spec fn line_text(items: Seq<ItemModel>, start: int, end: int) -> Seq<char>
    decreases end - start,
{
    if end <= start {
        Seq::empty()
    } else {
        let acc = line_text(items, start, end - 1);
        match items[end - 1] {
            ItemModel::Box { text, .. } => if acc.len() > 0 { acc.push(' ') + text } else { acc + text },
            _ => acc,
        }
    }
}

/// The lines ending at the first `k` break positions of `bps`; a line starts at the previous
/// break (0 for the first), and empty lines are left out.
pub open spec fn lines_upto(items: Seq<ItemModel>, bps: Seq<int>, k: int) -> Seq<Seq<char>>
    decreases k,
{
    if k <= 0 {
        Seq::empty()
    } else {
        let prev = lines_upto(items, bps, k - 1);
        let start = if k == 1 { 0 } else { bps[k - 2] };
        let line = line_text(items, start, bps[k - 1]);
        if line.len() > 0 { prev.push(line) } else { prev }
    }
}

/// Break positions that never go back and stay within `n` items.
pub open spec fn breaks_ordered(bps: Seq<int>, n: int) -> bool {
    &&& forall|k: int| 0 <= k < bps.len() ==> 0 <= #[trigger] bps[k] <= n
    &&& forall|k: int| 0 < k < bps.len() ==> bps[k - 1] <= #[trigger] bps[k]
}

impl KnuthPlassBreaker {
    /// The lines between consecutive break positions, each the words of its boxes separated
    /// by single spaces; empty lines are dropped.
    pub fn items_to_lines(&self, items: &[Item], breakpoints: &[usize]) -> (r: Vec<String>)
        requires
            breaks_ordered(breakpoints@.map_values(|p: usize| p as int), items@.len() as int),
        ensures
            r@.map_values(|s: String| s@) == lines_upto(item_views(items@), breakpoints@.map_values(|p: usize| p as int),
                breakpoints@.len() as int),
    {
        let ghost v = item_views(items@);
        let ghost bps = breakpoints@.map_values(|p: usize| p as int);
        let mut lines: Vec<String> = Vec::new();
        let mut start: usize = 0;
        let nb = breakpoints.len();
        let mut q: usize = 0;
        while q < nb
            invariant
                nb == breakpoints@.len(),
                bps == breakpoints@.map_values(|p: usize| p as int),
                v == item_views(items@),
                breaks_ordered(bps, items@.len() as int),
                q <= nb,
                start == if q == 0 { 0 } else { bps[q - 1] },
                lines@.map_values(|s: String| s@) == lines_upto(v, bps, q as int),
            decreases nb - q,
        {
            let end = breakpoints[q];
            proof {
                assert(bps[q as int] == end as int);
                assert(0 <= bps[q as int] <= items@.len());
                if q > 0 {
                    assert(bps[q - 1] <= bps[q as int]);
                }
            }
            let mut line = String::new();
            let mut has_text = false;
            let mut k: usize = start;
            while k < end
                invariant
                    v == item_views(items@),
                    start <= k <= end <= items@.len(),
                    line@ == line_text(v, start as int, k as int),
                    has_text == (line@.len() > 0),
                decreases end - k,
            {
                proof { assert(v[k as int] == items@[k as int]@); }
                if let Item::Box(b) = &items[k] {
                    if has_text {
                        line.append(" ");
                        proof { reveal_strlit(" "); }
                    }
                    line.append(b.text.as_str());
                    has_text = has_text || !b.text.as_str().is_empty();
                }
                k = k + 1;
                proof {
                    assert(line@ =~= line_text(v, start as int, k as int));
                }
            }
            let ghost l0 = lines@.map_values(|s: String| s@);
            if has_text {
                lines.push(line);
                proof {
                    assert(lines@.map_values(|s: String| s@) =~= l0.push(line_text(v, start as int, end as int)));
                }
            }
            start = end;
            q = q + 1;
        }
        lines
    }

    /// Breaks `text` into lines of at most about the line width: the words are measured in the
    /// font of `traits`, breaks are found among the spaces, and each line is its words joined
    /// by single spaces.
    pub fn break_text(&self, text: &str, traits: &TraitSet) -> (r: Vec<String>)
        requires
            self.paragraph_fits(text@, *traits),
        ensures
            r@.map_values(|s: String| s@) == self.paragraph_lines(text@, *traits),
    {
        let items = self.text_to_items(text, traits);
        let breakpoints = self.find_breakpoints(items.as_slice());
        proof {
            lemma_chosen_ordered(item_views(items@), max_line_width(self.line_width), self.line_width.mp());
        }
        self.items_to_lines(items.as_slice(), breakpoints.as_slice())
    }

    /// The items of `text` set with `traits`.
    pub open spec fn paragraph(&self, text: Seq<char>, traits: TraitSet) -> Seq<ItemModel> {
        paragraph_items(self.metrics_for(traits), font_size_for(traits), words_of(text))
    }

    /// The break positions chosen for `text` set with `traits`: the split of least demerits.
    pub open spec fn paragraph_breaks(&self, text: Seq<char>, traits: TraitSet) -> Seq<int> {
        chosen_breaks(self.paragraph(text, traits), max_line_width(self.line_width), self.line_width.mp())
    }

    /// The lines of `text` set with `traits`.
    pub open spec fn paragraph_lines(&self, text: Seq<char>, traits: TraitSet) -> Seq<Seq<char>> {
        let bps = self.paragraph_breaks(text, traits);
        lines_upto(self.paragraph(text, traits), bps, bps.len() as int)
    }

    /// Whether the words of `text` can be measured and the paragraph's widths added up within `i32`.
    pub open spec fn paragraph_fits(&self, text: Seq<char>, traits: TraitSet) -> bool {
        &&& words_measurable(self.metrics_for(traits), font_size_for(traits), words_of(text))
        &&& span_abs(self.paragraph(text, traits), 0, self.paragraph(text, traits).len() as int) <= i32::MAX
        &&& self.paragraph(text, traits).len() <= 0x1000_0000_0000_0000
    }
}

/// Words joined by single spaces.
pub open spec fn join_words(ws: Seq<Seq<char>>) -> Seq<char>
    decreases ws.len(),
{
    if ws.len() == 0 {
        Seq::empty()
    } else if ws.len() == 1 {
        ws[0]
    } else {
        join_words(ws.drop_last()).push(' ') + ws.last()
    }
}

/// The words of the boxes of `items`, in order.
pub open spec fn box_texts(items: Seq<ItemModel>) -> Seq<Seq<char>>
    decreases items.len(),
{
    if items.len() == 0 {
        Seq::empty()
    } else {
        let rest = box_texts(items.drop_last());
        match items.last() {
            ItemModel::Box { text, .. } => rest.push(text),
            _ => rest,
        }
    }
}

/// Every box of `items` holds a non-empty word.
pub open spec fn boxes_nonempty(items: Seq<ItemModel>) -> bool {
    forall|j: int| 0 <= j < items.len() ==> (#[trigger] items[j] matches ItemModel::Box { text, .. } ==> text.len() > 0)
}

/// Box words distribute over concatenation.
proof fn lemma_box_texts_concat(a: Seq<ItemModel>, b: Seq<ItemModel>)
    ensures
        box_texts(a + b) == box_texts(a) + box_texts(b),
    decreases b.len(),
{
    if b.len() == 0 {
        assert(a + b =~= a);
        assert(box_texts(b) =~= Seq::<Seq<char>>::empty());
        assert(box_texts(a) + box_texts(b) =~= box_texts(a));
    } else {
        assert((a + b).drop_last() =~= a + b.drop_last());
        lemma_box_texts_concat(a, b.drop_last());
        assert((a + b).last() == b.last());
        match b.last() {
            ItemModel::Box { text, .. } => {
                assert(box_texts(a) + box_texts(b) =~= (box_texts(a) + box_texts(b.drop_last())).push(text));
            },
            _ => {},
        }
    }
}

/// Joining distributes over concatenation, with a space between non-empty parts.
proof fn lemma_join_concat(a: Seq<Seq<char>>, b: Seq<Seq<char>>)
    ensures
        join_words(a + b) == if a.len() == 0 {
            join_words(b)
        } else if b.len() == 0 {
            join_words(a)
        } else {
            join_words(a).push(' ') + join_words(b)
        },
    decreases b.len(),
{
    if b.len() == 0 {
        assert(a + b =~= a);
    } else if a.len() == 0 {
        assert(a + b =~= b);
    } else if b.len() == 1 {
        assert((a + b).drop_last() =~= a);
        assert((a + b).last() == b[0]);
    } else {
        lemma_join_concat(a, b.drop_last());
        assert((a + b).drop_last() =~= a + b.drop_last());
        assert((a + b).last() == b.last());
        assert(join_words(a).push(' ') + join_words(b) =~= (join_words(a).push(' ') + join_words(b.drop_last())).push(' ') + b.last());
    }
}

/// A line's text is the join of its words, and is empty exactly when it has no words.
proof fn lemma_line_text(items: Seq<ItemModel>, start: int, end: int)
    requires
        0 <= start <= end <= items.len(),
        boxes_nonempty(items),
    ensures
        line_text(items, start, end) == join_words(box_texts(items.subrange(start, end))),
        line_text(items, start, end).len() == 0 <==> box_texts(items.subrange(start, end)).len() == 0,
    decreases end - start,
{
    if end == start {
        assert(items.subrange(start, end) =~= Seq::<ItemModel>::empty());
    } else {
        lemma_line_text(items, start, end - 1);
        let sub = items.subrange(start, end);
        assert(sub.drop_last() =~= items.subrange(start, end - 1));
        assert(sub.last() == items[end - 1]);
        let prev = box_texts(items.subrange(start, end - 1));
        match items[end - 1] {
            ItemModel::Box { text, .. } => {
                assert(text.len() > 0);
                assert(box_texts(sub) == prev.push(text));
                if prev.len() == 0 {
                    assert(prev.push(text) =~= seq![text]);
                    assert(Seq::<char>::empty() + text =~= text);
                } else {
                    assert(prev.push(text).drop_last() =~= prev);
                }
            },
            _ => {},
        }
    }
}

/// The joined lines up to break `k` are the joined words of the items before that break.
proof fn lemma_lines_join(items: Seq<ItemModel>, bps: Seq<int>, k: int)
    requires
        1 <= k <= bps.len(),
        breaks_ordered(bps, items.len() as int),
        boxes_nonempty(items),
    ensures
        join_words(lines_upto(items, bps, k)) == join_words(box_texts(items.subrange(0, bps[k - 1]))),
        lines_upto(items, bps, k).len() == 0 <==> box_texts(items.subrange(0, bps[k - 1])).len() == 0,
    decreases k,
{
    let end = bps[k - 1];
    assert(0 <= bps[k - 1] <= items.len());
    if k == 1 {
        lemma_line_text(items, 0, end);
        let line = line_text(items, 0, end);
        assert(lines_upto(items, bps, 0) =~= Seq::<Seq<char>>::empty());
        if line.len() > 0 {
            assert(Seq::<Seq<char>>::empty().push(line) =~= seq![line]);
        }
    } else {
        let start = bps[k - 2];
        assert(bps[k - 2] <= bps[k - 1]);
        assert(0 <= bps[k - 2]);
        lemma_lines_join(items, bps, k - 1);
        lemma_line_text(items, start, end);
        let prev = lines_upto(items, bps, k - 1);
        let line = line_text(items, start, end);
        let a = box_texts(items.subrange(0, start));
        let b = box_texts(items.subrange(start, end));
        assert(items.subrange(0, end) =~= items.subrange(0, start) + items.subrange(start, end));
        lemma_box_texts_concat(items.subrange(0, start), items.subrange(start, end));
        lemma_join_concat(a, b);
        if line.len() > 0 {
            lemma_join_concat(prev, seq![line]);
            assert(prev + seq![line] =~= prev.push(line));
        }
    }
}

/// The words of a paragraph's boxes are the paragraph's words, and none is empty.
proof fn lemma_words_items(m: FontMetrics, fs: Length, words: Seq<Seq<char>>, k: int)
    requires
        0 <= k <= words.len(),
        forall|i: int| 0 <= i < words.len() ==> (#[trigger] words[i]).len() > 0,
    ensures
        box_texts(words_items(m, fs, words, k)) == words.take(k),
        boxes_nonempty(words_items(m, fs, words, k)),
    decreases k,
{
    if k > 0 {
        lemma_words_items(m, fs, words, k - 1);
        let prev = words_items(m, fs, words, k - 1);
        let blk = word_block(m, fs, words, k - 1);
        lemma_box_texts_concat(prev, blk);
        let b0 = seq![blk[0]];
        assert(b0.drop_last() =~= Seq::<ItemModel>::empty());
        assert(box_texts(Seq::<ItemModel>::empty()) =~= Seq::<Seq<char>>::empty());
        assert(box_texts(b0) =~= seq![words[k - 1]]);
        if k - 1 < words.len() - 1 {
            let b1 = blk.drop_last();
            assert(b1.drop_last() =~= b0);
            assert(blk.last() is Penalty);
            assert(b1.last() is Glue);
            assert(box_texts(b1) == box_texts(b0));
        } else {
            assert(blk =~= b0);
        }
        assert(words.take(k) =~= words.take(k - 1).push(words[k - 1]));
        let all = prev + blk;
        assert forall|j: int| 0 <= j < all.len() implies (#[trigger] all[j] matches ItemModel::Box { text, .. } ==> text.len() > 0) by {
            if j < prev.len() {
                assert(all[j] == prev[j]);
            } else {
                assert(all[j] == blk[j - prev.len()]);
            }
        }
    }
}

/// The words found by splitting are never empty.
proof fn lemma_split_nonempty(cs: Seq<char>, k: int)
    ensures
        forall|i: int| 0 <= i < split_state(cs, k).0.len() ==> (#[trigger] split_state(cs, k).0[i]).len() > 0,
    decreases k,
{
    if k > 0 {
        lemma_split_nonempty(cs, k - 1);
        let prev = split_state(cs, k - 1);
        let c = cs[k - 1];
        if is_white_space(c) && prev.1.len() > 0 {
            assert(split_state(cs, k).0 == prev.0.push(prev.1));
        } else {
            assert(split_state(cs, k).0 == prev.0);
        }
    }
}

/// The words of a paragraph's boxes are the words of its text, none of them empty.
proof fn lemma_paragraph_words(m: FontMetrics, fs: Length, cs: Seq<char>)
    ensures
        box_texts(paragraph_items(m, fs, words_of(cs))) == words_of(cs),
        boxes_nonempty(paragraph_items(m, fs, words_of(cs))),
{
    let words = words_of(cs);
    lemma_split_nonempty(cs, cs.len() as int);
    assert forall|i: int| 0 <= i < words.len() implies (#[trigger] words[i]).len() > 0 by {
        let (ws, cur) = split_state(cs, cs.len() as int);
        if i < ws.len() {
            assert(words[i] == ws[i]);
        }
    }
    lemma_words_items(m, fs, words, words.len() as int);
    let w = words_items(m, fs, words, words.len() as int);
    assert(w.push(final_penalty()).drop_last() =~= w);
    assert(words.take(words.len() as int) =~= words);
    let p = w.push(final_penalty());
    assert forall|j: int| 0 <= j < p.len() implies (#[trigger] p[j] matches ItemModel::Box { text, .. } ==> text.len() > 0) by {
        if j < w.len() {
            assert(p[j] == w[j]);
        }
    }
}

/// Breaking loses no word: when the paragraph's last break is its end (some feasible split
/// reaches it), its lines joined by spaces are its words joined by spaces.
pub proof fn law_lines_keep_all_words(breaker: KnuthPlassBreaker, text: Seq<char>, traits: TraitSet)
    requires
        breaker.paragraph_breaks(text, traits).last() == breaker.paragraph(text, traits).len(),
    ensures
        join_words(breaker.paragraph_lines(text, traits)) == join_words(words_of(text)),
{
    let items = breaker.paragraph(text, traits);
    let bps = breaker.paragraph_breaks(text, traits);
    let mw = max_line_width(breaker.line_width);
    lemma_chosen_valid(items, mw, breaker.line_width.mp());
    lemma_split_ordered(items, mw, bps);
    lemma_paragraph_words(breaker.metrics_for(traits), font_size_for(traits), text);
    lemma_lines_join(items, bps, bps.len() as int);
    assert(items.subrange(0, items.len() as int) =~= items);
}

/// Every chosen line is feasible: it ends just after a penalty, and its boxes and glue are no
/// wider than one and a half times the line width.
pub proof fn law_lines_fit(items: Seq<ItemModel>, max_width: int, line_width: int, j: int)
    requires
        0 < j < chosen_breaks(items, max_width, line_width).len(),
    ensures
        ({
            let bps = chosen_breaks(items, max_width, line_width);
            &&& span_width(items, bps[j - 1], bps[j] - 1) <= max_width
            &&& items[bps[j] - 1] is Penalty
        }),
{
    lemma_chosen_valid(items, max_width, line_width);
    let bps = chosen_breaks(items, max_width, line_width);
    assert(fits_line(items, max_width, bps[j - 1], bps[j]));
}

/// The chosen breaks are optimal: they form a feasible split; no feasible split reaches
/// further into the paragraph; and every feasible split that ends where they end has at least
/// their total demerits.
pub proof fn law_breaks_least_demerits(items: Seq<ItemModel>, max_width: int, line_width: int, other: Seq<int>)
    requires
        valid_split(items, max_width, other),
    ensures
        valid_split(items, max_width, chosen_breaks(items, max_width, line_width)),
        other.last() <= chosen_breaks(items, max_width, line_width).last(),
        other.last() == chosen_breaks(items, max_width, line_width).last() ==>
            split_cost(items, line_width, chosen_breaks(items, max_width, line_width)) <= split_cost(items, line_width, other),
{
    let n = items.len() as int;
    lemma_chosen_valid(items, max_width, line_width);
    lemma_last_reached(items, max_width, line_width, n);
    lemma_best_split_least(items, max_width, line_width, other);
    lemma_split_ordered(items, max_width, other);
    assert(0 <= other[other.len() - 1] <= n);
}

/// Whether each word of `words`, with the space after it unless it is the last, is no wider
/// than `max_width`.
pub open spec fn words_fit(m: FontMetrics, fs: Length, words: Seq<Seq<char>>, max_width: int) -> bool {
    forall|i: int| 0 <= i < words.len() ==> text_width(m, #[trigger] words[i], fs)
        + (if i < words.len() - 1 { text_width(m, seq![' '], fs) } else { 0 }) <= max_width
}

/// Every block but the last has three items; the last has one.
proof fn lemma_words_items_len(m: FontMetrics, fs: Length, words: Seq<Seq<char>>, k: int)
    requires
        0 <= k <= words.len(),
    ensures
        k < words.len() ==> words_items(m, fs, words, k).len() == 3 * k,
        k == words.len() && k > 0 ==> words_items(m, fs, words, k).len() == 3 * k - 2,
    decreases k,
{
    if k > 0 {
        lemma_words_items_len(m, fs, words, k - 1);
    }
}

/// The items of the first `k` words start the items of the first `j`.
proof fn lemma_words_items_prefix(m: FontMetrics, fs: Length, words: Seq<Seq<char>>, k: int, j: int)
    requires
        0 <= k <= j <= words.len(),
    ensures
        words_items(m, fs, words, k).len() <= words_items(m, fs, words, j).len(),
        words_items(m, fs, words, j).take(words_items(m, fs, words, k).len() as int) == words_items(m, fs, words, k),
    decreases j - k,
{
    if k < j {
        lemma_words_items_prefix(m, fs, words, k, j - 1);
        let a = words_items(m, fs, words, k);
        let b = words_items(m, fs, words, j - 1);
        let c = words_items(m, fs, words, j);
        assert(c == b + word_block(m, fs, words, j - 1));
        assert(c.take(a.len() as int) =~= b.take(a.len() as int));
    } else {
        let a = words_items(m, fs, words, k);
        assert(a.take(a.len() as int) =~= a);
    }
}

/// Item `3k + t` of a paragraph is item `t` of the block of word `k`.
proof fn lemma_paragraph_item(m: FontMetrics, fs: Length, words: Seq<Seq<char>>, k: int, t: int)
    requires
        0 <= k < words.len(),
        0 <= t < word_block(m, fs, words, k).len(),
    ensures
        paragraph_items(m, fs, words)[3 * k + t] == word_block(m, fs, words, k)[t],
        3 * k + t < paragraph_items(m, fs, words).len(),
{
    let n = words.len() as int;
    lemma_words_items_len(m, fs, words, k);
    lemma_words_items_prefix(m, fs, words, k + 1, n);
    let pre = words_items(m, fs, words, k + 1);
    let all = words_items(m, fs, words, n);
    assert(pre == words_items(m, fs, words, k) + word_block(m, fs, words, k));
    assert(pre[3 * k + t] == word_block(m, fs, words, k)[t]);
    assert(all.take(pre.len() as int)[3 * k + t] == pre[3 * k + t]);
    assert(paragraph_items(m, fs, words)[3 * k + t] == all[3 * k + t]);
}

/// The split that breaks after every word.
pub open spec fn word_split(words: Seq<Seq<char>>, n: int) -> Seq<int> {
    Seq::new(words.len() + 1, |i: int| if i < words.len() { 3 * i } else { n })
}

/// When every word fits, breaking after every word is a feasible split of the whole paragraph.
proof fn lemma_word_split_valid(m: FontMetrics, fs: Length, words: Seq<Seq<char>>, max_width: int)
    requires
        words.len() > 0,
        words_fit(m, fs, words, max_width),
    ensures
        valid_split(paragraph_items(m, fs, words), max_width,
            word_split(words, paragraph_items(m, fs, words).len() as int)),
        word_split(words, paragraph_items(m, fs, words).len() as int).last() == paragraph_items(m, fs, words).len(),
{
    let items = paragraph_items(m, fs, words);
    let nw = words.len() as int;
    let n = items.len() as int;
    let p = word_split(words, n);
    lemma_words_items_len(m, fs, words, nw);
    assert(n == 3 * nw - 1);
    assert forall|j: int| 0 < j < p.len() implies #[trigger] fits_line(items, max_width, p[j - 1], p[j]) by {
        let b = 3 * (j - 1);
        assert(p[j - 1] == b);
        lemma_paragraph_item(m, fs, words, j - 1, 0);
        assert(items[b] is Box);
        if j >= 2 {
            lemma_paragraph_item(m, fs, words, j - 2, 2);
            assert(items[b - 1] is Penalty);
        }
        assert(text_width(m, words[j - 1], fs)
            + (if j - 1 < nw - 1 { text_width(m, seq![' '], fs) } else { 0 }) <= max_width);
        if j < nw {
            lemma_paragraph_item(m, fs, words, j - 1, 1);
            lemma_paragraph_item(m, fs, words, j - 1, 2);
            assert(p[j] == b + 3);
            assert(items[b + 2] is Penalty);
            assert(span_width(items, b, b + 2) == item_width(items[b]) + item_width(items[b + 1])) by {
                assert(span_width(items, b, b) == 0);
                assert(span_width(items, b, b + 1) == item_width(items[b]));
            }
        } else {
            assert(p[j] == n);
            assert(n == b + 2);
            assert(items[b + 1] == final_penalty());
            assert(span_width(items, b, b + 1) == item_width(items[b])) by {
                assert(span_width(items, b, b) == 0);
            }
        }
    }
}

/// Breaking loses no word when every word, with the space after it, fits on the widest line
/// allowed: the lines joined by spaces are the paragraph's words joined by spaces.
pub proof fn law_lines_keep_all_words_that_fit(breaker: KnuthPlassBreaker, text: Seq<char>, traits: TraitSet)
    requires
        words_fit(breaker.metrics_for(traits), font_size_for(traits), words_of(text), max_line_width(breaker.line_width)),
    ensures
        join_words(breaker.paragraph_lines(text, traits)) == join_words(words_of(text)),
{
    let m = breaker.metrics_for(traits);
    let fs = font_size_for(traits);
    let words = words_of(text);
    let mw = max_line_width(breaker.line_width);
    let lw = breaker.line_width.mp();
    let items = breaker.paragraph(text, traits);
    let n = items.len() as int;
    lemma_chosen_valid(items, mw, lw);
    if words.len() > 0 {
        lemma_word_split_valid(m, fs, words, mw);
        law_breaks_least_demerits(items, mw, lw, word_split(words, n));
        law_lines_keep_all_words(breaker, text, traits);
    } else {
        assert(items == seq![final_penalty()]);
        let bps = breaker.paragraph_breaks(text, traits);
        if bps.last() == 1 {
            law_lines_keep_all_words(breaker, text, traits);
        } else {
            lemma_split_ordered(items, mw, bps);
            assert(bps.last() == 0);
            if bps.len() > 1 {
                lemma_split_increasing(items, mw, bps, 0, bps.len() - 1);
            }
            assert(bps =~= seq![0int]);
            assert(line_text(items, 0, 0) =~= Seq::<char>::empty());
            assert(lines_upto(items, bps, 0) =~= Seq::<Seq<char>>::empty());
            assert(breaker.paragraph_lines(text, traits) =~= Seq::<Seq<char>>::empty());
        }
    }
}

/// Law: the demerits of a line are the square of the gap between its natural width and the
/// line width, whether it falls short or runs over: a line of exactly the line width costs
/// nothing, and any other line, an overfull one included, costs more than nothing; lines as
/// far over the line width as others are under it cost the same.
pub proof fn law_line_demerits(items: Seq<ItemModel>, line_width: int, a: int, b: int)
    ensures
        line_cost(items, line_width, a, b)
            == (line_width_between(items, a, b) - line_width) * (line_width_between(items, a, b) - line_width),
        line_width_between(items, a, b) == line_width ==> line_cost(items, line_width, a, b) == 0,
        line_width_between(items, a, b) > line_width ==> line_cost(items, line_width, a, b)
            >= line_width_between(items, a, b) - line_width > 0,
        line_width_between(items, a, b) < line_width ==> line_cost(items, line_width, a, b)
            >= line_width - line_width_between(items, a, b) > 0,
{
    let d = line_width_between(items, a, b) - line_width;
    assert(d > 0 ==> d * d >= d) by (nonlinear_arith);
    assert(d < 0 ==> d * d >= -d) by (nonlinear_arith);
}

} // verus!
