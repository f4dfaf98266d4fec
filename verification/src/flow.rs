//! Pagination of a single-column flow: the blocks of the flow, already laid out, are
//! stacked on pages; a block that overflows the page body moves to a fresh page together
//! with the blocks glued to it by keep constraints, and forced breaks (with their page
//! parity) start new pages.

use vstd::prelude::*;
use crate::area::{AreaId, AreaTree, BreakValue};
use crate::engine::LayoutEngine;
use crate::page_master::PageRegionGeometry;
use crate::length::Length;
use crate::page_break::{
    all_block_facts, fill_parity, flow_blocks, forces_page, same_but_y, BlockFacts, PageBreaker,
};
use crate::pagination::{fits_i32, parity_needs_blank_page};
use crate::page_break::{lemma_block_placed, same_node};

verus! {

/// The state of flow pagination after some blocks: the pages opened so far, the stacking
/// cursor on the current page, the index of the first block on the current page, and for
/// each block placed its page index (from 0) and vertical offset in the page body.
pub struct FlowState {
    pub pages: nat,
    pub cur: int,
    pub first: int,
    pub spots: Seq<(int, int)>,
}

/// Scanning the blocks of the current page (from `first`) backward from `k`: the first
/// index before which a break is allowed, or `first`.
pub open spec fn glue_back(fs: Seq<BlockFacts>, first: int, k: int) -> int
    decreases k - first,
{
    if k <= first {
        first
    } else if fs[k].can_break {
        k
    } else {
        glue_back(fs, first, k - 1)
    }
}

/// The first block that moves when block `i` overflows the page whose blocks start at
/// `first`: the start of the run glued to `i`, or `i` alone when the whole page is one run
/// of several blocks.
pub open spec fn moving_from(fs: Seq<BlockFacts>, first: int, i: int) -> int {
    let g = glue_back(fs, first, i);
    if g == first && i - first > 0 { i } else { g }
}

/// Restacks blocks `from..to` on page `page`, starting at offset `y`, each directly below
/// the previous; gives the spots and the offset below the last block.
pub open spec fn restacked(fs: Seq<BlockFacts>, spots: Seq<(int, int)>, from: int, to: int, page: int, y: int)
    -> (Seq<(int, int)>, int)
    decreases to - from,
{
    if from >= to {
        (spots, y)
    } else {
        restacked(fs, spots.update(from, (page, y)), from + 1, to, page, y + fs[from].height)
    }
}

/// Whether a forced break before block `i` starts a fresh page in state `s`: only when the
/// current page already holds blocks or the cursor has left its top.
pub open spec fn flow_breaks_before(s: FlowState, f: BlockFacts, i: int) -> bool {
    forces_page(f.break_before) && (i - s.first > 0 || s.cur > 0)
}

/// Placement of block `i` of `fs` in state `s` when the page body is `ch` high.
pub open spec fn flow_step(s: FlowState, fs: Seq<BlockFacts>, i: int, ch: int) -> FlowState {
    let f = fs[i];
    let s1 = if flow_breaks_before(s, f, i) {
        FlowState { pages: fill_parity(s.pages + 1, f.break_before->0), cur: 0, first: i, spots: s.spots }
    } else {
        s
    };
    let spots = s1.spots.push(((s1.pages - 1) as int, s1.cur));
    let s2 = if s1.cur + f.height > ch && s1.cur > 0 {
        let start = moving_from(fs, s1.first, i);
        let moved = restacked(fs, spots, start, i + 1, s1.pages as int, 0);
        FlowState { pages: s1.pages + 1, cur: moved.1, first: start, spots: moved.0 }
    } else {
        FlowState { pages: s1.pages, cur: s1.cur + f.height, first: s1.first, spots }
    };
    if forces_page(f.break_after) {
        FlowState { pages: fill_parity(s2.pages + 1, f.break_after->0), cur: 0, first: i + 1, spots: s2.spots }
    } else {
        s2
    }
}

/// The state after the first `n` blocks of `fs`.
pub open spec fn flow_upto(fs: Seq<BlockFacts>, n: nat, ch: int) -> FlowState
    decreases n,
{
    if n == 0 {
        FlowState { pages: 1, cur: 0, first: 0, spots: Seq::empty() }
    } else {
        flow_step(flow_upto(fs, (n - 1) as nat, ch), fs, n - 1, ch)
    }
}

/// Pagination of all blocks of `fs` on pages whose body is `ch` high.
pub open spec fn flow_layout(fs: Seq<BlockFacts>, ch: int) -> FlowState {
    flow_upto(fs, fs.len(), ch)
}

/// Restacking keeps the length, puts blocks `from..to` on `page`, each directly below the
/// previous from offset `y`, leaves the others, and ends below the last block moved.
proof fn lemma_restacked(fs: Seq<BlockFacts>, spots: Seq<(int, int)>, from: int, to: int, page: int, y: int)
    requires
        0 <= from,
        to <= spots.len(),
        to <= fs.len(),
    ensures
        restacked(fs, spots, from, to, page, y).0.len() == spots.len(),
        forall|j: int| from <= j < to ==> (#[trigger] restacked(fs, spots, from, to, page, y).0[j]).0 == page,
        forall|j: int| 0 <= j < spots.len() && !(from <= j < to) ==>
            #[trigger] restacked(fs, spots, from, to, page, y).0[j] == spots[j],
        from < to ==> restacked(fs, spots, from, to, page, y).0[from].1 == y,
        forall|j: int| from <= j && j + 1 < to ==>
            (#[trigger] restacked(fs, spots, from, to, page, y).0[j + 1]).1
                == restacked(fs, spots, from, to, page, y).0[j].1 + fs[j].height,
        from < to ==> restacked(fs, spots, from, to, page, y).1
            == restacked(fs, spots, from, to, page, y).0[to - 1].1 + fs[to - 1].height,
        from >= to ==> restacked(fs, spots, from, to, page, y).1 == y,
    decreases to - from,
{
    if from < to {
        let sp2 = spots.update(from, (page, y));
        lemma_restacked(fs, sp2, from + 1, to, page, y + fs[from].height);
        let r = restacked(fs, spots, from, to, page, y).0;
        assert(r[from] == sp2[from]);
        if from + 1 < to {
            assert(r[from + 1].1 == y + fs[from].height);
        }
    }
}

/// What holds of every state of flow pagination: one spot per block, on an opened page;
/// the blocks from `first` on are on the last page, the earlier ones on earlier pages; a
/// page without blocks has its cursor at the top.
pub proof fn lemma_flow_inv(fs: Seq<BlockFacts>, n: nat, ch: int)
    requires
        n <= fs.len(),
    ensures
        ({
            let s = flow_upto(fs, n, ch);
            &&& s.spots.len() == n
            &&& s.pages >= 1
            &&& 0 <= s.first <= n
            &&& s.first == n ==> s.cur == 0
            &&& forall|j: int| 0 <= j < n ==> 0 <= (#[trigger] s.spots[j]).0 < s.pages
            &&& forall|j: int| s.first <= j < n ==> (#[trigger] s.spots[j]).0 == s.pages - 1
            &&& forall|j: int| 0 <= j < s.first ==> (#[trigger] s.spots[j]).0 < s.pages - 1
        }),
    decreases n,
{
    if n > 0 {
        let i = n - 1;
        lemma_flow_inv(fs, (n - 1) as nat, ch);
        let s = flow_upto(fs, (n - 1) as nat, ch);
        let f = fs[i];
        let s1 = if flow_breaks_before(s, f, i) {
            FlowState { pages: fill_parity(s.pages + 1, f.break_before->0), cur: 0, first: i, spots: s.spots }
        } else {
            s
        };
        let spots = s1.spots.push(((s1.pages - 1) as int, s1.cur));
        if s1.cur + f.height > ch && s1.cur > 0 {
            let start = moving_from(fs, s1.first, i);
            lemma_glue_back_range(fs, s1.first, i);
            lemma_restacked(fs, spots, start, i + 1, s1.pages as int, 0);
        }
    }
}

/// What pagination keeps between neighbouring blocks `j` and `j + 1`: they come in page
/// order; on one page the second sits directly below the first; a block that opens a page
/// sits at its top; a forced break before the second or after the first separates them.
pub open spec fn pair_ok(fs: Seq<BlockFacts>, sp: Seq<(int, int)>, j: int) -> bool {
    &&& sp[j].0 <= sp[j + 1].0
    &&& sp[j].0 == sp[j + 1].0 ==> sp[j + 1].1 == sp[j].1 + fs[j].height
    &&& sp[j].0 < sp[j + 1].0 ==> sp[j + 1].1 == 0
    &&& forces_page(fs[j + 1].break_before) ==> sp[j].0 < sp[j + 1].0
    &&& forces_page(fs[j].break_after) ==> sp[j].0 < sp[j + 1].0
}

/// No forced break separates blocks `j` and `j + 1`.
pub open spec fn unforced_between(fs: Seq<BlockFacts>, j: int) -> bool {
    !forces_page(fs[j + 1].break_before) && !forces_page(fs[j].break_after)
}

/// The shape of a pagination state after `n` blocks: every neighbouring pair is as
/// [`pair_ok`] says, the first block and the first block of the current page are at the
/// top, the cursor is below the last block of the current page, and no forced break
/// separates blocks of the current page.
pub open spec fn flow_shape(fs: Seq<BlockFacts>, s: FlowState, n: int) -> bool {
    &&& forall|j: int| 0 <= j && j + 1 < n ==> #[trigger] pair_ok(fs, s.spots, j)
    &&& n > 0 ==> s.spots[0].1 == 0
    &&& s.first < n ==> s.spots[s.first].1 == 0
    &&& s.first < n ==> s.cur == s.spots[n - 1].1 + fs[n - 1].height
    &&& forall|j: int| s.first <= j && j + 1 < n ==> #[trigger] unforced_between(fs, j)
}

/// Every state of flow pagination has the shape [`flow_shape`] describes.
proof fn lemma_flow_shape(fs: Seq<BlockFacts>, n: nat, ch: int)
    requires
        n <= fs.len(),
    ensures
        flow_shape(fs, flow_upto(fs, n, ch), n as int),
    decreases n,
{
    if n > 0 {
        let i = n - 1;
        lemma_flow_shape(fs, (n - 1) as nat, ch);
        lemma_flow_inv(fs, (n - 1) as nat, ch);
        lemma_flow_inv(fs, n, ch);
        let s = flow_upto(fs, (n - 1) as nat, ch);
        let f = fs[i];
        let bb = flow_breaks_before(s, f, i);
        let s1 = if bb {
            FlowState { pages: fill_parity(s.pages + 1, f.break_before->0), cur: 0, first: i, spots: s.spots }
        } else {
            s
        };
        // After a possible break before block i, the old state's facts carry over, and the
        // pairs of the current page are still unforced.
        assert(s1.first <= i);
        assert(s1.first == i ==> s1.cur == 0);
        assert(forall|j: int| 0 <= j < i ==> 0 <= (#[trigger] s1.spots[j]).0 < s1.pages - 1 || (s1.first <= j && s1.spots[j].0 == s1.pages - 1));
        assert(forall|j: int| s1.first <= j < i ==> (#[trigger] s1.spots[j]).0 == s1.pages - 1);
        assert(forall|j: int| 0 <= j < s1.first ==> (#[trigger] s1.spots[j]).0 < s1.pages - 1);
        assert(forces_page(f.break_before) ==> s1.first == i);
        let spots = s1.spots.push(((s1.pages - 1) as int, s1.cur));
        let over = s1.cur + f.height > ch && s1.cur > 0;
        let s2 = if over {
            let start = moving_from(fs, s1.first, i);
            let moved = restacked(fs, spots, start, i + 1, s1.pages as int, 0);
            FlowState { pages: s1.pages + 1, cur: moved.1, first: start, spots: moved.0 }
        } else {
            FlowState { pages: s1.pages, cur: s1.cur + f.height, first: s1.first, spots }
        };
        if over {
            let start = moving_from(fs, s1.first, i);
            lemma_glue_back_range(fs, s1.first, i);
            lemma_restacked(fs, spots, start, i + 1, s1.pages as int, 0);
            assert(s1.first < start || start == i);
            assert forall|j: int| 0 <= j && j + 1 < n implies #[trigger] pair_ok(fs, s2.spots, j) by {
                if j + 1 < start {
                    assert(s2.spots[j] == spots[j]);
                    assert(s2.spots[j + 1] == spots[j + 1]);
                    assert(pair_ok(fs, s.spots, j));
                } else if j + 1 == start {
                    assert(s2.spots[j] == spots[j]);
                    if s1.first <= j {
                        assert(unforced_between(fs, j));
                    }
                } else {
                    if j + 1 < i {
                        assert(unforced_between(fs, j));
                    } else {
                        assert(s1.first < i);
                    }
                }
            }
            assert forall|j: int| s2.first <= j && j + 1 < n implies #[trigger] unforced_between(fs, j) by {
                if j + 1 < i {
                } else {
                    assert(s1.first < i);
                }
            }
            if start > 0 {
                assert(s2.spots[0] == spots[0]);
            }
        } else {
            assert forall|j: int| 0 <= j && j + 1 < n implies #[trigger] pair_ok(fs, s2.spots, j) by {
                if j + 1 < i {
                    assert(pair_ok(fs, s.spots, j));
                } else {
                    if s1.first <= j {
                        assert(s1.first < i);
                    }
                }
            }
            assert forall|j: int| s2.first <= j && j + 1 < n implies #[trigger] unforced_between(fs, j) by {
                if j + 1 < i {
                } else {
                    assert(s1.first < i);
                }
            }
        }
        assert(flow_upto(fs, n, ch) == (if forces_page(f.break_after) {
            FlowState { pages: fill_parity(s2.pages + 1, f.break_after->0), cur: 0, first: i + 1, spots: s2.spots }
        } else {
            s2
        }));
    }
}

/// Page indices do not decrease from block `j` to block `k`.
proof fn lemma_pages_ordered(fs: Seq<BlockFacts>, sp: Seq<(int, int)>, j: int, k: int)
    requires
        0 <= j <= k < sp.len(),
        forall|m: int| 0 <= m && m + 1 < sp.len() ==> #[trigger] pair_ok(fs, sp, m),
    ensures
        sp[j].0 <= sp[k].0,
    decreases k - j,
{
    if j < k {
        assert(pair_ok(fs, sp, k - 1));
        lemma_pages_ordered(fs, sp, j, k - 1);
    }
}

/// Law: flow pagination places every block once, on one of the pages it opens, and the
/// blocks come in flow order: a later block is never on an earlier page.
pub proof fn law_flow_blocks_in_page_order(fs: Seq<BlockFacts>, ch: int, j: int, k: int)
    requires
        0 <= j <= k < fs.len(),
    ensures
        flow_layout(fs, ch).spots.len() == fs.len(),
        0 <= flow_layout(fs, ch).spots[j].0 <= flow_layout(fs, ch).spots[k].0 < flow_layout(fs, ch).pages,
{
    lemma_flow_inv(fs, fs.len(), ch);
    lemma_flow_shape(fs, fs.len(), ch);
    lemma_pages_ordered(fs, flow_layout(fs, ch).spots, j, k);
}

/// Law: blocks on one page are stacked: a block on the same page as the one before it sits
/// directly below it.
pub proof fn law_flow_blocks_stack(fs: Seq<BlockFacts>, ch: int, j: int)
    requires
        0 <= j,
        j + 1 < fs.len(),
    ensures
        flow_layout(fs, ch).spots[j].0 == flow_layout(fs, ch).spots[j + 1].0 ==>
            flow_layout(fs, ch).spots[j + 1].1 == flow_layout(fs, ch).spots[j].1 + fs[j].height,
{
    lemma_flow_shape(fs, fs.len(), ch);
    assert(pair_ok(fs, flow_layout(fs, ch).spots, j));
}

/// Law: the first block of the flow, and every block that opens a page, sits at the top of
/// the page body.
pub proof fn law_flow_page_starts_at_top(fs: Seq<BlockFacts>, ch: int, j: int)
    requires
        0 <= j < fs.len(),
        j == 0 || flow_layout(fs, ch).spots[j - 1].0 < flow_layout(fs, ch).spots[j].0,
    ensures
        flow_layout(fs, ch).spots[j].1 == 0,
{
    lemma_flow_shape(fs, fs.len(), ch);
    if j > 0 {
        assert(pair_ok(fs, flow_layout(fs, ch).spots, j - 1));
    }
}

/// Law: a forced break before a block puts it on a later page than the block before it.
pub proof fn law_flow_forced_break_before(fs: Seq<BlockFacts>, ch: int, j: int)
    requires
        0 < j < fs.len(),
        forces_page(fs[j].break_before),
    ensures
        flow_layout(fs, ch).spots[j - 1].0 < flow_layout(fs, ch).spots[j].0,
{
    lemma_flow_shape(fs, fs.len(), ch);
    assert(pair_ok(fs, flow_layout(fs, ch).spots, j - 1));
}

/// Law: a forced break after a block puts the next block on a later page.
pub proof fn law_flow_forced_break_after(fs: Seq<BlockFacts>, ch: int, j: int)
    requires
        0 <= j,
        j + 1 < fs.len(),
        forces_page(fs[j].break_after),
    ensures
        flow_layout(fs, ch).spots[j].0 < flow_layout(fs, ch).spots[j + 1].0,
{
    lemma_flow_shape(fs, fs.len(), ch);
    assert(pair_ok(fs, flow_layout(fs, ch).spots, j));
}

/// Whether page number `n` (from 1) has the parity that break value `b` asks for.
pub open spec fn parity_ok(b: BreakValue, n: int) -> bool {
    &&& b is EvenPage ==> n % 2 == 0
    &&& b is OddPage ==> n % 2 == 1
}

/// The page parities that forced breaks ask for hold in every state: the block after a
/// forced break-after, and a block with a forced break-before not preceded by one, open a
/// page of the parity asked for; an empty current page after a forced break-after has it.
proof fn lemma_flow_parity(fs: Seq<BlockFacts>, n: nat, ch: int)
    requires
        n <= fs.len(),
    ensures
        ({
            let s = flow_upto(fs, n, ch);
            &&& forall|j: int| 0 <= j && j + 1 < n && forces_page(#[trigger] fs[j].break_after) ==>
                parity_ok(fs[j].break_after->0, s.spots[j + 1].0 + 1)
            &&& forall|j: int| 0 < j < n && forces_page(#[trigger] fs[j].break_before) && !forces_page(fs[j - 1].break_after) ==>
                parity_ok(fs[j].break_before->0, s.spots[j].0 + 1)
            &&& n > 0 && s.first == n ==> forces_page(fs[n - 1].break_after) && parity_ok(fs[n - 1].break_after->0, s.pages as int)
        }),
    decreases n,
{
    if n > 0 {
        let i = n - 1;
        lemma_flow_parity(fs, (n - 1) as nat, ch);
        lemma_flow_shape(fs, (n - 1) as nat, ch);
        lemma_flow_inv(fs, (n - 1) as nat, ch);
        lemma_flow_shape(fs, n, ch);
        let s = flow_upto(fs, (n - 1) as nat, ch);
        let f = fs[i];
        let bb = flow_breaks_before(s, f, i);
        let s1 = if bb {
            FlowState { pages: fill_parity(s.pages + 1, f.break_before->0), cur: 0, first: i, spots: s.spots }
        } else {
            s
        };
        let spots = s1.spots.push(((s1.pages - 1) as int, s1.cur));
        let over = s1.cur + f.height > ch && s1.cur > 0;
        let s2 = if over {
            let start = moving_from(fs, s1.first, i);
            let moved = restacked(fs, spots, start, i + 1, s1.pages as int, 0);
            FlowState { pages: s1.pages + 1, cur: moved.1, first: start, spots: moved.0 }
        } else {
            FlowState { pages: s1.pages, cur: s1.cur + f.height, first: s1.first, spots }
        };
        // Blocks up to the first block of the current page keep their spots.
        assert(s.first <= s1.first <= i);
        if over {
            let start = moving_from(fs, s1.first, i);
            lemma_glue_back_range(fs, s1.first, i);
            lemma_restacked(fs, spots, start, i + 1, s1.pages as int, 0);
            assert(s1.first < i);
            assert(s1.first < start);
        }
        assert(forall|j: int| 0 <= j <= s1.first && j < i ==> #[trigger] s2.spots[j] == s.spots[j]);
        // The first block of the current page before the step sits at index s.first.
        assert forall|j: int| 0 <= j && j + 1 < n && forces_page(#[trigger] fs[j].break_after) implies
            parity_ok(fs[j].break_after->0, s2.spots[j + 1].0 + 1) by {
            if j + 1 < i {
                assert(j < s.first) by {
                    if s.first <= j {
                        assert(unforced_between(fs, j));
                    }
                }
                assert(s2.spots[j + 1] == s.spots[j + 1]);
            } else {
                assert(j + 1 == i);
                assert(s.first == i) by {
                    if s.first < i {
                        assert(unforced_between(fs, j));
                    }
                }
                assert(!bb);
            }
        }
        assert forall|j: int| 0 < j < n && forces_page(#[trigger] fs[j].break_before) && !forces_page(fs[j - 1].break_after) implies
            parity_ok(fs[j].break_before->0, s2.spots[j].0 + 1) by {
            if j < i {
                assert(j <= s.first) by {
                    if s.first < j {
                        assert(unforced_between(fs, j - 1));
                    }
                }
                assert(s2.spots[j] == s.spots[j]);
            } else {
                assert(s.first < i) by {
                    if s.first == i {
                        assert(forces_page(fs[i - 1].break_after));
                    }
                }
                assert(bb);
            }
        }
    }
}

/// Law: the block after a forced even-page or odd-page break-after lands on a page of that
/// parity (pages numbered from 1).
pub proof fn law_flow_break_after_parity(fs: Seq<BlockFacts>, ch: int, j: int)
    requires
        0 <= j,
        j + 1 < fs.len(),
        forces_page(fs[j].break_after),
    ensures
        parity_ok(fs[j].break_after->0, flow_layout(fs, ch).spots[j + 1].0 + 1),
{
    lemma_flow_parity(fs, fs.len(), ch);
}

/// Law: a block with a forced even-page or odd-page break-before, when the block before it
/// has no forced break-after, lands on a page of that parity (pages numbered from 1).
pub proof fn law_flow_break_before_parity(fs: Seq<BlockFacts>, ch: int, j: int)
    requires
        0 < j < fs.len(),
        forces_page(fs[j].break_before),
        !forces_page(fs[j - 1].break_after),
    ensures
        parity_ok(fs[j].break_before->0, flow_layout(fs, ch).spots[j].0 + 1),
{
    lemma_flow_parity(fs, fs.len(), ch);
}

/// What [`glue_back`] finds: a block before which a break is allowed (or `first`), with
/// every block after it up to `k` glued to its predecessor.
proof fn lemma_glue_back_facts(fs: Seq<BlockFacts>, first: int, k: int)
    requires
        first <= k,
    ensures
        glue_back(fs, first, k) > first ==> fs[glue_back(fs, first, k)].can_break,
        forall|m: int| glue_back(fs, first, k) < m <= k ==> !(#[trigger] fs[m].can_break),
    decreases k - first,
{
    if k > first && !fs[k].can_break {
        lemma_glue_back_facts(fs, first, k - 1);
    }
}

/// Block `k` is glued to block `k - 1` (no break allowed before it, no forced break between
/// them) and yet lands on a later page.
pub open spec fn split_glued(fs: Seq<BlockFacts>, sp: Seq<(int, int)>, k: int) -> bool {
    &&& !fs[k].can_break
    &&& unforced_between(fs, k - 1)
    &&& sp[k - 1].0 < sp[k].0
}

/// Every block on the page of block `k - 1`, but the one that opens it, is glued to its
/// predecessor.
pub open spec fn page_glued(fs: Seq<BlockFacts>, sp: Seq<(int, int)>, k: int) -> bool {
    forall|m: int| 0 < m < k && sp[m - 1].0 == sp[k - 1].0 ==> !(#[trigger] fs[m].can_break)
}

/// In every state, a glued pair split over two pages comes from a page that was one glued
/// run, and lies before the current page.
proof fn lemma_flow_glue(fs: Seq<BlockFacts>, n: nat, ch: int)
    requires
        n <= fs.len(),
    ensures
        forall|k: int| 0 < k < n && #[trigger] split_glued(fs, flow_upto(fs, n, ch).spots, k) ==>
            page_glued(fs, flow_upto(fs, n, ch).spots, k) && k <= flow_upto(fs, n, ch).first,
    decreases n,
{
    if n > 0 {
        let i = n - 1;
        lemma_flow_glue(fs, (n - 1) as nat, ch);
        lemma_flow_parity(fs, (n - 1) as nat, ch);
        lemma_flow_shape(fs, (n - 1) as nat, ch);
        lemma_flow_inv(fs, (n - 1) as nat, ch);
        let s = flow_upto(fs, (n - 1) as nat, ch);
        let f = fs[i];
        let bb = flow_breaks_before(s, f, i);
        let s1 = if bb {
            FlowState { pages: fill_parity(s.pages + 1, f.break_before->0), cur: 0, first: i, spots: s.spots }
        } else {
            s
        };
        let spots = s1.spots.push(((s1.pages - 1) as int, s1.cur));
        let over = s1.cur + f.height > ch && s1.cur > 0;
        let s2 = if over {
            let start = moving_from(fs, s1.first, i);
            let moved = restacked(fs, spots, start, i + 1, s1.pages as int, 0);
            FlowState { pages: s1.pages + 1, cur: moved.1, first: start, spots: moved.0 }
        } else {
            FlowState { pages: s1.pages, cur: s1.cur + f.height, first: s1.first, spots }
        };
        let lo = if over { moving_from(fs, s1.first, i) } else { i };
        if over {
            let start = moving_from(fs, s1.first, i);
            lemma_glue_back_range(fs, s1.first, i);
            lemma_glue_back_facts(fs, s1.first, i);
            lemma_restacked(fs, spots, start, i + 1, s1.pages as int, 0);
            assert(s1.first < i);
            assert(s1.first < start);
        }
        assert(forall|j: int| 0 <= j < lo ==> #[trigger] s2.spots[j] == s.spots[j]);
        assert(s.first <= s2.first);
        assert forall|k: int| 0 < k < n && #[trigger] split_glued(fs, s2.spots, k) implies
            page_glued(fs, s2.spots, k) && k <= s2.first by {
            if k < lo {
                assert(s2.spots[k - 1] == s.spots[k - 1]);
                assert(s2.spots[k] == s.spots[k]);
                assert(split_glued(fs, s.spots, k));
                assert forall|m: int| 0 < m < k && s2.spots[m - 1].0 == s2.spots[k - 1].0 implies !(#[trigger] fs[m].can_break) by {
                    assert(s2.spots[m - 1] == s.spots[m - 1]);
                    assert(page_glued(fs, s.spots, k));
                }
            } else if k < i {
                assert(over);
                if k - 1 >= lo {
                    assert(s2.spots[k - 1].0 == s2.spots[k].0);
                } else {
                    assert(k == lo);
                    assert(fs[k].can_break);
                }
            } else {
                assert(k == i);
                assert(!bb);
                assert(s.first < i) by {
                    if s.first == i {
                        assert(forces_page(fs[i - 1].break_after));
                    }
                }
                if !over {
                    assert(s2.spots[i - 1] == s.spots[i - 1]);
                    assert(s.spots[i - 1].0 == s.pages - 1);
                } else {
                    let start = moving_from(fs, s1.first, i);
                    if start < i {
                        assert(s2.spots[i - 1].0 == s2.spots[i].0);
                    } else {
                        assert(glue_back(fs, s1.first, i) == s1.first);
                        assert(s2.spots[i - 1] == s.spots[i - 1]);
                        assert(s.spots[i - 1].0 == s.pages - 1);
                        assert forall|m: int| 0 < m < k && s2.spots[m - 1].0 == s2.spots[k - 1].0 implies !(#[trigger] fs[m].can_break) by {
                            assert(s2.spots[m - 1] == s.spots[m - 1]);
                            assert(s.first <= m - 1);
                        }
                    }
                }
            }
        }
    }
}

/// Law: keep constraints hold glued blocks together. When a block that may not be
/// separated from the one before it (and no forced break stands between them) still lands
/// on a later page, the page it leaves was one glued run: every block on it but the one
/// that opens it is glued to its predecessor.
pub proof fn law_flow_glued_blocks_split_only_from_glued_page(fs: Seq<BlockFacts>, ch: int, k: int)
    requires
        0 < k < fs.len(),
        !fs[k].can_break,
        unforced_between(fs, k - 1),
        flow_layout(fs, ch).spots[k - 1].0 < flow_layout(fs, ch).spots[k].0,
    ensures
        forall|m: int| 0 < m < k && flow_layout(fs, ch).spots[m - 1].0 == flow_layout(fs, ch).spots[k - 1].0
            ==> !(#[trigger] fs[m].can_break),
{
    lemma_flow_glue(fs, fs.len(), ch);
    assert(split_glued(fs, flow_layout(fs, ch).spots, k));
}

/// [`glue_back`] stays between `first` and `k`.
proof fn lemma_glue_back_range(fs: Seq<BlockFacts>, first: int, k: int)
    requires
        first <= k,
    ensures
        first <= glue_back(fs, first, k) <= k,
    decreases k - first,
{
    if k > first && !fs[k].can_break {
        lemma_glue_back_range(fs, first, k - 1);
    }
}

/// The spots held as machine integers, read as integers.
pub open spec fn spots_view(v: Seq<(usize, i128)>) -> Seq<(int, int)> {
    Seq::new(v.len(), |j: int| (v[j].0 as int, v[j].1 as int))
}

/// The largest magnitude of a block height.
pub open spec fn height_bound() -> int {
    0x8000_0000
}

/// The number of blocks a flow may have.
pub open spec fn flow_limit() -> int {
    0x0800_0000
}

/// The scan for the start of the glued run at the end of the current page equals
/// [`glue_back`].
fn glue_scan(breaker: &PageBreaker, area_tree: &AreaTree, blocks: &Vec<AreaId>, first: usize, i: usize,
    Ghost(fs): Ghost<Seq<BlockFacts>>) -> (r: usize)
    requires
        first <= i < blocks@.len(),
        fs == all_block_facts(*area_tree, blocks@),
    ensures
        r == glue_back(fs, first as int, i as int),
        first <= r <= i,
{
    let mut g = i;
    while g > first
        invariant
            first <= g <= i < blocks@.len(),
            fs == all_block_facts(*area_tree, blocks@),
            glue_back(fs, first as int, g as int) == glue_back(fs, first as int, i as int),
        decreases g,
    {
        if breaker.can_break_before(area_tree, blocks[g], g, blocks) {
            proof { assert(fs[g as int].can_break); }
            return g;
        }
        g = g - 1;
    }
    g
}

/// Restacks blocks `start..=i` on page `page_index` from the top of the body, each directly
/// below the previous, and returns the offset below the last.
fn restack_run(area_tree: &AreaTree, blocks: &Vec<AreaId>, spots: &mut Vec<(usize, i128)>, start: usize,
    i: usize, page_index: usize, Ghost(fs): Ghost<Seq<BlockFacts>>) -> (y: i128)
    requires
        start <= i < blocks@.len(),
        blocks@.len() < flow_limit(),
        fs == all_block_facts(*area_tree, blocks@),
        forall|k: int| 0 <= k < blocks@.len() ==> area_tree.valid_id(#[trigger] blocks@[k]),
        old(spots)@.len() == i + 1,
        forall|k: int| 0 <= k < i + 1 ==> -(i + 1) * height_bound() <= (#[trigger] old(spots)@[k]).1 <= (i + 1) * height_bound(),
    ensures
        final(spots)@.len() == i + 1,
        forall|k: int| 0 <= k < i + 1 ==> -(i + 1) * height_bound() <= (#[trigger] final(spots)@[k]).1 <= (i + 1) * height_bound(),
        -(i + 1 - start) * height_bound() <= y <= (i + 1 - start) * height_bound(),
        restacked(fs, spots_view(old(spots)@), start as int, i as int + 1, page_index as int, 0)
            == (spots_view(final(spots)@), y as int),
{
    let mut y: i128 = 0;
    let mut j: usize = start;
    let ghost target = restacked(fs, spots_view(spots@), start as int, i as int + 1, page_index as int, 0);
    while j <= i
        invariant
            start <= j <= i + 1,
            i < blocks@.len(),
            blocks@.len() < flow_limit(),
            fs == all_block_facts(*area_tree, blocks@),
            forall|k: int| 0 <= k < blocks@.len() ==> area_tree.valid_id(#[trigger] blocks@[k]),
            spots@.len() == i + 1,
            -(j - start) * height_bound() <= y <= (j - start) * height_bound(),
            forall|k: int| 0 <= k < i + 1 ==> -(i + 1) * height_bound() <= (#[trigger] spots@[k]).1 <= (i + 1) * height_bound(),
            restacked(fs, spots_view(spots@), j as int, i as int + 1, page_index as int, y as int) == target,
        decreases i + 1 - j,
    {
        let hj: i128 = match area_tree.get(blocks[j]) {
            Some(node) => node.area.height().millipoints() as i128,
            None => { proof { assert(false); } 0 },
        };
        proof {
            assert(fs[j as int].height == hj);
            assert(spots_view(spots@).update(j as int, (page_index as int, y as int))
                =~= spots_view(spots@.update(j as int, (page_index, y))));
        }
        spots.set(j, (page_index, y));
        y = y + hj;
        j = j + 1;
    }
    y
}

/// Pagination of the blocks `blocks` (all areas of `area_tree`) on pages whose body is
/// `content_height` high: the number of pages and the spot of each block.
fn plan_flow(breaker: &PageBreaker, area_tree: &AreaTree, blocks: &Vec<AreaId>, content_height: Length)
    -> (r: (usize, Vec<(usize, i128)>))
    requires
        forall|j: int| 0 <= j < blocks@.len() ==> area_tree.valid_id(#[trigger] blocks@[j]),
        blocks@.len() < flow_limit(),
    ensures
        r.0 == flow_layout(all_block_facts(*area_tree, blocks@), content_height.mp()).pages,
        spots_view(r.1@) == flow_layout(all_block_facts(*area_tree, blocks@), content_height.mp()).spots,
{
    let ghost fs = all_block_facts(*area_tree, blocks@);
    let ghost ch = content_height.mp();
    let ch_val: i128 = content_height.millipoints() as i128;
    let n = blocks.len();
    let mut pages: usize = 1;
    let mut cur: i128 = 0;
    let mut first: usize = 0;
    let mut spots: Vec<(usize, i128)> = Vec::new();
    let mut i: usize = 0;
    proof {
        assert(spots_view(spots@) =~= Seq::<(int, int)>::empty());
    }
    while i < n
        invariant
            n == blocks@.len(),
            n < flow_limit(),
            fs == all_block_facts(*area_tree, blocks@),
            ch == content_height.mp(),
            ch_val == ch,
            forall|j: int| 0 <= j < blocks@.len() ==> area_tree.valid_id(#[trigger] blocks@[j]),
            i <= n,
            first <= i,
            1 <= pages <= 1 + 5 * i,
            -(i - first) * height_bound() <= cur <= (i - first) * height_bound(),
            spots@.len() == i,
            forall|j: int| 0 <= j < i ==> -i * height_bound() <= (#[trigger] spots@[j]).1 <= i * height_bound(),
            flow_upto(fs, i as nat, ch).pages == pages,
            flow_upto(fs, i as nat, ch).cur == cur,
            flow_upto(fs, i as nat, ch).first == first,
            flow_upto(fs, i as nat, ch).spots == spots_view(spots@),
        decreases n - i,
    {
        let ghost s = flow_upto(fs, i as nat, ch);
        let ghost f = fs[i as int];
        let child = blocks[i];
        let (h, bb, ba) = match area_tree.get(child) {
            Some(node) => (node.area.height(), node.area.break_before, node.area.break_after),
            None => { proof { assert(false); } (Length::zero(), None, None) },
        };
        let hh: i128 = h.millipoints() as i128;
        proof {
            assert(f.height == hh);
            assert(f.break_before == bb);
            assert(f.break_after == ba);
        }
        // A forced break before the block starts a fresh page (of the right parity) when
        // the current page is not empty.
        if let Some(b) = bb {
            if b.forces_page_break() && (i > first || cur > 0) {
                pages = pages + 1;
                if parity_needs_blank_page(b, pages) {
                    pages = pages + 1;
                }
                first = i;
                cur = 0;
            }
        }
        let ghost s1 = if flow_breaks_before(s, f, i as int) {
            FlowState { pages: fill_parity(s.pages + 1, f.break_before->0), cur: 0, first: i as int, spots: s.spots }
        } else {
            s
        };
        proof {
            assert(s1.pages == pages && s1.cur == cur && s1.first == first);
        }
        let ghost spots0 = s1.spots.push(((s1.pages - 1) as int, s1.cur));
        spots.push((pages - 1, cur));
        proof {
            assert(spots_view(spots@) =~= spots0);
        }
        let bottom: i128 = cur + hh;
        if bottom > ch_val && cur > 0 {
            let g = glue_scan(breaker, area_tree, blocks, first, i, Ghost(fs));
            let start = if g == first && i > first { i } else { g };
            proof {
                assert(start == moving_from(fs, first as int, i as int));
            }
            let page_index = pages;
            let y = restack_run(area_tree, blocks, &mut spots, start, i, page_index, Ghost(fs));
            pages = pages + 1;
            cur = y;
            first = start;
        } else {
            cur = bottom;
        }
        // A forced break after the block starts a fresh page (of the right parity).
        if let Some(b) = ba {
            if b.forces_page_break() {
                pages = pages + 1;
                if parity_needs_blank_page(b, pages) {
                    pages = pages + 1;
                }
                first = i + 1;
                cur = 0;
            }
        }
        proof {
            assert(flow_upto(fs, (i + 1) as nat, ch) == flow_step(s, fs, i as int, ch));
        }
        i = i + 1;
    }
    (pages, spots)
}

/// The page margins around the body of `geom` fit in lengths: the bottom margin (page
/// height minus the body's top and height) and the right margin (page width minus the
/// body's left and width), and so do the page height below the body's top and the body's
/// right edge.
pub open spec fn margins_fit(geom: PageRegionGeometry) -> bool {
    &&& fits_i32(geom.page_height.mp() - geom.body_rect.y.mp())
    &&& fits_i32(geom.body_rect.x.mp() + geom.body_rect.width.mp())
    &&& fits_i32(geom.page_height.mp() - geom.body_rect.y.mp() - geom.body_rect.height.mp())
    &&& fits_i32(geom.page_width.mp() - geom.body_rect.x.mp() - geom.body_rect.width.mp())
}

impl LayoutEngine {
    /// The page breaker for pages of `geom`: its margins are those around the body, so the
    /// content box of its pages is the body.
    pub fn page_breaker_for(&self, geom: &PageRegionGeometry) -> (r: PageBreaker)
        requires
            margins_fit(*geom),
        ensures
            r.spec_page_width() == geom.page_width.mp(),
            r.spec_page_height() == geom.page_height.mp(),
            r.margin(0) == geom.body_rect.y.mp(),
            r.margin(3) == geom.body_rect.x.mp(),
            r.spec_content_height() == geom.body_rect.height.mp(),
            r.spec_content_width() == geom.body_rect.width.mp(),
            r.dims_fit(),
    {
        let body = geom.body_rect;
        let margin_top = body.y;
        let margin_left = body.x;
        let margin_bottom = Length::from_millipoints(
            (geom.page_height.millipoints() as i64 - body.y.millipoints() as i64 - body.height.millipoints() as i64) as i32);
        let margin_right = Length::from_millipoints(
            (geom.page_width.millipoints() as i64 - body.x.millipoints() as i64 - body.width.millipoints() as i64) as i32);
        let margins = [margin_top, margin_right, margin_bottom, margin_left];
        let r = PageBreaker::new(geom.page_width, geom.page_height, margins);
        proof {
            assert(r.margin(0) == margins[0].mp());
            assert(r.margin(1) == margins[1].mp());
            assert(r.margin(2) == margins[2].mp());
            assert(r.margin(3) == margins[3].mp());
        }
        r
    }
}

/// Whether some block of the flow would land at an offset that a length cannot hold.
pub open spec fn flow_out_of_range(p: FlowState, n: int) -> bool {
    exists|i: int| 0 <= i < n && !fits_i32(#[trigger] p.spots[i].1)
}

/// Checks that every spot's offset fits in a length.
fn spots_fit(spots: &Vec<(usize, i128)>) -> (r: bool)
    ensures
        r == (forall|j: int| 0 <= j < spots@.len() ==> fits_i32(#[trigger] spots_view(spots@)[j].1)),
{
    let n = spots.len();
    let mut i: usize = 0;
    while i < n
        invariant
            n == spots@.len(),
            i <= n,
            forall|j: int| 0 <= j < i ==> fits_i32(#[trigger] spots_view(spots@)[j].1),
        decreases n - i,
    {
        let y = spots[i].1;
        if y < i32::MIN as i128 || y > i32::MAX as i128 {
            proof {
                assert(!fits_i32(spots_view(spots@)[i as int].1));
            }
            return false;
        }
        i = i + 1;
    }
    true
}

impl LayoutEngine {
    /// Paginates a single-column flow whose blocks, already laid out, are the children of
    /// `flow_root`, on pages made by `breaker` (a page area with its region-body).
    ///
    /// The blocks are stacked in order from the top of the body of the current page. A
    /// forced break-before starts a fresh page when the current page holds blocks or its
    /// cursor left the top; a forced break-after always does; even-page and odd-page
    /// breaks add a blank page when the new page has the wrong parity. When a block that did
    /// not start at the top of the page reaches below the body, it moves to a fresh page
    /// together with the blocks before it that keep constraints glue to it (or alone, when
    /// the whole page is one glued run), restacked from the top; a block that starts at
    /// the top stays, clipped. Each block is moved under the region-body of the page it
    /// lands on, at its offset; the pages are returned in order.
    ///
    /// Fails, leaving the tree unchanged, when an offset does not fit in a length.
    pub fn paginate_flow(&self, breaker: &PageBreaker, area_tree: &mut AreaTree, flow_root: AreaId)
        -> (r: Result<Vec<AreaId>, String>)
        requires
            old(area_tree).wf(),
            breaker.dims_fit(),
            flow_blocks(*old(area_tree), flow_root).len() < flow_limit(),
        ensures
            final(area_tree).wf(),
            ({
                let blocks = flow_blocks(*old(area_tree), flow_root);
                let p = flow_layout(all_block_facts(*old(area_tree), blocks), breaker.spec_content_height());
                let base = old(area_tree).len();
                let t = *final(area_tree);
                &&& r is Err <==> flow_out_of_range(p, blocks.len() as int)
                &&& r is Err ==> t == *old(area_tree) && r->Err_0@ == "block offset out of range"@
                &&& r is Ok ==> {
                    &&& r->Ok_0@.len() == p.pages
                    &&& breaker.pages_ok(t, base, r->Ok_0@)
                    &&& forall|i: int| 0 <= i < blocks.len() ==> {
                        &&& t.parent_of((#[trigger] blocks[i]).0 as int) == Some(AreaId((base + 2 * p.spots[i].0 + 1) as usize))
                        &&& t.area_of(blocks[i].0 as int).geometry.y.mp() == p.spots[i].1
                    }
                    &&& forall|i: int| 0 <= i < base ==> #[trigger] same_but_y(t.area_of(i), old(area_tree).area_of(i))
                    &&& old(area_tree).valid_id(flow_root) ==> t.children_of(flow_root.0 as int).len() == 0
                }
            }),
    {
        let ghost t0 = *area_tree;
        let ghost base = t0.len();
        let ghost ch = breaker.spec_content_height();
        let children = area_tree.children(flow_root);
        let ghost blocks = children@;
        let ghost fs = all_block_facts(t0, blocks);
        proof {
            assert(blocks == flow_blocks(t0, flow_root));
            assert forall|j: int| 0 <= j < blocks.len() implies (#[trigger] blocks[j]).0 < base by {
                assert(t0.children_of(flow_root.0 as int)[j] == blocks[j]);
            }
            if t0.valid_id(flow_root) {
                assert(t0.children_of(flow_root.0 as int).no_duplicates());
            } else {
                assert(blocks.len() == 0);
            }
        }
        let content_height = breaker.content_height();
        let (page_count, spots) = plan_flow(breaker, area_tree, &children, content_height);
        let ghost p = flow_layout(fs, ch);
        proof {
            lemma_flow_inv(fs, fs.len(), ch);
            assert(p.spots == spots_view(spots@));
            assert(spots@.len() == blocks.len());
        }
        if !spots_fit(&spots) {
            proof {
                let j = choose|j: int| 0 <= j < spots@.len() && !fits_i32(#[trigger] spots_view(spots@)[j].1);
                assert(!fits_i32(p.spots[j].1));
            }
            return Err(String::from_str("block offset out of range"));
        }
        let mut page_ids: Vec<AreaId> = Vec::new();
        let mut k: usize = 0;
        proof {
            if flow_out_of_range(p, blocks.len() as int) {
                let j = choose|j: int| 0 <= j < blocks.len() && !fits_i32(#[trigger] p.spots[j].1);
                assert(!fits_i32(spots_view(spots@)[j].1));
            }
            assert forall|i: int| 0 <= i < base implies #[trigger] same_node(*area_tree, t0, i) by {}
        }
        while k < page_count
            invariant
                area_tree.wf(),
                breaker.dims_fit(),
                k <= page_count,
                page_ids@.len() == k,
                breaker.pages_ok(*area_tree, base, page_ids@),
                area_tree.len() >= base,
                forall|i: int| 0 <= i < base ==> #[trigger] same_node(*area_tree, t0, i),
            decreases page_count - k,
        {
            let ghost t_k = *area_tree;
            breaker.open_page(area_tree, &mut page_ids, Ghost(base));
            proof {
                assert forall|i: int| 0 <= i < base implies #[trigger] same_node(*area_tree, t0, i) by {
                    assert(same_node(*area_tree, t_k, i));
                    assert(same_node(t_k, t0, i));
                }
            }
            k = k + 1;
        }
        let n = children.len();
        let mut idx: usize = 0;
        proof {
            assert(blocks.skip(0) =~= blocks);
            assert forall|i: int| 0 <= i < base implies #[trigger] same_but_y(area_tree.area_of(i), t0.area_of(i)) by {
                assert(same_node(*area_tree, t0, i));
            }
            if t0.valid_id(flow_root) {
                assert(same_node(*area_tree, t0, flow_root.0 as int));
            }
        }
        while idx < n
            invariant
                n == blocks.len(),
                blocks == children@,
                t0.valid_id(flow_root) ==> blocks == t0.children_of(flow_root.0 as int),
                base == t0.len(),
                fs == all_block_facts(t0, blocks),
                p == flow_layout(fs, ch),
                p.spots == spots_view(spots@),
                p.pages == page_count,
                spots@.len() == n,
                forall|j: int| 0 <= j < n ==> 0 <= (#[trigger] p.spots[j]).0 < p.pages,
                forall|j: int| 0 <= j < n ==> fits_i32(#[trigger] spots_view(spots@)[j].1),
                breaker.dims_fit(),
                idx <= n,
                area_tree.wf(),
                breaker.pages_ok(*area_tree, base, page_ids@),
                page_ids@.len() == page_count,
                forall|i: int| 0 <= i < blocks.len() ==> (#[trigger] blocks[i]).0 < base,
                blocks.no_duplicates(),
                flow_root.0 < base || blocks.len() == 0,
                forall|i: int| 0 <= i < base ==> #[trigger] same_but_y(area_tree.area_of(i), t0.area_of(i)),
                t0.valid_id(flow_root) ==> area_tree.children_of(flow_root.0 as int) == blocks.skip(idx as int),
                forall|i: int| 0 <= i < idx ==> {
                    &&& area_tree.parent_of((#[trigger] blocks[i]).0 as int)
                        == Some(AreaId((base + 2 * p.spots[i].0 + 1) as usize))
                    &&& area_tree.area_of(blocks[i].0 as int).geometry.y.mp() == p.spots[i].1
                },
            decreases n - idx,
        {
            let child_id = children[idx];
            let (page_index, y) = spots[idx];
            proof {
                assert(p.spots[idx as int] == (page_index as int, y as int));
                assert(fits_i32(spots_view(spots@)[idx as int].1));
                assert(page_index < page_count);
                assert(breaker.page_ok_at(*area_tree, base, page_ids@, page_index as int));
            }
            let region_id = AreaId(page_ids[page_index].0 + 1);
            let ghost t_s = *area_tree;
            breaker.move_block(area_tree, child_id, region_id, Length::from_millipoints(y as i32), Ghost(base), Ghost(page_ids@));
            proof {
                assert(t0.valid_id(flow_root));
                assert forall|i: int| 0 <= i < t_s.len() implies #[trigger] same_node(*area_tree, *area_tree, i) by {}
                assert forall|i: int| 0 <= i < t_s.len() implies #[trigger] same_node(t_s, t_s, i) by {}
                lemma_block_placed(*area_tree, *area_tree, t_s, t_s, t0, blocks, idx as int, base,
                    child_id, region_id, flow_root, p.spots.take(idx as int), p.spots.take(idx as int + 1));
                assert forall|i: int| 0 <= i < idx + 1 implies {
                    &&& area_tree.parent_of((#[trigger] blocks[i]).0 as int)
                        == Some(AreaId((base + 2 * p.spots[i].0 + 1) as usize))
                    &&& area_tree.area_of(blocks[i].0 as int).geometry.y.mp() == p.spots[i].1
                } by {
                    assert(p.spots.take(idx as int + 1)[i] == p.spots[i]);
                }
            }
            idx = idx + 1;
        }
        proof {
            assert(blocks.skip(n as int) =~= Seq::<AreaId>::empty());
        }
        Ok(page_ids)
    }
}

} // verus!
