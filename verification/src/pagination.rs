//! Pieces of flow pagination that work on the area tree alone: the order of a page's
//! child areas, the run of blocks that keep constraints glue to the end of a page, and
//! moving such a run onto a fresh page.

use vstd::prelude::*;
use crate::area::{Area, AreaId, AreaTree, AreaType, BreakValue};
use crate::error::FopError;
use crate::length::Length;
use crate::page_break::{may_break_before, PageBreaker};

verus! {

/// Sibling rank of a page's child area: static regions first, then the body and its
/// columns, then everything else (footnote separator and footnotes).
pub open spec fn child_rank(t: AreaType) -> u8 {
    match t {
        AreaType::Header | AreaType::Footer | AreaType::SidebarStart | AreaType::SidebarEnd => 0,
        AreaType::Region | AreaType::Column => 1,
        _ => 2,
    }
}

/// The canonical order of a page's direct child areas: header, footer and sidebars paint
/// first (0), then the region body or a column (1), then footnote areas and the rest (2).
pub fn page_child_priority(area_type: AreaType) -> (r: u8)
    ensures
        r == child_rank(area_type),
{
    match area_type {
        AreaType::Header | AreaType::Footer | AreaType::SidebarStart | AreaType::SidebarEnd => 0,
        AreaType::Region | AreaType::Column => 1,
        _ => 2,
    }
}

/// The smallest index `s` such that `blocks[s..]` must move to the next page together: a
/// break before each of `blocks[s + 1..]` is forbidden by a keep constraint. Scans
/// backward from the last block; 0 for no blocks.
pub fn keep_group_start(breaker: &PageBreaker, area_tree: &AreaTree, blocks: &[AreaId]) -> (r: usize)
    ensures
        blocks@.len() == 0 ==> r == 0,
        blocks@.len() > 0 ==> {
            &&& r < blocks@.len()
            &&& r == 0 || may_break_before(*area_tree, blocks@[r as int], r as int, blocks@)
            &&& forall|k: int| r < k < blocks@.len() ==> !may_break_before(*area_tree, #[trigger] blocks@[k], k, blocks@)
        },
{
    let n = blocks.len();
    if n == 0 {
        return 0;
    }
    let mut start = n - 1;
    while start > 0
        invariant
            n == blocks@.len(),
            start < n,
            forall|k: int| start < k < n ==> !may_break_before(*area_tree, #[trigger] blocks@[k], k, blocks@),
        ensures
            start < n,
            forall|k: int| start < k < n ==> !may_break_before(*area_tree, #[trigger] blocks@[k], k, blocks@),
            start == 0 || may_break_before(*area_tree, blocks@[start as int], start as int, blocks@),
        decreases start,
    {
        if breaker.can_break_before(area_tree, blocks[start], start, blocks) {
            break;
        }
        start = start - 1;
    }
    start
}

/// Scanning `blocks` backward from index `k`: the first index at which a break is allowed,
/// or 0.
pub open spec fn glue_from(t: AreaTree, blocks: Seq<AreaId>, k: int) -> int
    decreases k,
{
    if k <= 0 {
        0
    } else if may_break_before(t, blocks[k], k, blocks) {
        k
    } else {
        glue_from(t, blocks, k - 1)
    }
}

/// The start of the run of blocks at the end of `blocks` that keep constraints glue
/// together (0 for no blocks).
pub open spec fn glue_start(t: AreaTree, blocks: Seq<AreaId>) -> int {
    if blocks.len() == 0 { 0 } else { glue_from(t, blocks, blocks.len() - 1) }
}

/// The index described by [`keep_group_start`]'s contract is the one the backward scan finds.
proof fn lemma_glue_from(t: AreaTree, blocks: Seq<AreaId>, k: int, r: int)
    requires
        0 <= r <= k < blocks.len(),
        r == 0 || may_break_before(t, blocks[r], r, blocks),
        forall|j: int| r < j <= k ==> !may_break_before(t, #[trigger] blocks[j], j, blocks),
    ensures
        glue_from(t, blocks, k) == r,
    decreases k,
{
    if k > r {
        assert(!may_break_before(t, blocks[k], k, blocks));
        lemma_glue_from(t, blocks, k - 1, r);
    }
}

/// When the block just placed on a page overflows it, the index in `page_blocks` (the
/// blocks of the page, the new one last) from which the blocks move to a fresh page; `None`
/// when nothing moves. The page overflows when the block's bottom is below the body height
/// and the block did not start at the top (a block alone at the top stays, clipped). The
/// blocks that move are the run glued to the new block by keep constraints, or, when the
/// whole page is one glued run of several blocks, the new block alone.
pub fn overflow_group_start(breaker: &PageBreaker, area_tree: &AreaTree, page_blocks: &[AreaId], current_y: Length,
    block_bottom: Length, body_height: Length) -> (r: Option<usize>)
    ensures
        r is Some <==> (block_bottom.mp() > body_height.mp() && current_y.mp() > 0),
        r matches Some(s) ==> s == (if glue_start(*area_tree, page_blocks@) == 0 && page_blocks@.len() > 1 {
            page_blocks@.len() - 1
        } else {
            glue_start(*area_tree, page_blocks@)
        }),
{
    if block_bottom.millipoints() > body_height.millipoints() && current_y.millipoints() > 0 {
        let group_start = keep_group_start(breaker, area_tree, page_blocks);
        proof {
            if page_blocks@.len() > 0 {
                lemma_glue_from(*area_tree, page_blocks@, page_blocks@.len() - 1, group_start as int);
            }
        }
        if group_start == 0 && page_blocks.len() > 1 {
            Some(page_blocks.len() - 1)
        } else {
            Some(group_start)
        }
    } else {
        None
    }
}

/// Whether a forced break before a block starts a fresh page: only when the current page
/// already holds blocks or the stacking cursor has left its top.
pub fn break_before_starts_page(break_before: BreakValue, page_block_count: usize, current_y: Length) -> (r: bool)
    ensures
        r == ((break_before is Page || break_before is EvenPage || break_before is OddPage)
            && (page_block_count > 0 || current_y.mp() > 0)),
{
    break_before.forces_page_break() && (page_block_count > 0 || current_y.millipoints() > 0)
}

/// Whether a break to a page of given parity needs a blank page first: the page just started
/// (number `page_number`) has the wrong parity for an even-page or odd-page break.
pub fn parity_needs_blank_page(break_value: BreakValue, page_number: usize) -> (r: bool)
    ensures
        r == ((break_value is EvenPage && page_number % 2 == 1) || (break_value is OddPage && page_number % 2 == 0)),
{
    let current_is_odd = page_number % 2 == 1;
    (break_value.requires_even_page() && current_is_odd) || (break_value.requires_odd_page() && !current_is_odd)
}

/// The state after restacking the first `k` blocks of `group` taken from `t`: the stacking
/// cursor, the old bottom edge of the last block moved, and the new vertical position of
/// each block moved so far (by area index). Unknown ids are skipped. Each block keeps the
/// gap that separated it from the previous block moved (never negative); the first sits at
/// the top.
pub open spec fn restack(t: AreaTree, group: Seq<AreaId>, k: nat) -> (int, Option<int>, Map<int, int>)
    decreases k,
{
    if k == 0 {
        (0, None, Map::empty())
    } else {
        let prev = restack(t, group, (k - 1) as nat);
        let id = group[k - 1];
        if !t.valid_id(id) {
            prev
        } else {
            let i = id.0 as int;
            let old_y = if prev.2.dom().contains(i) { prev.2[i] } else { t.area_of(i).geometry.y.mp() };
            let h = t.area_of(i).geometry.height.mp();
            let gap = match prev.1 {
                Some(b) => if old_y - b > 0 { old_y - b } else { 0 },
                None => 0,
            };
            (prev.0 + gap + h, Some(old_y + h), prev.2.insert(i, prev.0 + gap))
        }
    }
}

/// Whether `v` fits in an `i32`.
pub open spec fn fits_i32(v: int) -> bool {
    i32::MIN <= v <= i32::MAX
}

/// Step `k` of [`restack`] computes only values that fit in an `i32`.
pub open spec fn restack_step_fits(t: AreaTree, group: Seq<AreaId>, k: int) -> bool {
    let prev = restack(t, group, (k - 1) as nat);
    let id = group[k - 1];
    t.valid_id(id) ==> {
        let i = id.0 as int;
        let old_y = if prev.2.dom().contains(i) { prev.2[i] } else { t.area_of(i).geometry.y.mp() };
        let h = t.area_of(i).geometry.height.mp();
        let gap = match prev.1 {
            Some(b) => if old_y - b > 0 { old_y - b } else { 0 },
            None => 0,
        };
        &&& (prev.1 matches Some(b) ==> fits_i32(old_y - b))
        &&& fits_i32(prev.0 + gap)
        &&& fits_i32(prev.0 + gap + h)
        &&& fits_i32(old_y + h)
    }
}

/// Every step of restacking `group` stays within `i32` millipoints.
pub open spec fn restack_fits(t: AreaTree, group: Seq<AreaId>) -> bool {
    forall|k: int| 0 < k <= group.len() ==> #[trigger] restack_step_fits(t, group, k)
}

/// `a` is `o` moved to the vertical position recorded for index `i` in `ys`, or `o`
/// itself when `ys` records none.
pub open spec fn placed_as(a: Area, o: Area, ys: Map<int, int>, i: int) -> bool {
    if ys.dom().contains(i) {
        &&& a.geometry.y.mp() == ys[i]
        &&& a.geometry.x == o.geometry.x
        &&& a.geometry.width == o.geometry.width
        &&& a.geometry.height == o.geometry.height
        &&& a.area_type == o.area_type
        &&& a.traits == o.traits
        &&& a.content == o.content
        &&& a.keep_constraint == o.keep_constraint
        &&& a.break_before == o.break_before
        &&& a.break_after == o.break_after
    } else {
        a == o
    }
}

/// Moves each block of `group`, in order, under `new_region`, restacking them from the
/// top of the region while keeping the gaps between them (see [`restack`]); returns the
/// stacking cursor. Unknown block ids are skipped; fails, changing nothing, when a block is
/// to be moved and `new_region` is not an area of the tree.
pub fn migrate_blocks(area_tree: &mut AreaTree, group: &[AreaId], new_region: AreaId) -> (r: Result<Length, FopError>)
    requires
        old(area_tree).wf(),
        restack_fits(*old(area_tree), group@),
    ensures
        final(area_tree).wf(),
        final(area_tree).len() == old(area_tree).len(),
        final(area_tree).footnote_table() == old(area_tree).footnote_table(),
        r is Err <==> (!old(area_tree).valid_id(new_region)
            && exists|j: int| 0 <= j < group@.len() && old(area_tree).valid_id(#[trigger] group@[j])),
        r is Err ==> final(area_tree).nodes() == old(area_tree).nodes(),
        r matches Err(FopError::Generic(m)) ==> m@ == "parent area not found"@,
        r is Ok ==> r->Ok_0.mp() == restack(*old(area_tree), group@, group@.len()).0,
        r is Ok ==> forall|i: int| 0 <= i < old(area_tree).len() ==> placed_as(
            #[trigger] final(area_tree).area_of(i), old(area_tree).area_of(i),
            restack(*old(area_tree), group@, group@.len()).2, i),
        r is Ok ==> forall|j: int| 0 <= j < group@.len() && old(area_tree).valid_id(#[trigger] group@[j]) ==>
            final(area_tree).parent_of(group@[j].0 as int) == Some(new_region),
{
    let ghost t0 = *area_tree;
    let ghost g = group@;
    let n = group.len();
    let mut new_y = Length::zero();
    let mut prev_old_bottom: Option<Length> = None;
    let mut k: usize = 0;
    while k < n
        invariant
            n == g.len(),
            g == group@,
            t0 == *old(area_tree),
            k <= n,
            area_tree.wf(),
            area_tree.len() == t0.len(),
            area_tree.footnote_table() == t0.footnote_table(),
            restack_fits(t0, g),
            new_y.mp() == restack(t0, g, k as nat).0,
            match prev_old_bottom {
                Some(b) => restack(t0, g, k as nat).1 == Some(b.mp()),
                None => restack(t0, g, k as nat).1 is None,
            },
            forall|m: int| restack(t0, g, k as nat).2.dom().contains(m) ==> 0 <= m < t0.len(),
            forall|i: int| 0 <= i < t0.len() ==> placed_as(#[trigger] area_tree.area_of(i), t0.area_of(i),
                restack(t0, g, k as nat).2, i),
            forall|j: int| 0 <= j < k && t0.valid_id(#[trigger] g[j]) ==>
                area_tree.parent_of(g[j].0 as int) == Some(new_region),
            !t0.valid_id(new_region) ==> area_tree.nodes() == t0.nodes()
                && forall|j: int| 0 <= j < k ==> !t0.valid_id(#[trigger] g[j]),
        decreases n - k,
    {
        let block_id = group[k];
        let ghost st = restack(t0, g, k as nat);
        proof { assert(restack_step_fits(t0, g, k + 1)); }
        let (old_y, height) = match area_tree.get(block_id) {
            Some(node) => (node.area.geometry.y, node.area.height()),
            None => {
                proof {
                    assert(restack(t0, g, (k + 1) as nat) == st);
                }
                k = k + 1;
                continue;
            },
        };
        proof {
            let i = block_id.0 as int;
            assert(placed_as(area_tree.area_of(i), t0.area_of(i), st.2, i));
            assert(old_y.mp() == if st.2.dom().contains(i) { st.2[i] } else { t0.area_of(i).geometry.y.mp() });
            assert(height.mp() == t0.area_of(i).geometry.height.mp());
        }
        let gap = match prev_old_bottom {
            Some(prev_bottom) => old_y.minus(prev_bottom).max(Length::zero()),
            None => Length::zero(),
        };
        new_y = new_y.plus(gap);
        let ghost before = *area_tree;
        let moved = area_tree.reparent(block_id, new_region);
        match moved {
            Ok(()) => {},
            Err(msg) => {
                proof {
                    assert(!t0.valid_id(new_region));
                    assert(0 <= k < g.len() && t0.valid_id(g[k as int]));
                }
                return Err(FopError::Generic(msg));
            },
        }
        let ghost mid = *area_tree;
        area_tree.set_y(block_id, new_y);
        proof {
            let i = block_id.0 as int;
            let st2 = restack(t0, g, (k + 1) as nat);
            assert(st2.2 == st.2.insert(i, new_y.mp()));
            assert forall|m: int| 0 <= m < t0.len() implies placed_as(#[trigger] area_tree.area_of(m), t0.area_of(m), st2.2, m) by {
                assert(mid.area_of(m) == before.area_of(m));
                assert(placed_as(before.area_of(m), t0.area_of(m), st.2, m));
                if m != i {
                    assert(area_tree.nodes()[m] == mid.nodes()[m]);
                }
            }
            assert forall|j: int| 0 <= j < k + 1 && t0.valid_id(#[trigger] g[j]) implies
                area_tree.parent_of(g[j].0 as int) == Some(new_region) by {
                if g[j].0 != block_id.0 {
                    assert(mid.parent_of(g[j].0 as int) == before.parent_of(g[j].0 as int));
                    assert(area_tree.nodes()[g[j].0 as int] == mid.nodes()[g[j].0 as int]);
                }
            }
        }
        new_y = new_y.plus(height);
        prev_old_bottom = Some(old_y.plus(height));
        k = k + 1;
    }
    Ok(new_y)
}

} // verus!
