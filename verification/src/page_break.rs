//! Page breaking: distributes the blocks of a flow over fixed-size pages.

use vstd::prelude::*;
use crate::length::Length;
use crate::geometry::{Color, Point, Rect, Size};
use crate::area::{
    seq_without, total_height, Area, AreaId, AreaTree, AreaType, BorderStyle, BreakValue, Direction, Span,
    TraitSet, WritingMode,
};

verus! {

/// Splits content into pages of a given size and margins.
pub struct PageBreaker {
    page_width: Length,
    page_height: Length,
    /// Margins: top, right, bottom, left.
    margins: [Length; 4],
}

/// Whether `keep` is in force on the area `a` for the given keep property.
pub open spec fn keeps_together(a: Area) -> bool {
    a.keep_constraint is Some && !(a.keep_constraint->0.keep_together is Auto)
}

/// Whether `a` must stay with its predecessor.
pub open spec fn keeps_with_previous(a: Area) -> bool {
    a.keep_constraint is Some && !(a.keep_constraint->0.keep_with_previous is Auto)
}

/// Whether `a` must stay with its successor.
pub open spec fn keeps_with_next(a: Area) -> bool {
    a.keep_constraint is Some && !(a.keep_constraint->0.keep_with_next is Auto)
}

/// Whether a page break may occur before the block `id`, the `index`-th of `all`.
pub open spec fn may_break_before(tree: AreaTree, id: AreaId, index: int, all: Seq<AreaId>) -> bool {
    if !tree.valid_id(id) {
        true
    } else {
        let a = tree.area_of(id.0 as int);
        if keeps_together(a) {
            false
        } else if keeps_with_previous(a) && index > 0 {
            false
        } else if index > 0 && index - 1 < all.len() && tree.valid_id(all[index - 1])
            && keeps_with_next(tree.area_of(all[index - 1].0 as int)) {
            false
        } else {
            true
        }
    }
}

/// Whether an area type counts as a line for widow/orphan purposes.
pub open spec fn is_line_like(t: AreaType) -> bool {
    t is Line || t is Text || t is Inline
}

/// Number of line-like areas in the subtree of `i`, following child links at most `fuel` levels deep.
pub open spec fn line_count(tree: AreaTree, i: int, fuel: nat) -> int
    decreases fuel, 0int,
{
    if fuel == 0 || !(0 <= i < tree.len()) {
        0
    } else {
        (if is_line_like(tree.area_of(i).area_type) { 1int } else { 0int })
            + line_count_list(tree, tree.children_of(i), (fuel - 1) as nat)
    }
}

/// Sum of [`line_count`] over a list of areas.
pub open spec fn line_count_list(tree: AreaTree, ids: Seq<AreaId>, fuel: nat) -> int
    decreases fuel, ids.len(),
{
    if ids.len() == 0 {
        0
    } else {
        line_count_list(tree, ids.drop_last(), fuel) + line_count(tree, ids.last().0 as int, fuel)
    }
}

impl PageBreaker {
    /// Page width.
    pub closed spec fn spec_page_width(&self) -> int {
        self.page_width.mp()
    }

    /// Page height.
    pub closed spec fn spec_page_height(&self) -> int {
        self.page_height.mp()
    }

    /// Margin `k` (0 top, 1 right, 2 bottom, 3 left).
    pub closed spec fn margin(&self, k: int) -> int {
        self.margins[k].mp()
    }

    /// Height available for content: page height minus top and bottom margins.
    pub open spec fn spec_content_height(&self) -> int {
        self.spec_page_height() - self.margin(0) - self.margin(2)
    }

    /// Width available for content: page width minus right and left margins.
    pub open spec fn spec_content_width(&self) -> int {
        self.spec_page_width() - self.margin(1) - self.margin(3)
    }

    /// The content box computations do not overflow.
    pub open spec fn dims_fit(&self) -> bool {
        &&& i32::MIN <= self.spec_page_height() - self.margin(0) <= i32::MAX
        &&& i32::MIN <= self.spec_content_height() <= i32::MAX
        &&& i32::MIN <= self.spec_page_width() - self.margin(1) <= i32::MAX
        &&& i32::MIN <= self.spec_content_width() <= i32::MAX
    }

    /// A page breaker for pages of the given size and margins (top, right, bottom, left).
    pub fn new(page_width: Length, page_height: Length, margins: [Length; 4]) -> (r: PageBreaker)
        ensures
            r.spec_page_width() == page_width.mp(),
            r.spec_page_height() == page_height.mp(),
            forall|k: int| 0 <= k < 4 ==> r.margin(k) == margins[k].mp(),
    {
        PageBreaker { page_width, page_height, margins }
    }

    /// Available content height.
    pub fn content_height(&self) -> (r: Length)
        requires
            self.dims_fit(),
        ensures
            r.mp() == self.spec_content_height(),
    {
        self.page_height.minus(self.margins[0]).minus(self.margins[2])
    }

    /// Available content height once `footnote_height` is reserved for footnotes.
    pub fn content_height_with_footnotes(&self, footnote_height: Length) -> (r: Length)
        requires
            self.dims_fit(),
            i32::MIN <= self.spec_content_height() - footnote_height.mp() <= i32::MAX,
        ensures
            r.mp() == self.spec_content_height() - footnote_height.mp(),
    {
        self.content_height().minus(footnote_height)
    }

    /// Available content width.
    pub fn content_width(&self) -> (r: Length)
        requires
            self.dims_fit(),
        ensures
            r.mp() == self.spec_content_width(),
    {
        self.page_width.minus(self.margins[1]).minus(self.margins[3])
    }

    /// Whether content of height `content_height` fits below `current_height` on a page.
    pub fn fits_on_page(&self, current_height: Length, content_height: Length) -> (r: bool)
        requires
            self.dims_fit(),
            i32::MIN <= current_height.mp() + content_height.mp() <= i32::MAX,
        ensures
            r == (current_height.mp() + content_height.mp() <= self.spec_content_height()),
    {
        current_height.plus(content_height).is_at_most(&self.content_height())
    }

    /// Whether a page break may occur before `area_id`, the `index`-th of `all_children`,
    /// given the keep constraints (`keep-together` and `keep-with-previous` on the area,
    /// `keep-with-next` on its predecessor). Widows and orphans play no part here.
    pub fn can_break_before(
        &self,
        area_tree: &AreaTree,
        area_id: AreaId,
        index: usize,
        all_children: &[AreaId],
    ) -> (r: bool)
        ensures
            r == may_break_before(*area_tree, area_id, index as int, all_children@),
    {
        let current_area = match area_tree.get(area_id) {
            Some(node) => &node.area,
            None => return true,
        };
        if let Some(constraint) = &current_area.keep_constraint {
            if constraint.must_keep_together() {
                return false;
            }
            if constraint.must_keep_with_previous() && index > 0 {
                return false;
            }
        }
        if index > 0 && index - 1 < all_children.len() {
            let prev_area_id = all_children[index - 1];
            if let Some(prev_node) = area_tree.get(prev_area_id) {
                if let Some(constraint) = &prev_node.area.keep_constraint {
                    if constraint.must_keep_with_next() {
                        return false;
                    }
                }
            }
        }
        true
    }

    /// Number of line, text and inline areas in the subtree of `area_id` (the area included).
    pub fn count_line_areas(&self, area_tree: &AreaTree, area_id: AreaId) -> (r: i32)
        requires
            area_tree.wf(),
            line_count(*area_tree, area_id.0 as int, area_tree.len()) <= i32::MAX,
        ensures
            r == line_count(*area_tree, area_id.0 as int, area_tree.len()),
    {
        let n = area_tree.area_count();
        count_lines_in(area_tree, area_id, n)
    }
}

/// Node `i` has the same area, parent and children in `a` and `b`.
pub open spec fn same_node(a: AreaTree, b: AreaTree, i: int) -> bool {
    &&& a.area_of(i) == b.area_of(i)
    &&& a.parent_of(i) == b.parent_of(i)
    &&& a.children_of(i) == b.children_of(i)
}

/// The border traits of the footnote separator: a 1pt solid black top border.
pub open spec fn separator_traits(t: TraitSet) -> bool {
    &&& t.border_width is Some
    &&& t.border_width->0[0].mp() == 1000
    &&& t.border_width->0[1].mp() == 0
    &&& t.border_width->0[2].mp() == 0
    &&& t.border_width->0[3].mp() == 0
    &&& t.border_color is Some
    &&& forall|k: int| 0 <= k < 4 ==> t.border_color->0[k] == (Color { r: 0, g: 0, b: 0 })
    &&& t.border_style == Some([BorderStyle::Solid, BorderStyle::NoStyle, BorderStyle::NoStyle, BorderStyle::NoStyle])
    &&& t.font_size is None
    &&& t.font_family is None
    &&& t.color is None
    &&& t.background_color is None
    &&& t.other_traits_unset()
}

/// Whether every footnote of `ids` that names an area of a tree of `n` areas plus the
/// separator (index `n`) can be attached: it is an old area, detached in `t`, listed once.
pub open spec fn footnotes_attachable(t: AreaTree, ids: Seq<AreaId>) -> bool {
    forall|j: int| 0 <= j < ids.len() && ids[j].0 <= t.len() ==> {
        &&& ids[j].0 < t.len()
        &&& t.parent_of(ids[j].0 as int) is None
        &&& forall|k: int| 0 <= k < j ==> ids[k] != ids[j]
    }
}

impl PageBreaker {
    /// The page area of a new page: the whole page at the origin.
    pub open spec fn page_area_ok(&self, a: Area) -> bool {
        &&& a.area_type == AreaType::Page
        &&& a.geometry.x.mp() == 0 && a.geometry.y.mp() == 0
        &&& a.geometry.width.mp() == self.spec_page_width()
        &&& a.geometry.height.mp() == self.spec_page_height()
        &&& a.traits.is_unset() && a.content is None && a.keep_constraint is None
        &&& a.break_before is None && a.break_after is None
    }

    /// The region-body area of a new page: the content box inside the margins.
    pub open spec fn region_area_ok(&self, a: Area) -> bool {
        &&& a.area_type == AreaType::Region
        &&& a.geometry.x.mp() == self.margin(3) && a.geometry.y.mp() == self.margin(0)
        &&& a.geometry.width.mp() == self.spec_content_width()
        &&& a.geometry.height.mp() == self.spec_content_height()
        &&& a.traits.is_unset() && a.content is None && a.keep_constraint is None
        &&& a.break_before is None && a.break_after is None
    }

    /// Adds a page area with its region-body child and returns the page's id.
    pub fn create_page(&self, area_tree: &mut AreaTree) -> (r: Result<AreaId, String>)
        requires
            old(area_tree).wf(),
            self.dims_fit(),
        ensures
            final(area_tree).wf(),
            r is Ok,
            (r->Ok_0).0 == old(area_tree).len(),
            final(area_tree).len() == old(area_tree).len() + 2,
            self.page_area_ok(final(area_tree).area_of((r->Ok_0).0 as int)),
            self.region_area_ok(final(area_tree).area_of((r->Ok_0).0 + 1)),
            final(area_tree).parent_of((r->Ok_0).0 as int) is None,
            final(area_tree).children_of((r->Ok_0).0 as int) == seq![AreaId(((r->Ok_0).0 + 1) as usize)],
            final(area_tree).parent_of((r->Ok_0).0 + 1) == Some(r->Ok_0),
            final(area_tree).children_of((r->Ok_0).0 + 1).len() == 0,
            forall|i: int| 0 <= i < old(area_tree).len() ==> #[trigger] same_node(*final(area_tree), *old(area_tree), i),
            final(area_tree).footnote_table() == old(area_tree).footnote_table(),
    {
        let page_rect = Rect::from_point_size(Point::zero(), Size::new(self.page_width, self.page_height));
        let page_area = Area::new(AreaType::Page, page_rect);
        let page_id = area_tree.add_area(page_area);
        let ghost t1 = *area_tree;
        let region_rect = Rect::from_point_size(
            Point::new(self.margins[3], self.margins[0]),
            Size::new(self.content_width(), self.content_height()),
        );
        let region_area = Area::new(AreaType::Region, region_rect);
        let region_id = area_tree.add_area(region_area);
        let ghost t2 = *area_tree;
        let res = area_tree.append_child(page_id, region_id);
        proof {
            assert(t2.children_of(page_id.0 as int) == t1.children_of(page_id.0 as int));
            assert(area_tree.children_of(page_id.0 as int) =~= seq![region_id]);
            assert forall|i: int| 0 <= i < old(area_tree).len() implies #[trigger] same_node(*area_tree, *old(area_tree), i) by {
                assert(t1.nodes()[i] == old(area_tree).nodes()[i]);
                assert(t2.nodes()[i] == t1.nodes()[i]);
            }
        }
        match res {
            Ok(()) => Ok(page_id),
            Err(e) => Err(e),
        }
    }

    /// Splits off the part of block `area_id` that does not fit in `available_height`:
    /// returns a new detached area like it whose height is the overflow, or `None`
    /// when the area fits or does not exist.
    pub fn split_area(
        &self,
        area_tree: &mut AreaTree,
        area_id: AreaId,
        available_height: Length,
    ) -> (r: Result<Option<AreaId>, String>)
        requires
            old(area_tree).wf(),
            old(area_tree).valid_id(area_id) ==> i32::MIN <= old(area_tree).area_of(area_id.0 as int).geometry.height.mp()
                - available_height.mp() <= i32::MAX,
        ensures
            final(area_tree).wf(),
            r is Ok,
            r->Ok_0 is Some <==> (old(area_tree).valid_id(area_id)
                && old(area_tree).area_of(area_id.0 as int).geometry.height.mp() > available_height.mp()),
            r->Ok_0 is None ==> final(area_tree).nodes() == old(area_tree).nodes(),
            r->Ok_0 is Some ==> {
                let o = old(area_tree).area_of(area_id.0 as int);
                let c = final(area_tree).area_of((r->Ok_0->0).0 as int);
                &&& (r->Ok_0->0).0 == old(area_tree).len()
                &&& final(area_tree).len() == old(area_tree).len() + 1
                &&& c.geometry == (Rect { height: Length { mp: (o.geometry.height.mp() - available_height.mp()) as i32 }, ..o.geometry })
                &&& c.area_type == o.area_type
                &&& c.traits == o.traits
                &&& c.keep_constraint == o.keep_constraint
                &&& c.break_before == o.break_before
                &&& c.break_after == o.break_after
                &&& c.content == o.content
                &&& final(area_tree).parent_of((r->Ok_0->0).0 as int) is None
                &&& final(area_tree).children_of((r->Ok_0->0).0 as int).len() == 0
                &&& forall|i: int| 0 <= i < old(area_tree).len() ==> #[trigger] final(area_tree).nodes()[i] == old(area_tree).nodes()[i]
            },
            final(area_tree).footnote_table() == old(area_tree).footnote_table(),
    {
        let continuation = match area_tree.get(area_id) {
            None => return Ok(None),
            Some(node) => {
                let area_height = node.area.height();
                if area_height.is_at_most(&available_height) {
                    return Ok(None);
                }
                let remaining = area_height.minus(available_height);
                let mut c = node.area.duplicate();
                c.geometry.height = remaining;
                c
            },
        };
        let id = area_tree.add_area(continuation);
        Ok(Some(id))
    }

    /// The arithmetic of footnote placement on page `page` stays within `i32`.
    pub open spec fn footnotes_fit(&self, t: AreaTree, page: AreaId) -> bool {
        match t.footnotes_of(page) {
            Some(ids) => {
                let base = self.margin(0) + self.spec_content_height();
                &&& forall|j: int| 0 <= j <= ids.len() ==>
                    i32::MIN <= #[trigger] total_height(t, ids.take(j)) <= i32::MAX
                &&& i32::MIN <= base <= i32::MAX
                &&& i32::MIN <= base - total_height(t, ids) <= i32::MAX
                &&& forall|j: int| 0 <= j <= ids.len() ==> i32::MIN <= base - total_height(t, ids) + 7000
                    + #[trigger] total_height(t, ids.take(j)) <= i32::MAX
            },
            None => true,
        }
    }

    /// Places the footnotes of page `page_id` at the bottom of its content box, below a
    /// separator rule, attaching the separator and each footnote to the page.
    pub fn place_footnotes(&self, area_tree: &mut AreaTree, page_id: AreaId) -> (r: Result<(), String>)
        requires
            old(area_tree).wf(),
            self.dims_fit(),
            self.footnotes_fit(*old(area_tree), page_id),
        ensures
            final(area_tree).wf(),
            match old(area_tree).footnotes_of(page_id) {
                None => r is Ok && final(area_tree).nodes() == old(area_tree).nodes(),
                Some(ids) => if ids.len() == 0 {
                    r is Ok && final(area_tree).nodes() == old(area_tree).nodes()
                } else {
                    &&& (r is Ok <==> (page_id.0 <= old(area_tree).len() && footnotes_attachable(*old(area_tree), ids)))
                    &&& r is Ok ==> {
                        let t = *final(area_tree);
                        let sep = old(area_tree).len() as int;
                        let sep_y = self.margin(0) + self.spec_content_height() - total_height(*old(area_tree), ids);
                        &&& t.len() == sep + 1
                        &&& t.area_of(sep).area_type == AreaType::FootnoteSeparator
                        &&& t.area_of(sep).geometry.x.mp() == self.margin(3)
                        &&& t.area_of(sep).geometry.y.mp() == sep_y
                        &&& t.area_of(sep).geometry.width.mp() == 72000
                        &&& t.area_of(sep).geometry.height.mp() == 1000
                        &&& separator_traits(t.area_of(sep).traits)
                        &&& t.parent_of(sep) == Some(page_id)
                        &&& forall|j: int| 0 <= j < ids.len() && #[trigger] ids[j].0 < sep ==> {
                            &&& t.parent_of(ids[j].0 as int) == Some(page_id)
                            &&& t.area_of(ids[j].0 as int).geometry.x.mp() == self.margin(3)
                            &&& t.area_of(ids[j].0 as int).geometry.y.mp() == sep_y + 7000
                                + total_height(*old(area_tree), ids.take(j))
                        }
                    }
                },
            },
    {
        let footnotes: Vec<AreaId> = match area_tree.get_footnotes(page_id) {
            Some(f) => {
                if f.len() == 0 {
                    return Ok(());
                }
                copy_ids(f)
            },
            None => return Ok(()),
        };
        let ghost ids = footnotes@;
        let ghost t0 = *area_tree;
        proof {
            assert(t0.footnotes_of(page_id) == Some(ids));
            assert(ids.len() > 0);
            assert(ids.take(0) =~= Seq::<AreaId>::empty());
            assert(ids.take(ids.len() as int) =~= ids);
            assert(total_height(t0, ids.take(0)) == 0);
        }
        let footnote_total_height = area_tree.footnote_height(page_id);
        let separator_y = self.margins[0].plus(self.content_height()).minus(footnote_total_height);
        let separator_rect = Rect::from_point_size(
            Point::new(self.margins[3], separator_y),
            Size::new(Length::from_pt(72), Length::from_pt(1)),
        );
        let mut separator_area = Area::new(AreaType::FootnoteSeparator, separator_rect);
        let black = Color::black();
        separator_area.traits = TraitSet {
            border_width: Some([Length::from_pt(1), Length::zero(), Length::zero(), Length::zero()]),
            border_color: Some([black, black, black, black]),
            border_style: Some([BorderStyle::Solid, BorderStyle::NoStyle, BorderStyle::NoStyle, BorderStyle::NoStyle]),
            font_size: None,
            font_family: None,
            color: None,
            background_color: None,
            padding: None,
            text_align: None,
            text_align_last: None,
            text_transform: None,
            font_variant: None,
            display_align: None,
            font_stretch: None,
            writing_mode: WritingMode::LrTb,
            direction: Direction::Ltr,
            span: Span::NoSpan,
            hyphenate: None,
            change_bar_color: None,
            font_weight: None,
            font_style: None,
            hyphenation_push_chars: None,
            hyphenation_remain_chars: None,
            role: None,
            xml_lang: None,
        };
        let separator_id = area_tree.add_area(separator_area);
        match area_tree.append_child(page_id, separator_id) {
            Ok(()) => {},
            Err(e) => {
                proof {
                    assert(!(page_id.0 <= t0.len()));
                }
                return Err(e);
            },
        }
        let ghost t2 = *area_tree;
        proof {
            assert(separator_traits(t2.area_of(t0.len() as int).traits));
        }
        let mut current_y = separator_y.plus(Length::from_pt(7));
        proof {
            assert(ids.take(0) =~= Seq::<AreaId>::empty());
        }
        let n = footnotes.len();
        let mut k: usize = 0;
        while k < n
            invariant
                n == ids.len(),
                ids == footnotes@,
                k <= n,
                area_tree.wf(),
                area_tree.len() == t0.len() + 1,
                t2.len() == t0.len() + 1,
                t0 == *old(area_tree),
                t0.footnotes_of(page_id) == Some(ids),
                page_id.0 <= t0.len(),
                forall|j: int| 0 <= j < k && ids[j].0 <= t0.len() ==> {
                    &&& ids[j].0 < t0.len()
                    &&& t0.parent_of(ids[j].0 as int) is None
                    &&& forall|kk: int| 0 <= kk < j ==> ids[kk] != ids[j]
                },
                forall|j: int| 0 <= j <= ids.len() ==> i32::MIN <= separator_y.mp() + 7000
                    + #[trigger] total_height(t0, ids.take(j)) <= i32::MAX,
                current_y.mp() == separator_y.mp() + 7000 + total_height(t0, ids.take(k as int)),
                area_tree.area_of(t0.len() as int) == t2.area_of(t0.len() as int),
                area_tree.parent_of(t0.len() as int) == Some(page_id),
                forall|j: int| 0 <= j < k && #[trigger] ids[j].0 < t0.len() ==> {
                    &&& area_tree.parent_of(ids[j].0 as int) == Some(page_id)
                    &&& area_tree.area_of(ids[j].0 as int).geometry.x.mp() == self.margin(3)
                    &&& area_tree.area_of(ids[j].0 as int).geometry.y.mp() == separator_y.mp() + 7000
                        + total_height(t0, ids.take(j))
                },
                forall|i: int| 0 <= i < t0.len() && (forall|j: int| 0 <= j < k ==> ids[j].0 != i) ==>
                    #[trigger] area_tree.parent_of(i) == t0.parent_of(i),
                forall|i: int| 0 <= i < t0.len() ==>
                    #[trigger] area_tree.area_of(i).geometry.height == t0.area_of(i).geometry.height,
            decreases n - k,
        {
            let footnote_id = footnotes[k];
            proof {
                assert(ids.take(k as int + 1).drop_last() =~= ids.take(k as int));
                assert(ids.take(k as int + 1).last() == footnote_id);
            }
            let footnote_height = match area_tree.get(footnote_id) {
                Some(node) => node.area.height(),
                None => {
                    k = k + 1;
                    proof {
                        assert forall|i: int| 0 <= i < t0.len() && (forall|j: int| 0 <= j < k ==> ids[j].0 != i) implies
                            #[trigger] area_tree.parent_of(i) == t0.parent_of(i) by {
                            assert(forall|j: int| 0 <= j < k - 1 ==> ids[j].0 != i);
                        }
                    }
                    continue;
                },
            };
            let ghost before = *area_tree;
            area_tree.set_x(footnote_id, self.margins[3]);
            area_tree.set_y(footnote_id, current_y);
            let ghost placed = *area_tree;
            match area_tree.append_child(page_id, footnote_id) {
                Ok(()) => {},
                Err(e) => {
                    proof {
                        let fid = footnote_id.0 as int;
                        assert(placed.parent_of(fid) == before.parent_of(fid));
                        assert(before.parent_of(fid) is Some);
                        if fid < t0.len() && t0.parent_of(fid) is None {
                            // it was attached by an earlier iteration: a repeated id
                            let w = choose|j: int| 0 <= j < k && ids[j].0 == fid;
                            assert(ids[w] == ids[k as int]);
                        }
                        assert(!footnotes_attachable(t0, ids)) by {
                            if fid == t0.len() {
                                assert(ids[k as int].0 <= t0.len() && !(ids[k as int].0 < t0.len()));
                            } else if t0.parent_of(fid) is Some {
                                assert(ids[k as int].0 <= t0.len() && t0.parent_of(ids[k as int].0 as int) is Some);
                            } else {
                                let w = choose|j: int| 0 <= j < k && ids[j].0 == fid;
                                assert(ids[w] == ids[k as int]);
                                assert(ids[k as int].0 <= t0.len());
                            }
                        }
                        assert(t0 == *old(area_tree));
                        assert(old(area_tree).footnotes_of(page_id) == Some(ids));
                        assert(ids.len() != 0);
                    }
                    return Err(e);
                },
            }
            proof {
                let fid = footnote_id.0 as int;
                assert(fid != t0.len());
                assert(fid < t0.len());
                assert(t0.valid_id(footnote_id));
                assert(footnote_height == t0.area_of(fid).geometry.height);
                assert(total_height(t0, ids.take(k as int + 1)) == total_height(t0, ids.take(k as int)) + footnote_height.mp());
                assert(i32::MIN <= separator_y.mp() + 7000 + total_height(t0, ids.take(k as int + 1)) <= i32::MAX);
                assert forall|kk: int| 0 <= kk < k implies ids[kk] != ids[k as int] by {
                    if ids[kk] == ids[k as int] {
                        assert(before.parent_of(fid) == Some(page_id));
                    }
                }
                assert(t0.parent_of(fid) is None) by {
                    assert(forall|j: int| 0 <= j < k ==> ids[j].0 != fid);
                    assert(before.parent_of(fid) == t0.parent_of(fid));
                }
            }
            current_y = current_y.plus(footnote_height);
            k = k + 1;
            proof {
                let fid = footnote_id.0 as int;
                assert forall|j: int| 0 <= j < k && #[trigger] ids[j].0 < t0.len() implies {
                    &&& area_tree.parent_of(ids[j].0 as int) == Some(page_id)
                    &&& area_tree.area_of(ids[j].0 as int).geometry.x.mp() == self.margin(3)
                    &&& area_tree.area_of(ids[j].0 as int).geometry.y.mp() == separator_y.mp() + 7000
                        + total_height(t0, ids.take(j))
                } by {
                    if j < k - 1 {
                        assert(ids[j] != ids[k - 1]);
                        assert(before.area_of(ids[j].0 as int) == placed.area_of(ids[j].0 as int));
                    }
                }
                assert forall|i: int| 0 <= i < t0.len() && (forall|j: int| 0 <= j < k ==> ids[j].0 != i) implies
                    #[trigger] area_tree.parent_of(i) == t0.parent_of(i) by {
                    assert(forall|j: int| 0 <= j < k - 1 ==> ids[j].0 != i);
                    assert(ids[k - 1].0 != i);
                    assert(placed.parent_of(i) == before.parent_of(i));
                    assert(before.parent_of(i) == t0.parent_of(i));
                }
                assert forall|i: int| 0 <= i < t0.len() implies
                    #[trigger] area_tree.area_of(i).geometry.height == t0.area_of(i).geometry.height by {
                    assert(before.area_of(i).geometry.height == t0.area_of(i).geometry.height);
                }
            }
        }
        proof {
            assert(footnotes_attachable(t0, ids));
        }
        Ok(())
    }
}

/// What pagination needs to know about one block of the flow.
pub struct BlockFacts {
    pub height: int,
    pub break_before: Option<BreakValue>,
    pub break_after: Option<BreakValue>,
    pub can_break: bool,
}

/// The state of pagination after some blocks: pages opened so far, the height used on
/// the current page, and for each block placed its page index (from 0) and its y offset.
pub struct Placement {
    pub pages: nat,
    pub cur: int,
    pub spots: Seq<(int, int)>,
}

/// Whether a break value starts a new page.
pub open spec fn forces_page(b: Option<BreakValue>) -> bool {
    b is Some && (b->0 is Page || b->0 is EvenPage || b->0 is OddPage)
}

/// The page count after inserting a blank page when the parity required by `b` is not met.
pub open spec fn fill_parity(pages: nat, b: BreakValue) -> nat {
    if b is EvenPage && pages % 2 == 1 {
        pages + 1
    } else if b is OddPage && pages % 2 == 0 {
        pages + 1
    } else {
        pages
    }
}

/// Whether the block `f` opens a new page when it arrives in state `s`.
pub open spec fn breaks_before(s: Placement, f: BlockFacts, ch: int) -> bool {
    ((s.cur + f.height > ch && s.cur > 0 && f.can_break) || forces_page(f.break_before)) && s.cur > 0
}

/// Placement of one block: honour a forced break-before (with parity), break when the block
/// overflows and a break is allowed, place it, then honour a forced break-after.
pub open spec fn place_block(s: Placement, f: BlockFacts, ch: int) -> Placement {
    let p0 = if forces_page(f.break_before) { fill_parity(s.pages, f.break_before->0) } else { s.pages };
    let brk = breaks_before(s, f, ch);
    let p1 = if brk { p0 + 1 } else { p0 };
    let y = if brk { 0 } else { s.cur };
    let spots = s.spots.push(((p1 - 1) as int, y));
    if forces_page(f.break_after) {
        Placement { pages: fill_parity(p1 + 1, f.break_after->0), cur: 0, spots }
    } else {
        Placement { pages: p1, cur: y + f.height, spots }
    }
}

/// Pagination of a sequence of blocks into pages of content height `ch`.
pub open spec fn paginate(fs: Seq<BlockFacts>, ch: int) -> Placement
    decreases fs.len(),
{
    if fs.len() == 0 {
        Placement { pages: 1, cur: 0, spots: Seq::empty() }
    } else {
        place_block(paginate(fs.drop_last(), ch), fs.last(), ch)
    }
}

/// The facts of the `i`-th block of `blocks` in `tree`.
pub open spec fn block_facts(tree: AreaTree, blocks: Seq<AreaId>, i: int) -> BlockFacts {
    let a = tree.area_of(blocks[i].0 as int);
    BlockFacts {
        height: a.geometry.height.mp(),
        break_before: a.break_before,
        break_after: a.break_after,
        can_break: may_break_before(tree, blocks[i], i, blocks),
    }
}

/// The facts of all blocks of `blocks`.
pub open spec fn all_block_facts(tree: AreaTree, blocks: Seq<AreaId>) -> Seq<BlockFacts> {
    Seq::new(blocks.len(), |i: int| block_facts(tree, blocks, i))
}

/// The running heights never overflow `i32`.
pub open spec fn pagination_fits(fs: Seq<BlockFacts>, ch: int) -> bool {
    forall|k: int| 0 <= k < fs.len() ==>
        i32::MIN <= #[trigger] paginate(fs.take(k), ch).cur + fs[k].height <= i32::MAX
}

/// The blocks laid out by [`PageBreaker::break_into_pages`] for `root`: its children.
pub open spec fn flow_blocks(tree: AreaTree, root: AreaId) -> Seq<AreaId> {
    if tree.valid_id(root) { tree.children_of(root.0 as int) } else { Seq::empty() }
}

/// `a` and `b` agree on everything but the vertical position.
pub open spec fn same_but_y(a: Area, b: Area) -> bool {
    &&& a.area_type == b.area_type
    &&& a.geometry.x == b.geometry.x
    &&& a.geometry.width == b.geometry.width
    &&& a.geometry.height == b.geometry.height
    &&& a.traits == b.traits
    &&& a.content == b.content
    &&& a.keep_constraint == b.keep_constraint
    &&& a.break_before == b.break_before
    &&& a.break_after == b.break_after
}

/// One step of [`paginate`] appends one spot and keeps the earlier ones.
proof fn lemma_paginate_step(fs: Seq<BlockFacts>, ch: int, k: int)
    requires
        0 <= k < fs.len(),
    ensures
        paginate(fs.take(k + 1), ch) == place_block(paginate(fs.take(k), ch), fs[k], ch),
        paginate(fs.take(k), ch).spots.len() == k,
{
    assert(fs.take(k + 1).drop_last() =~= fs.take(k));
    lemma_spots_len(fs.take(k), ch);
}

/// There is one spot per block.
proof fn lemma_spots_len(fs: Seq<BlockFacts>, ch: int)
    ensures
        paginate(fs, ch).spots.len() == fs.len(),
        paginate(fs, ch).pages >= 1,
    decreases fs.len(),
{
    if fs.len() > 0 {
        lemma_spots_len(fs.drop_last(), ch);
    }
}

/// Earlier spots are kept by later steps.
proof fn lemma_spots_prefix(fs: Seq<BlockFacts>, ch: int, k: int, i: int)
    requires
        0 <= i < k <= fs.len(),
    ensures
        paginate(fs.take(k), ch).spots[i] == paginate(fs.take(i + 1), ch).spots[i],
    decreases k - i,
{
    lemma_spots_len(fs.take(i + 1), ch);
    if k > i + 1 {
        lemma_spots_prefix(fs, ch, k - 1, i);
        lemma_paginate_step(fs, ch, k - 1);
    }
}

/// Page indices of placed blocks lie within the pages opened, never decrease, and at least
/// one page is open.
proof fn lemma_paginate_inv(fs: Seq<BlockFacts>, ch: int, k: int)
    requires
        0 <= k <= fs.len(),
    ensures
        paginate(fs.take(k), ch).pages >= 1,
        paginate(fs.take(k), ch).spots.len() == k,
        forall|i: int| 0 <= i < k ==> 0 <= #[trigger] paginate(fs.take(k), ch).spots[i].0 < paginate(fs.take(k), ch).pages,
        forall|i: int, j: int| 0 <= i <= j < k ==>
            paginate(fs.take(k), ch).spots[i].0 <= paginate(fs.take(k), ch).spots[j].0,
    decreases k,
{
    lemma_spots_len(fs.take(k), ch);
    if k > 0 {
        lemma_paginate_inv(fs, ch, k - 1);
        lemma_paginate_step(fs, ch, k - 1);
    }
}

/// The whole sequence is its own longest prefix.
proof fn lemma_take_all(fs: Seq<BlockFacts>, ch: int)
    ensures
        paginate(fs.take(fs.len() as int), ch) == paginate(fs, ch),
{
    assert(fs.take(fs.len() as int) =~= fs);
}

/// Every block is placed on one of the pages opened, and blocks appear on pages in flow
/// order: a later block is never on an earlier page.
pub proof fn law_blocks_on_pages_in_order(fs: Seq<BlockFacts>, ch: int)
    ensures
        paginate(fs, ch).spots.len() == fs.len(),
        paginate(fs, ch).pages >= 1,
        forall|i: int| 0 <= i < fs.len() ==> 0 <= #[trigger] paginate(fs, ch).spots[i].0 < paginate(fs, ch).pages,
        forall|i: int, j: int| 0 <= i <= j < fs.len() ==>
            paginate(fs, ch).spots[i].0 <= paginate(fs, ch).spots[j].0,
{
    lemma_paginate_inv(fs, ch, fs.len() as int);
    lemma_take_all(fs, ch);
}

/// The spot of block `i` is decided when block `i` is placed.
proof fn lemma_spot_of(fs: Seq<BlockFacts>, ch: int, i: int)
    requires
        0 <= i < fs.len(),
    ensures
        paginate(fs, ch).spots[i] == place_block(paginate(fs.take(i), ch), fs[i], ch).spots[i],
        paginate(fs.take(i), ch).spots.len() == i,
        paginate(fs, ch).spots[i].1 == (if breaks_before(paginate(fs.take(i), ch), fs[i], ch) { 0 } else {
            paginate(fs.take(i), ch).cur
        }),
{
    lemma_take_all(fs, ch);
    if i + 1 < fs.len() {
        lemma_spots_prefix(fs, ch, fs.len() as int, i);
    }
    lemma_paginate_step(fs, ch, i);
}

/// With blocks of non-negative height the used height of the current page is never negative.
proof fn lemma_cur_nonneg(fs: Seq<BlockFacts>, ch: int, k: int)
    requires
        0 <= k <= fs.len(),
        forall|j: int| 0 <= j < fs.len() ==> #[trigger] fs[j].height >= 0,
    ensures
        paginate(fs.take(k), ch).cur >= 0,
    decreases k,
{
    if k > 0 {
        lemma_cur_nonneg(fs, ch, k - 1);
        lemma_paginate_step(fs, ch, k - 1);
    }
}

/// A block with a forced page break before it starts at the top of a page.
pub proof fn law_forced_break_before_starts_page(fs: Seq<BlockFacts>, ch: int, i: int)
    requires
        0 <= i < fs.len(),
        forall|j: int| 0 <= j < fs.len() ==> #[trigger] fs[j].height >= 0,
        forces_page(fs[i].break_before),
    ensures
        paginate(fs, ch).spots[i].1 == 0,
{
    lemma_spot_of(fs, ch, i);
    lemma_cur_nonneg(fs, ch, i);
}

/// A block either fits in the content height below the blocks before it on its page, or
/// it is the first block of its page, or keep constraints forbid a break before it.
pub proof fn law_block_fits_unless_first_or_kept(fs: Seq<BlockFacts>, ch: int, i: int)
    requires
        0 <= i < fs.len(),
        forall|j: int| 0 <= j < fs.len() ==> #[trigger] fs[j].height >= 0,
    ensures
        ({
            let y = paginate(fs, ch).spots[i].1;
            y == 0 || y + fs[i].height <= ch || !fs[i].can_break
        }),
{
    lemma_spot_of(fs, ch, i);
    lemma_cur_nonneg(fs, ch, i);
}

/// Blocks on the same page are stacked: a block that shares its page with the block
/// before it starts where that block ends.
pub proof fn law_blocks_stack_on_a_page(fs: Seq<BlockFacts>, ch: int, i: int)
    requires
        0 <= i,
        i + 1 < fs.len(),
        paginate(fs, ch).spots[i + 1].0 == paginate(fs, ch).spots[i].0,
    ensures
        paginate(fs, ch).spots[i + 1].1 == paginate(fs, ch).spots[i].1 + fs[i].height,
{
    lemma_spot_of(fs, ch, i);
    lemma_spot_of(fs, ch, i + 1);
    lemma_paginate_step(fs, ch, i);
    lemma_paginate_inv(fs, ch, i + 1);
}

/// After a block with a forced page break after it, the next block starts at the top of a
/// later page.
pub proof fn law_forced_break_after_ends_page(fs: Seq<BlockFacts>, ch: int, i: int)
    requires
        0 <= i,
        i + 1 < fs.len(),
        forces_page(fs[i].break_after),
    ensures
        paginate(fs, ch).spots[i + 1].0 > paginate(fs, ch).spots[i].0,
        paginate(fs, ch).spots[i + 1].1 == 0,
{
    lemma_spot_of(fs, ch, i);
    lemma_spot_of(fs, ch, i + 1);
    lemma_paginate_step(fs, ch, i);
    lemma_paginate_inv(fs, ch, i + 1);
}

/// After a block whose break-after asks for an even (odd) page, the page count is even
/// (odd), so the next content starts on a page of that parity.
pub proof fn law_break_after_parity(fs: Seq<BlockFacts>, ch: int, i: int)
    requires
        0 <= i < fs.len(),
        fs[i].break_after == Some(BreakValue::EvenPage) || fs[i].break_after == Some(BreakValue::OddPage),
    ensures
        fs[i].break_after == Some(BreakValue::EvenPage) ==> paginate(fs.take(i + 1), ch).pages % 2 == 0,
        fs[i].break_after == Some(BreakValue::OddPage) ==> paginate(fs.take(i + 1), ch).pages % 2 == 1,
{
    lemma_paginate_step(fs, ch, i);
}

impl PageBreaker {
    /// Page `j` of `page_ids` is area `base + 2j`, a fresh page whose only child is its
    /// region-body, area `base + 2j + 1`.
    pub open spec fn page_ok_at(&self, t: AreaTree, base: nat, page_ids: Seq<AreaId>, j: int) -> bool {
        &&& page_ids[j].0 == base + 2 * j
        &&& self.page_area_ok(t.area_of(base + 2 * j))
        &&& self.region_area_ok(t.area_of(base + 2 * j + 1))
        &&& t.parent_of(base + 2 * j) is None
        &&& t.children_of(base + 2 * j) == seq![AreaId((base + 2 * j + 1) as usize)]
        &&& t.parent_of(base + 2 * j + 1) == Some(page_ids[j])
    }

    /// `page_ids` are the pages added to a tree that had `base` areas.
    pub open spec fn pages_ok(&self, t: AreaTree, base: nat, page_ids: Seq<AreaId>) -> bool {
        &&& t.len() == base + 2 * page_ids.len()
        &&& forall|j: int| 0 <= j < page_ids.len() ==> #[trigger] self.page_ok_at(t, base, page_ids, j)
    }

    /// Opens a new page: adds it to the tree and to `page_ids`.
    pub(crate) fn open_page(&self, area_tree: &mut AreaTree, page_ids: &mut Vec<AreaId>, Ghost(base): Ghost<nat>) -> (r: AreaId)
        requires
            old(area_tree).wf(),
            self.dims_fit(),
            self.pages_ok(*old(area_tree), base, old(page_ids)@),
        ensures
            final(area_tree).wf(),
            final(page_ids)@ == old(page_ids)@.push(r),
            self.pages_ok(*final(area_tree), base, final(page_ids)@),
            extends(*final(area_tree), *old(area_tree)),
            forall|i: int| 0 <= i < old(area_tree).len() ==> #[trigger] same_node(*final(area_tree), *old(area_tree), i),
            final(area_tree).footnote_table() == old(area_tree).footnote_table(),
    {
        let ghost t0 = *area_tree;
        let page_id = match self.create_page(area_tree) {
            Ok(id) => id,
            Err(_) => { proof { assert(false); } AreaId(0) },
        };
        page_ids.push(page_id);
        proof {
            let ids = page_ids@;
            let t = *area_tree;
            assert forall|j: int| 0 <= j < ids.len() implies #[trigger] self.page_ok_at(t, base, ids, j) by {
                if j < ids.len() - 1 {
                    assert(self.page_ok_at(t0, base, old(page_ids)@, j));
                    assert(ids[j] == old(page_ids)@[j]);
                    assert(same_node(t, t0, base + 2 * j));
                    assert(same_node(t, t0, base + 2 * j + 1));
                }
            }
        }
        page_id
    }

    /// Opens a blank page when the break value `b` forces a page break whose parity
    /// (even/odd) the current page count does not meet.
    fn open_parity_page(&self, area_tree: &mut AreaTree, page_ids: &mut Vec<AreaId>, b: Option<BreakValue>, Ghost(base): Ghost<nat>)
        requires
            old(area_tree).wf(),
            self.dims_fit(),
            self.pages_ok(*old(area_tree), base, old(page_ids)@),
        ensures
            final(area_tree).wf(),
            self.pages_ok(*final(area_tree), base, final(page_ids)@),
            final(page_ids)@.len() == if forces_page(b) { fill_parity(old(page_ids)@.len(), b->0) } else { old(page_ids)@.len() },
            forall|j: int| 0 <= j < old(page_ids)@.len() ==> #[trigger] final(page_ids)@[j] == old(page_ids)@[j],
            extends(*final(area_tree), *old(area_tree)),
            forall|i: int| 0 <= i < old(area_tree).len() ==> #[trigger] same_node(*final(area_tree), *old(area_tree), i),
    {
        if let Some(v) = b {
            if v.forces_page_break() {
                if v.requires_even_page() {
                    if page_ids.len() % 2 == 1 {
                        self.open_page(area_tree, page_ids, Ghost(base));
                    }
                } else if v.requires_odd_page() {
                    if page_ids.len() % 2 == 0 {
                        self.open_page(area_tree, page_ids, Ghost(base));
                    }
                }
            }
        }
    }

    /// After a forced break-after, opens a blank page when the parity is not met.
    fn open_parity_after(&self, area_tree: &mut AreaTree, page_ids: &mut Vec<AreaId>, b: Option<BreakValue>, Ghost(base): Ghost<nat>)
        requires
            old(area_tree).wf(),
            self.dims_fit(),
            self.pages_ok(*old(area_tree), base, old(page_ids)@),
        ensures
            final(area_tree).wf(),
            self.pages_ok(*final(area_tree), base, final(page_ids)@),
            final(page_ids)@.len() == if forces_page(b) { fill_parity(old(page_ids)@.len(), b->0) } else { old(page_ids)@.len() },
            forall|j: int| 0 <= j < old(page_ids)@.len() ==> #[trigger] final(page_ids)@[j] == old(page_ids)@[j],
            extends(*final(area_tree), *old(area_tree)),
            forall|i: int| 0 <= i < old(area_tree).len() ==> #[trigger] same_node(*final(area_tree), *old(area_tree), i),
    {
        self.open_parity_page(area_tree, page_ids, b, Ghost(base));
    }

    /// Moves block `child` under `region` at vertical offset `y`.
    pub(crate) fn move_block(&self, area_tree: &mut AreaTree, child: AreaId, region: AreaId, y: Length,
        Ghost(base): Ghost<nat>, Ghost(page_ids): Ghost<Seq<AreaId>>)
        requires
            old(area_tree).wf(),
            self.pages_ok(*old(area_tree), base, page_ids),
            child.0 < base,
            base <= region.0 < old(area_tree).len(),
            (region.0 - base) % 2 == 1,
        ensures
            final(area_tree).wf(),
            self.pages_ok(*final(area_tree), base, page_ids),
            final(area_tree).parent_of(child.0 as int) == Some(region),
            final(area_tree).area_of(child.0 as int).geometry.y == y,
            same_but_y(final(area_tree).area_of(child.0 as int), old(area_tree).area_of(child.0 as int)),
            forall|i: int| 0 <= i < old(area_tree).len() && i != child.0 ==> #[trigger] final(area_tree).area_of(i) == old(area_tree).area_of(i),
            forall|i: int| 0 <= i < old(area_tree).len() && i != child.0 ==> #[trigger] final(area_tree).parent_of(i) == old(area_tree).parent_of(i),
            forall|i: int| 0 <= i < base ==> #[trigger] final(area_tree).children_of(i) == seq_without(old(area_tree).children_of(i), child),
    {
        let ghost t0 = *area_tree;
        let res = area_tree.reparent(child, region);
        proof { assert(res is Ok); }
        let ghost t1 = *area_tree;
        area_tree.set_y(child, y);
        proof {
            let t = *area_tree;
            assert(t1.valid_id(child));
            assert forall|i: int| 0 <= i < t0.len() && i != child.0 implies #[trigger] t.area_of(i) == t0.area_of(i) by {
                assert(t.nodes()[i] == t1.nodes()[i]);
                assert(t1.area_of(i) == t0.area_of(i));
            }
            assert forall|i: int| 0 <= i < t0.len() && i != child.0 implies #[trigger] t.parent_of(i) == t0.parent_of(i) by {
                assert(t.nodes()[i] == t1.nodes()[i]);
                assert(t1.parent_of(i) == t0.parent_of(i));
            }
            assert forall|j: int| 0 <= j < page_ids.len() implies #[trigger] self.page_ok_at(t, base, page_ids, j) by {
                assert(self.page_ok_at(t0, base, page_ids, j));
                let pg = base + 2 * j;
                assert(pg != region.0);
                assert(t.nodes()[pg] == t1.nodes()[pg]);
                assert(t.nodes()[pg + 1] == t1.nodes()[pg + 1]);
                assert(t1.area_of(pg) == t0.area_of(pg));
                assert(t1.area_of(pg + 1) == t0.area_of(pg + 1));
                assert(t1.parent_of(pg) == t0.parent_of(pg));
                assert(t1.parent_of(pg + 1) == t0.parent_of(pg + 1));
                assert(t1.children_of(pg) == seq_without(t0.children_of(pg), child));
                lemma_without_singleton(AreaId((pg + 1) as usize), child);
            }
            assert forall|i: int| 0 <= i < base implies #[trigger] t.children_of(i) == seq_without(t0.children_of(i), child) by {
                assert(i != region.0);
                assert(t1.children_of(i) == seq_without(t0.children_of(i), child));
                if i != child.0 {
                    assert(t.nodes()[i] == t1.nodes()[i]);
                }
            }
        }
    }


    /// Breaks the children of `root_id` (the flow's blocks) into pages.
    ///
    /// Each block is moved under the region-body of the page it lands on, at a vertical
    /// offset equal to the height used on that page before it. A block starts a new page when
    /// it does not fit and a break before it is allowed, or when it has a forced break-before;
    /// a forced break-after starts a new page after it; even/odd breaks insert a blank page
    /// when the page count has the wrong parity. Without blocks one empty page is made.
    pub fn break_into_pages(&self, area_tree: &mut AreaTree, root_id: AreaId) -> (r: Result<Vec<AreaId>, String>)
        requires
            old(area_tree).wf(),
            self.dims_fit(),
            pagination_fits(all_block_facts(*old(area_tree), flow_blocks(*old(area_tree), root_id)), self.spec_content_height()),
        ensures
            final(area_tree).wf(),
            r is Ok,
            ({
                let blocks = flow_blocks(*old(area_tree), root_id);
                let p = paginate(all_block_facts(*old(area_tree), blocks), self.spec_content_height());
                let base = old(area_tree).len();
                let t = *final(area_tree);
                &&& r->Ok_0@.len() == p.pages
                &&& self.pages_ok(t, base, r->Ok_0@)
                &&& forall|i: int| 0 <= i < blocks.len() ==> {
                    &&& t.parent_of((#[trigger] blocks[i]).0 as int) == Some(AreaId((base + 2 * p.spots[i].0 + 1) as usize))
                    &&& t.area_of(blocks[i].0 as int).geometry.y.mp() == p.spots[i].1
                }
                &&& forall|i: int| 0 <= i < base ==> #[trigger] same_but_y(t.area_of(i), old(area_tree).area_of(i))
                &&& old(area_tree).valid_id(root_id) ==> t.children_of(root_id.0 as int).len() == 0
            }),
    {
        let ghost t0 = *area_tree;
        let ghost base = t0.len();
        let ghost ch = self.spec_content_height();
        let mut page_ids: Vec<AreaId> = Vec::new();
        let content_height = self.content_height();
        let children = area_tree.children(root_id);
        let ghost blocks = children@;
        let ghost fs = all_block_facts(t0, blocks);
        proof {
            assert(blocks == flow_blocks(t0, root_id));
            assert(self.pages_ok(*area_tree, base, page_ids@));
        }
        if children.len() == 0 {
            let _page_id = self.open_page(area_tree, &mut page_ids, Ghost(base));
            proof {
                assert(fs.len() == 0);
                assert forall|i: int| 0 <= i < base implies #[trigger] same_but_y(area_tree.area_of(i), t0.area_of(i)) by {
                    assert(same_node(*area_tree, t0, i));
                }
                if t0.valid_id(root_id) {
                    assert(same_node(*area_tree, t0, root_id.0 as int));
                }
            }
            return Ok(page_ids);
        }
        self.open_page(area_tree, &mut page_ids, Ghost(base));
        let mut current_height = Length::zero();
        proof {
            assert(fs.take(0) =~= Seq::<BlockFacts>::empty());
            assert(blocks.skip(0) =~= blocks);
            assert forall|i: int| 0 <= i < base implies #[trigger] same_but_y(area_tree.area_of(i), t0.area_of(i)) by {
                assert(same_node(*area_tree, t0, i));
            }
            assert(t0.valid_id(root_id));
            assert(same_node(*area_tree, t0, root_id.0 as int));
            assert forall|i: int| 0 <= i < blocks.len() implies (#[trigger] blocks[i]).0 < base by {
                assert(t0.children_of(root_id.0 as int)[i] == blocks[i]);
            }
        }
        let n = children.len();
        let mut idx: usize = 0;
        while idx < n
            invariant
                n == blocks.len(),
                blocks == children@,
                blocks == t0.children_of(root_id.0 as int),
                t0.valid_id(root_id),
                t0.wf(),
                base == t0.len(),
                fs == all_block_facts(t0, blocks),
                ch == self.spec_content_height(),
                content_height.mp() == ch,
                self.dims_fit(),
                pagination_fits(fs, ch),
                idx <= n,
                area_tree.wf(),
                self.pages_ok(*area_tree, base, page_ids@),
                page_ids@.len() > 0,
                page_ids@.len() == paginate(fs.take(idx as int), ch).pages,
                current_height.mp() == paginate(fs.take(idx as int), ch).cur,
                forall|i: int| 0 <= i < blocks.len() ==> (#[trigger] blocks[i]).0 < base,
                blocks.no_duplicates(),
                forall|i: int| 0 <= i < base ==> #[trigger] same_but_y(area_tree.area_of(i), t0.area_of(i)),
                area_tree.children_of(root_id.0 as int) == blocks.skip(idx as int),
                forall|i: int| 0 <= i < idx ==> {
                    &&& area_tree.parent_of((#[trigger] blocks[i]).0 as int)
                        == Some(AreaId((base + 2 * paginate(fs.take(idx as int), ch).spots[i].0 + 1) as usize))
                    &&& area_tree.area_of(blocks[i].0 as int).geometry.y.mp() == paginate(fs.take(idx as int), ch).spots[i].1
                },
            decreases n - idx,
        {
            let child_id = children[idx];
            let ghost s = paginate(fs.take(idx as int), ch);
            let ghost f = fs[idx as int];
            let ghost t_start = *area_tree;
            proof {
                lemma_paginate_step(fs, ch, idx as int);
                assert(f == block_facts(t0, blocks, idx as int));
                assert(same_but_y(area_tree.area_of(child_id.0 as int), t0.area_of(child_id.0 as int)));
            }
            let (child_height, break_before_opt, break_after_opt) = match area_tree.get(child_id) {
                Some(child_node) => (child_node.area.height(), child_node.area.break_before, child_node.area.break_after),
                None => { proof { assert(false); } (Length::zero(), None, None) },
            };
            let mut force_break_before = false;
            if let Some(break_before) = break_before_opt {
                if break_before.forces_page_break() {
                    force_break_before = true;
                }
            }
            self.open_parity_page(area_tree, &mut page_ids, break_before_opt, Ghost(base));
            let ghost t_a = *area_tree;
            proof {
                assert forall|i: int| 0 <= i < base implies #[trigger] same_but_y(area_tree.area_of(i), t0.area_of(i)) by {
                    assert(same_node(*area_tree, t_start, i));
                }
                lemma_may_break_same(*area_tree, t0, blocks, idx as int);
            }
            let can_break = self.can_break_before(area_tree, child_id, idx, &children);
            let overflow = content_height.is_less(&current_height.plus(child_height));
            if ((overflow && Length::zero().is_less(&current_height) && can_break) || force_break_before)
                && Length::zero().is_less(&current_height) {
                self.open_page(area_tree, &mut page_ids, Ghost(base));
                current_height = Length::zero();
            }
            let ghost t_b = *area_tree;
            proof {
                assert(extends(t_b, t_a));
                lemma_extends_trans(t_b, t_a, t_start);
            }
            let current_page_id = page_ids[page_ids.len() - 1];
            let region_children = area_tree.children(current_page_id);
            proof {
                assert(self.page_ok_at(*area_tree, base, page_ids@, page_ids@.len() - 1));
            }
            if region_children.len() == 0 {
                proof { assert(false); }
                return Err(error_text("page area is missing its region-body child"));
            }
            let region_id = region_children[0];
            let ghost placed_page = page_ids@.len() - 1;
            let ghost y_val = current_height.mp();
            self.move_block(area_tree, child_id, region_id, current_height, Ghost(base), Ghost(page_ids@));
            let ghost t_c = *area_tree;
            current_height = current_height.plus(child_height);
            if let Some(break_after) = break_after_opt {
                if break_after.forces_page_break() {
                    self.open_page(area_tree, &mut page_ids, Ghost(base));
                    current_height = Length::zero();
                }
            }
            let ghost t_d = *area_tree;
            self.open_parity_after(area_tree, &mut page_ids, break_after_opt, Ghost(base));
            proof {
                assert(extends(t_d, t_c));
                lemma_extends_trans(*area_tree, t_d, t_c);
                let s2 = paginate(fs.take(idx as int + 1), ch);
                assert(s2 == place_block(s, f, ch));
                assert(s2.spots == s.spots.push((placed_page as int, y_val)));
                lemma_block_placed(*area_tree, t_c, t_b, t_start, t0, blocks, idx as int, base,
                    child_id, region_id, root_id, s.spots, s2.spots);
            }
            idx = idx + 1;
        }
        proof {
            assert(fs.take(n as int) =~= fs);
            assert(blocks.skip(n as int) =~= Seq::<AreaId>::empty());
        }
        Ok(page_ids)
    }
}

/// The loop step of `break_into_pages`: after block `idx` was moved, the placement facts
/// hold for blocks `0..=idx`, the areas keep their attributes and the root lost the block.
pub(crate) proof fn lemma_block_placed(t: AreaTree, t_c: AreaTree, t_b: AreaTree, t_start: AreaTree, t0: AreaTree,
    blocks: Seq<AreaId>, idx: int, base: nat, child: AreaId, region: AreaId, root: AreaId,
    spots: Seq<(int, int)>, spots2: Seq<(int, int)>)
    requires
        0 <= idx < blocks.len(),
        blocks.no_duplicates(),
        child == blocks[idx],
        forall|i: int| 0 <= i < blocks.len() ==> (#[trigger] blocks[i]).0 < base,
        root.0 < base,
        base == t0.len(),
        spots.len() == idx,
        spots2.len() == idx + 1,
        forall|i: int| 0 <= i < idx ==> spots2[i] == spots[i],
        region.0 == base + 2 * spots2[idx].0 + 1,
        extends(t, t_c),
        extends(t_b, t_start),
        t_c.len() == t_b.len(),
        t_start.len() >= base,
        t_c.parent_of(child.0 as int) == Some(region),
        t_c.area_of(child.0 as int).geometry.y.mp() == spots2[idx].1,
        same_but_y(t_c.area_of(child.0 as int), t_b.area_of(child.0 as int)),
        forall|i: int| 0 <= i < t_b.len() && i != child.0 ==> #[trigger] t_c.area_of(i) == t_b.area_of(i),
        forall|i: int| 0 <= i < t_b.len() && i != child.0 ==> #[trigger] t_c.parent_of(i) == t_b.parent_of(i),
        forall|i: int| 0 <= i < base ==> #[trigger] t_c.children_of(i) == seq_without(t_b.children_of(i), child),
        t_b.len() >= base,
        forall|i: int| 0 <= i < base ==> #[trigger] same_but_y(t_start.area_of(i), t0.area_of(i)),
        t_start.children_of(root.0 as int) == blocks.skip(idx),
        forall|i: int| 0 <= i < idx ==> {
            &&& t_start.parent_of((#[trigger] blocks[i]).0 as int) == Some(AreaId((base + 2 * spots[i].0 + 1) as usize))
            &&& t_start.area_of(blocks[i].0 as int).geometry.y.mp() == spots[i].1
        },
    ensures
        forall|i: int| 0 <= i < idx + 1 ==> {
            &&& t.parent_of((#[trigger] blocks[i]).0 as int) == Some(AreaId((base + 2 * spots2[i].0 + 1) as usize))
            &&& t.area_of(blocks[i].0 as int).geometry.y.mp() == spots2[i].1
        },
        forall|i: int| 0 <= i < base ==> #[trigger] same_but_y(t.area_of(i), t0.area_of(i)),
        t.children_of(root.0 as int) == blocks.skip(idx + 1),
{
    assert forall|i: int| 0 <= i < idx + 1 implies {
        &&& t.parent_of((#[trigger] blocks[i]).0 as int) == Some(AreaId((base + 2 * spots2[i].0 + 1) as usize))
        &&& t.area_of(blocks[i].0 as int).geometry.y.mp() == spots2[i].1
    } by {
        let b = blocks[i].0 as int;
        assert(same_node(t, t_c, b));
        if i < idx {
            assert(blocks[i] != blocks[idx]);
            assert(same_node(t_b, t_start, b));
        }
    }
    assert forall|i: int| 0 <= i < base implies #[trigger] same_but_y(t.area_of(i), t0.area_of(i)) by {
        assert(same_node(t, t_c, i));
        assert(same_node(t_b, t_start, i));
        assert(t_b.area_of(i) == t_start.area_of(i));
        assert(same_but_y(t_start.area_of(i), t0.area_of(i)));
        if i != child.0 {
            assert(t_c.area_of(i) == t_b.area_of(i));
        } else {
            assert(same_but_y(t_c.area_of(i), t_b.area_of(i)));
        }
    }
    lemma_without_skip(blocks, idx);
    assert(same_node(t, t_c, root.0 as int));
    assert(same_node(t_b, t_start, root.0 as int));
}

/// Keep decisions read only keep constraints, which did not change.
proof fn lemma_may_break_same(t: AreaTree, t0: AreaTree, blocks: Seq<AreaId>, i: int)
    requires
        0 <= i < blocks.len(),
        forall|j: int| 0 <= j < blocks.len() ==> (#[trigger] blocks[j]).0 < t0.len(),
        t0.len() <= t.len(),
        forall|j: int| 0 <= j < t0.len() ==> #[trigger] same_but_y(t.area_of(j), t0.area_of(j)),
    ensures
        may_break_before(t, blocks[i], i, blocks) == may_break_before(t0, blocks[i], i, blocks),
{
    assert(same_but_y(t.area_of(blocks[i].0 as int), t0.area_of(blocks[i].0 as int)));
    if i > 0 {
        assert(blocks[i - 1].0 < t0.len());
        assert(same_but_y(t.area_of(blocks[i - 1].0 as int), t0.area_of(blocks[i - 1].0 as int)));
    }
}

/// Removing an element other than `x` from `[x]` leaves `[x]`.
proof fn lemma_without_singleton(x: AreaId, c: AreaId)
    requires
        x != c,
    ensures
        seq_without(seq![x], c) == seq![x],
{
    assert(seq![x].drop_last() =~= Seq::<AreaId>::empty());
    assert(seq_without(Seq::<AreaId>::empty(), c) == Seq::<AreaId>::empty());
    assert(seq![x].last() == x);
    assert(Seq::<AreaId>::empty().push(x) =~= seq![x]);
}

/// Removing the first element of a duplicate-free sequence from a suffix of it.
proof fn lemma_without_skip(s: Seq<AreaId>, k: int)
    requires
        0 <= k < s.len(),
        s.no_duplicates(),
    ensures
        seq_without(s.skip(k), s[k]) == s.skip(k + 1),
    decreases s.len() - k,
{
    lemma_without_skip_rec(s, k, s.len() as int);
    assert(s.skip(k) =~= s.subrange(k, s.len() as int));
    assert(s.skip(k + 1) =~= s.subrange(k + 1, s.len() as int));
}

/// `seq_without(s[k..m], s[k]) == s[k+1..m]` for a duplicate-free `s`.
proof fn lemma_without_skip_rec(s: Seq<AreaId>, k: int, m: int)
    requires
        0 <= k < m <= s.len(),
        s.no_duplicates(),
    ensures
        seq_without(s.subrange(k, m), s[k]) == s.subrange(k + 1, m),
    decreases m - k,
{
    let x = s[k];
    let w = s.subrange(k, m);
    if m == k + 1 {
        assert(w.drop_last() =~= Seq::<AreaId>::empty());
        assert(w.last() == x);
        assert(seq_without(w.drop_last(), x) == Seq::<AreaId>::empty());
        assert(seq_without(w, x) == seq_without(w.drop_last(), x));
        assert(s.subrange(k + 1, m) =~= Seq::<AreaId>::empty());
    } else {
        lemma_without_skip_rec(s, k, m - 1);
        assert(w.drop_last() =~= s.subrange(k, m - 1));
        assert(w.last() == s[m - 1]);
        assert(s[m - 1] != x);
        assert(seq_without(w, x) == seq_without(w.drop_last(), x).push(w.last()));
        assert(s.subrange(k + 1, m) =~= s.subrange(k + 1, m - 1).push(s[m - 1]));
    }
}

/// An owned error message.
fn error_text(msg: &str) -> (r: String)
    ensures
        r@ == msg@,
{
    msg.to_string()
}

/// Every area of `o` is unchanged in `t`, which may hold more areas.
pub open spec fn extends(t: AreaTree, o: AreaTree) -> bool {
    &&& t.len() >= o.len()
    &&& forall|i: int| 0 <= i < o.len() ==> #[trigger] same_node(t, o, i)
}

/// [`extends`] is transitive.
pub(crate) proof fn lemma_extends_trans(a: AreaTree, b: AreaTree, c: AreaTree)
    requires
        extends(a, b),
        extends(b, c),
    ensures
        extends(a, c),
{
    assert forall|i: int| 0 <= i < c.len() implies #[trigger] same_node(a, c, i) by {
        assert(same_node(a, b, i));
        assert(same_node(b, c, i));
    }
}

/// A copy of a list of ids.
fn copy_ids(v: &Vec<AreaId>) -> (r: Vec<AreaId>)
    ensures
        r@ == v@,
{
    let mut out: Vec<AreaId> = Vec::new();
    let n = v.len();
    let mut k: usize = 0;
    while k < n
        invariant
            n == v@.len(),
            k <= n,
            out@ == v@.take(k as int),
        decreases n - k,
    {
        out.push(v[k]);
        k = k + 1;
        proof { assert(out@ =~= v@.take(k as int)); }
    }
    proof { assert(v@.take(n as int) =~= v@); }
    out
}

/// Every line count is non-negative.
proof fn lemma_line_count_nonneg(tree: AreaTree, i: int, ids: Seq<AreaId>, fuel: nat)
    ensures
        line_count(tree, i, fuel) >= 0,
        line_count_list(tree, ids, fuel) >= 0,
    decreases fuel, ids.len(),
{
    if ids.len() > 0 {
        lemma_line_count_nonneg(tree, ids.last().0 as int, ids.drop_last(), fuel);
    }
    if fuel > 0 && 0 <= i < tree.len() {
        lemma_line_count_nonneg(tree, i, tree.children_of(i), (fuel - 1) as nat);
    }
}

/// Line count of the subtree of `id` with `fuel` levels.
fn count_lines_in(tree: &AreaTree, id: AreaId, fuel: usize) -> (r: i32)
    requires
        tree.wf(),
        line_count(*tree, id.0 as int, fuel as nat) <= i32::MAX,
    ensures
        r == line_count(*tree, id.0 as int, fuel as nat),
    decreases fuel, 0int,
{
    if fuel == 0 {
        return 0;
    }
    match tree.get(id) {
        None => 0,
        Some(node) => {
            let own: i32 = match node.area.area_type {
                AreaType::Line | AreaType::Text | AreaType::Inline => 1,
                _ => 0,
            };
            let children = tree.children(id);
            proof {
                lemma_line_count_nonneg(*tree, id.0 as int, children@, (fuel - 1) as nat);
            }
            let rest = count_lines_in_list(tree, &children, fuel - 1);
            own + rest
        }
    }
}

/// Line counts of `ids` summed, with `fuel` levels each.
fn count_lines_in_list(tree: &AreaTree, ids: &Vec<AreaId>, fuel: usize) -> (r: i32)
    requires
        tree.wf(),
        line_count_list(*tree, ids@, fuel as nat) <= i32::MAX,
    ensures
        r == line_count_list(*tree, ids@, fuel as nat),
    decreases fuel, 1int,
{
    let n = ids.len();
    let mut total: i32 = 0;
    let mut k: usize = 0;
    while k < n
        invariant
            n == ids@.len(),
            k <= n,
            tree.wf(),
            line_count_list(*tree, ids@, fuel as nat) <= i32::MAX,
            total == line_count_list(*tree, ids@.take(k as int), fuel as nat),
        decreases n - k,
    {
        proof {
            assert(ids@.take(k as int + 1).drop_last() =~= ids@.take(k as int));
            lemma_line_count_list_prefix(*tree, ids@, (k + 1) as int, fuel as nat);
            lemma_line_count_nonneg(*tree, ids@[k as int].0 as int, ids@, fuel as nat);
            lemma_line_count_nonneg(*tree, 0, ids@.take(k as int), fuel as nat);
        }
        let c = count_lines_in(tree, ids[k], fuel);
        total = total + c;
        k = k + 1;
    }
    proof { assert(ids@.take(n as int) =~= ids@); }
    total
}

/// A prefix of a list never counts more lines than the whole list.
proof fn lemma_line_count_list_prefix(tree: AreaTree, ids: Seq<AreaId>, k: int, fuel: nat)
    requires
        0 <= k <= ids.len(),
    ensures
        line_count_list(tree, ids.take(k), fuel) <= line_count_list(tree, ids, fuel),
    decreases ids.len(),
{
    if k < ids.len() {
        assert(ids.drop_last().take(k) =~= ids.take(k));
        lemma_line_count_list_prefix(tree, ids.drop_last(), k, fuel);
        lemma_line_count_nonneg(tree, ids.last().0 as int, ids, fuel);
    } else {
        assert(ids.take(k) =~= ids);
    }
}

} // verus!
