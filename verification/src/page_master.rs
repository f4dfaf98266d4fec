//! The region geometry of a page from its simple page master: the page size, the page
//! margins, the extents of the before, after, start and end regions and the inner margins of
//! the region body.
//!
//! A simple page master is given by the values its formatting object holds: each property
//! is `None` when it is absent or not a length, and the region children come in document
//! order.

use vstd::prelude::*;
use crate::engine::LayoutEngine;
use crate::geometry::{Point, Rect, Size};
use crate::length::Length;
use crate::textfmt::same_text;

verus! {

/// A region child of a simple page master.
#[derive(Debug, Clone, Copy)]
pub enum RegionSpec {
    /// `fo:region-before`, with its `extent`.
    Before { extent: Option<Length> },
    /// `fo:region-after`, with its `extent`.
    After { extent: Option<Length> },
    /// `fo:region-start`, with its `extent`.
    Start { extent: Option<Length> },
    /// `fo:region-end`, with its `extent`.
    End { extent: Option<Length> },
    /// `fo:region-body`, with its inner margins.
    Body {
        margin_top: Option<Length>,
        margin_bottom: Option<Length>,
        margin_left: Option<Length>,
        margin_right: Option<Length>,
    },
}

/// An `fo:simple-page-master`: its name, page size, page margins and region children.
#[derive(Debug, Clone)]
pub struct SimplePageMaster {
    pub master_name: String,
    pub page_width: Option<Length>,
    pub page_height: Option<Length>,
    pub margin_top: Option<Length>,
    pub margin_bottom: Option<Length>,
    pub margin_left: Option<Length>,
    pub margin_right: Option<Length>,
    pub regions: Vec<RegionSpec>,
}

/// The rectangles of a page's five regions, in page coordinates (origin top left).
#[derive(Debug, Clone, Copy)]
pub struct PageRegionGeometry {
    pub page_width: Length,
    pub page_height: Length,
    pub before_rect: Rect,
    pub after_rect: Rect,
    pub start_rect: Rect,
    pub end_rect: Rect,
    pub body_rect: Rect,
}

/// The value of a length property in millipoints, or `default` when it is absent.
pub open spec fn length_or(v: Option<Length>, default: int) -> int {
    match v {
        Some(l) => l.mp(),
        None => default,
    }
}

/// What the region children give: the four extents and the body's inner margins (top,
/// bottom, left, right), each zero unless set; a later region of a kind replaces an
/// earlier one.
pub struct RegionFacts {
    pub before: int,
    pub after: int,
    pub start: int,
    pub end: int,
    pub body_top: int,
    pub body_bottom: int,
    pub body_left: int,
    pub body_right: int,
}

/// The region facts of the first `k` region children.
pub open spec fn region_facts(regions: Seq<RegionSpec>, k: int) -> RegionFacts
    decreases k,
{
    if k <= 0 {
        RegionFacts { before: 0, after: 0, start: 0, end: 0, body_top: 0, body_bottom: 0, body_left: 0, body_right: 0 }
    } else {
        let f = region_facts(regions, k - 1);
        match regions[k - 1] {
            RegionSpec::Before { extent } => RegionFacts { before: length_or(extent, 0), ..f },
            RegionSpec::After { extent } => RegionFacts { after: length_or(extent, 0), ..f },
            RegionSpec::Start { extent } => RegionFacts { start: length_or(extent, 0), ..f },
            RegionSpec::End { extent } => RegionFacts { end: length_or(extent, 0), ..f },
            RegionSpec::Body { margin_top, margin_bottom, margin_left, margin_right } => RegionFacts {
                body_top: length_or(margin_top, 0),
                body_bottom: length_or(margin_bottom, 0),
                body_left: length_or(margin_left, 0),
                body_right: length_or(margin_right, 0),
                ..f
            },
        }
    }
}

/// A rectangle as `(x, y, width, height)` in millipoints.
pub open spec fn rect_view(r: Rect) -> (int, int, int, int) {
    (r.x.mp(), r.y.mp(), r.width.mp(), r.height.mp())
}

/// A region geometry as numbers: page width and height, then the before, after, start, end
/// and body rectangles.
pub struct GeometryModel {
    pub page_width: int,
    pub page_height: int,
    pub before: (int, int, int, int),
    pub after: (int, int, int, int),
    pub start: (int, int, int, int),
    pub end: (int, int, int, int),
    pub body: (int, int, int, int),
}

/// The numbers of a region geometry.
pub open spec fn geometry_view(g: PageRegionGeometry) -> GeometryModel {
    GeometryModel {
        page_width: g.page_width.mp(),
        page_height: g.page_height.mp(),
        before: rect_view(g.before_rect),
        after: rect_view(g.after_rect),
        start: rect_view(g.start_rect),
        end: rect_view(g.end_rect),
        body: rect_view(g.body_rect),
    }
}

/// One inch, the default page margin, in millipoints.
pub open spec fn default_margin() -> int {
    72000
}

/// The region geometry of master `m` on pages of default size `dw` by `dh`: the content
/// area is the page less its margins (an inch each by default); before and after are strips
/// at its top and bottom, start and end strips at its left and right between them, and the
/// body is what remains, less its inner margins.
pub open spec fn master_geometry(m: SimplePageMaster, dw: int, dh: int) -> GeometryModel {
    let pw = length_or(m.page_width, dw);
    let ph = length_or(m.page_height, dh);
    let mt = length_or(m.margin_top, default_margin());
    let mb = length_or(m.margin_bottom, default_margin());
    let ml = length_or(m.margin_left, default_margin());
    let mr = length_or(m.margin_right, default_margin());
    let f = region_facts(m.regions@, m.regions@.len() as int);
    let cw = pw - ml - mr;
    let ch = ph - mt - mb;
    let side_top = mt + f.before;
    let side_h = ch - f.before - f.after;
    GeometryModel {
        page_width: pw,
        page_height: ph,
        before: (ml, mt, cw, f.before),
        after: (ml, mt + ch - f.after, cw, f.after),
        start: (ml, side_top, f.start, side_h),
        end: (ml + cw - f.end, side_top, f.end, side_h),
        body: (ml + f.start + f.body_left, side_top + f.body_top, cw - f.start - f.end - f.body_left - f.body_right,
            side_h - f.body_top - f.body_bottom),
    }
}

/// Law: the regions of a master tile its content area (the page less its margins). Before
/// and after span the content width at its top and bottom; start and end fill the height
/// between them at its left and right; the body, together with its inner margins, exactly
/// fills the space between start and end and between before and after. Each outer region is
/// as deep as its extent.
pub proof fn law_regions_tile_content(m: SimplePageMaster, dw: int, dh: int)
    ensures
        ({
            let g = master_geometry(m, dw, dh);
            let f = region_facts(m.regions@, m.regions@.len() as int);
            let ml = length_or(m.margin_left, default_margin());
            let mr = length_or(m.margin_right, default_margin());
            let mt = length_or(m.margin_top, default_margin());
            let mb = length_or(m.margin_bottom, default_margin());
            &&& g.before.0 == ml && g.before.1 == mt && g.before.0 + g.before.2 + mr == g.page_width
            &&& g.before.3 == f.before && g.after.3 == f.after && g.start.2 == f.start && g.end.2 == f.end
            &&& g.after.0 == ml && g.after.2 == g.before.2 && g.after.1 + g.after.3 + mb == g.page_height
            &&& g.start.0 == ml && g.start.1 == g.before.1 + g.before.3 && g.start.1 + g.start.3 == g.after.1
            &&& g.end.0 + g.end.2 == g.before.0 + g.before.2 && g.end.1 == g.start.1 && g.end.3 == g.start.3
            &&& g.body.0 - f.body_left == g.start.0 + g.start.2
            &&& g.body.0 + g.body.2 + f.body_right == g.end.0
            &&& g.body.1 - f.body_top == g.before.1 + g.before.3
            &&& g.body.1 + g.body.3 + f.body_bottom == g.after.1
        }),
{
}

/// The geometry used when no master of the name exists: the default page with inch margins
/// and empty regions at the origin.
pub open spec fn fallback_geometry(dw: int, dh: int) -> GeometryModel {
    GeometryModel {
        page_width: dw,
        page_height: dh,
        before: (0, 0, 0, 0),
        after: (0, 0, 0, 0),
        start: (0, 0, 0, 0),
        end: (0, 0, 0, 0),
        body: (default_margin(), default_margin(), dw - 2 * default_margin(), dh - 2 * default_margin()),
    }
}

/// The index of the first master named `name` among the first `k`, if any.
pub open spec fn find_master(masters: Seq<SimplePageMaster>, name: Seq<char>, k: int) -> Option<int>
    decreases k,
{
    if k <= 0 {
        None
    } else {
        match find_master(masters, name, k - 1) {
            Some(i) => Some(i),
            None => if masters[k - 1].master_name@ == name { Some(k - 1) } else { None },
        }
    }
}

/// The region geometry for pages of master `name`.
pub open spec fn page_geometry(masters: Seq<SimplePageMaster>, name: Seq<char>, dw: int, dh: int) -> GeometryModel {
    match find_master(masters, name, masters.len() as int) {
        Some(i) => master_geometry(masters[i], dw, dh),
        None => fallback_geometry(dw, dh),
    }
}

/// Whether a value fits in a length.
pub open spec fn fits_i32(v: int) -> bool {
    i32::MIN <= v <= i32::MAX
}

/// Whether every number of a geometry fits in a length.
pub open spec fn geometry_fits(g: GeometryModel) -> bool {
    &&& fits_i32(g.page_width) && fits_i32(g.page_height)
    &&& fits_i32(g.before.0) && fits_i32(g.before.1) && fits_i32(g.before.2) && fits_i32(g.before.3)
    &&& fits_i32(g.after.0) && fits_i32(g.after.1) && fits_i32(g.after.2) && fits_i32(g.after.3)
    &&& fits_i32(g.start.0) && fits_i32(g.start.1) && fits_i32(g.start.2) && fits_i32(g.start.3)
    &&& fits_i32(g.end.0) && fits_i32(g.end.1) && fits_i32(g.end.2) && fits_i32(g.end.3)
    &&& fits_i32(g.body.0) && fits_i32(g.body.1) && fits_i32(g.body.2) && fits_i32(g.body.3)
}

/// The value of a length property, or `default` when it is absent.
fn length_value(v: Option<Length>, default: i64) -> (r: i64)
    requires
        fits_i32(default as int),
    ensures
        r == length_or(v, default as int),
        fits_i32(r as int),
{
    match v {
        Some(l) => l.millipoints() as i64,
        None => default,
    }
}

/// A length of `v` millipoints.
fn len_of(v: i64) -> (r: Length)
    requires
        fits_i32(v as int),
    ensures
        r.mp() == v,
{
    Length::from_millipoints(v as i32)
}

/// A rectangle from four numbers.
fn rect_of(x: i64, y: i64, w: i64, h: i64) -> (r: Rect)
    requires
        fits_i32(x as int),
        fits_i32(y as int),
        fits_i32(w as int),
        fits_i32(h as int),
    ensures
        rect_view(r) == (x as int, y as int, w as int, h as int),
{
    Rect::from_point_size(Point::new(len_of(x), len_of(y)), Size::new(len_of(w), len_of(h)))
}

/// The region facts of a master's region children.
fn collect_region_facts(regions: &Vec<RegionSpec>) -> (r: (i64, i64, i64, i64, i64, i64, i64, i64))
    ensures
        ({
            let f = region_facts(regions@, regions@.len() as int);
            &&& r.0 == f.before && r.1 == f.after && r.2 == f.start && r.3 == f.end
            &&& r.4 == f.body_top && r.5 == f.body_bottom && r.6 == f.body_left && r.7 == f.body_right
        }),
        fits_i32(r.0 as int) && fits_i32(r.1 as int) && fits_i32(r.2 as int) && fits_i32(r.3 as int),
        fits_i32(r.4 as int) && fits_i32(r.5 as int) && fits_i32(r.6 as int) && fits_i32(r.7 as int),
{
    let mut before: i64 = 0;
    let mut after: i64 = 0;
    let mut start: i64 = 0;
    let mut end: i64 = 0;
    let mut bt: i64 = 0;
    let mut bb: i64 = 0;
    let mut bl: i64 = 0;
    let mut br: i64 = 0;
    let mut k: usize = 0;
    while k < regions.len()
        invariant
            k <= regions@.len(),
            ({
                let f = region_facts(regions@, k as int);
                &&& before == f.before && after == f.after && start == f.start && end == f.end
                &&& bt == f.body_top && bb == f.body_bottom && bl == f.body_left && br == f.body_right
            }),
            fits_i32(before as int) && fits_i32(after as int) && fits_i32(start as int) && fits_i32(end as int),
            fits_i32(bt as int) && fits_i32(bb as int) && fits_i32(bl as int) && fits_i32(br as int),
        decreases regions@.len() - k,
    {
        match regions[k] {
            RegionSpec::Before { extent } => { before = length_value(extent, 0); },
            RegionSpec::After { extent } => { after = length_value(extent, 0); },
            RegionSpec::Start { extent } => { start = length_value(extent, 0); },
            RegionSpec::End { extent } => { end = length_value(extent, 0); },
            RegionSpec::Body { margin_top, margin_bottom, margin_left, margin_right } => {
                bt = length_value(margin_top, 0);
                bb = length_value(margin_bottom, 0);
                bl = length_value(margin_left, 0);
                br = length_value(margin_right, 0);
            },
        }
        k = k + 1;
    }
    (before, after, start, end, bt, bb, bl, br)
}

impl LayoutEngine {
    /// The region geometry for pages of master `master_reference`: that of the first simple
    /// page master of the name in `masters` (the simple page masters of the document's
    /// layout master sets, in document order), or, when there is none, the engine's default
    /// page with one-inch margins and empty regions.
    pub fn extract_page_region_geometry(&self, masters: &Vec<SimplePageMaster>, master_reference: &str)
        -> (r: PageRegionGeometry)
        requires
            geometry_fits(page_geometry(masters@, master_reference@, self.page_width.mp(), self.page_height.mp())),
        ensures
            geometry_view(r) == page_geometry(masters@, master_reference@, self.page_width.mp(), self.page_height.mp()),
    {
        let dw = self.page_width.millipoints() as i64;
        let dh = self.page_height.millipoints() as i64;
        let n = masters.len();
        let mut k: usize = 0;
        while k < n
            invariant
                n == masters@.len(),
                k <= n,
                find_master(masters@, master_reference@, k as int) is None,
                geometry_fits(page_geometry(masters@, master_reference@, self.page_width.mp(), self.page_height.mp())),
            decreases n - k,
        {
            if same_text(masters[k].master_name.as_str(), master_reference) {
                proof {
                    assert(find_master(masters@, master_reference@, k as int + 1) == Some(k as int));
                    lemma_find_master_stays(masters@, master_reference@, k as int + 1, n as int);
                }
                return self.master_region_geometry(&masters[k]);
            }
            k = k + 1;
        }
        let m: i64 = 72000;
        rect_and_fallback(dw, dh, m)
    }

    /// The region geometry of master `m` on this engine's default page.
    fn master_region_geometry(&self, m: &SimplePageMaster) -> (r: PageRegionGeometry)
        requires
            geometry_fits(master_geometry(*m, self.page_width.mp(), self.page_height.mp())),
        ensures
            geometry_view(r) == master_geometry(*m, self.page_width.mp(), self.page_height.mp()),
    {
        let dw = self.page_width.millipoints() as i64;
        let dh = self.page_height.millipoints() as i64;
        let pw = length_value(m.page_width, dw);
        let ph = length_value(m.page_height, dh);
        let mt = length_value(m.margin_top, 72000);
        let mb = length_value(m.margin_bottom, 72000);
        let ml = length_value(m.margin_left, 72000);
        let mr = length_value(m.margin_right, 72000);
        let (before, after, start, end, bt, bb, bl, br) = collect_region_facts(&m.regions);
        let cw = pw - ml - mr;
        let ch = ph - mt - mb;
        let side_top = mt + before;
        let side_h = ch - before - after;
        PageRegionGeometry {
            page_width: len_of(pw),
            page_height: len_of(ph),
            before_rect: rect_of(ml, mt, cw, before),
            after_rect: rect_of(ml, mt + ch - after, cw, after),
            start_rect: rect_of(ml, side_top, start, side_h),
            end_rect: rect_of(ml + cw - end, side_top, end, side_h),
            body_rect: rect_of(ml + start + bl, side_top + bt, cw - start - end - bl - br, side_h - bt - bb),
        }
    }
}

/// The geometry used when no master matches: a page of `dw` by `dh` with margins `m`.
fn rect_and_fallback(dw: i64, dh: i64, m: i64) -> (r: PageRegionGeometry)
    requires
        m == default_margin(),
        geometry_fits(fallback_geometry(dw as int, dh as int)),
    ensures
        geometry_view(r) == fallback_geometry(dw as int, dh as int),
{
    PageRegionGeometry {
        page_width: len_of(dw),
        page_height: len_of(dh),
        before_rect: rect_of(0, 0, 0, 0),
        after_rect: rect_of(0, 0, 0, 0),
        start_rect: rect_of(0, 0, 0, 0),
        end_rect: rect_of(0, 0, 0, 0),
        body_rect: rect_of(m, m, dw - 2 * m, dh - 2 * m),
    }
}

/// Once a master is found among the first `k`, it stays the one found among more.
proof fn lemma_find_master_stays(masters: Seq<SimplePageMaster>, name: Seq<char>, k: int, j: int)
    requires
        0 <= k <= j,
        find_master(masters, name, k) is Some,
    ensures
        find_master(masters, name, j) == find_master(masters, name, k),
    decreases j - k,
{
    if j > k {
        lemma_find_master_stays(masters, name, k, j - 1);
    }
}

} // verus!
