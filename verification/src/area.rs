//! The area tree: an arena of rectangular areas linked by parent/child edges.

use vstd::prelude::*;
use crate::length::Length;
use crate::geometry::{Color, Rect};

verus! {

/// Index of an area in an [`AreaTree`].
#[derive(Debug, Clone, Copy, PartialEq, Eq, Structural, Hash)]
pub struct AreaId(pub usize);

/// Kinds of areas produced by layout.
#[derive(Debug, Clone, Copy, PartialEq, Eq, Structural)]
pub enum AreaType {
    Page,
    Region,
    Column,
    Header,
    Footer,
    SidebarStart,
    SidebarEnd,
    Block,
    Line,
    Inline,
    Text,
    Space,
    Viewport,
    Footnote,
    FootnoteSeparator,
}

/// Strength of a keep condition.
#[derive(Debug, Clone, Copy, PartialEq, Eq, Structural)]
pub enum Keep {
    Auto,
    Always,
    Integer(i32),
}

impl Keep {
    /// Whether the keep condition is in force (anything but `auto`).
    pub fn is_active(&self) -> (r: bool)
        ensures
            r == !(*self is Auto),
    {
        match self {
            Keep::Auto => false,
            _ => true,
        }
    }
}

/// The three keep properties of a block.
#[derive(Debug, Clone, Copy, PartialEq, Eq, Structural)]
pub struct KeepConstraint {
    pub keep_together: Keep,
    pub keep_with_next: Keep,
    pub keep_with_previous: Keep,
}

impl KeepConstraint {
    /// A constraint with every keep set to `auto`.
    pub fn new() -> (r: KeepConstraint)
        ensures
            r.keep_together is Auto,
            r.keep_with_next is Auto,
            r.keep_with_previous is Auto,
    {
        KeepConstraint { keep_together: Keep::Auto, keep_with_next: Keep::Auto, keep_with_previous: Keep::Auto }
    }

    /// Whether the block must not be split.
    pub fn must_keep_together(&self) -> (r: bool)
        ensures
            r == !(self.keep_together is Auto),
    {
        self.keep_together.is_active()
    }

    /// Whether the block must stay on the page of the next block.
    pub fn must_keep_with_next(&self) -> (r: bool)
        ensures
            r == !(self.keep_with_next is Auto),
    {
        self.keep_with_next.is_active()
    }

    /// Whether the block must stay on the page of the previous block.
    pub fn must_keep_with_previous(&self) -> (r: bool)
        ensures
            r == !(self.keep_with_previous is Auto),
    {
        self.keep_with_previous.is_active()
    }
}

/// Values of the `break-before` / `break-after` properties.
#[derive(Debug, Clone, Copy, PartialEq, Eq, Structural)]
pub enum BreakValue {
    Auto,
    Column,
    Page,
    EvenPage,
    OddPage,
}

impl BreakValue {
    /// Whether the value starts a new page.
    pub fn forces_page_break(&self) -> (r: bool)
        ensures
            r == (*self is Page || *self is EvenPage || *self is OddPage),
    {
        match self {
            BreakValue::Page | BreakValue::EvenPage | BreakValue::OddPage => true,
            _ => false,
        }
    }

    /// Whether the next page must be even-numbered.
    pub fn requires_even_page(&self) -> (r: bool)
        ensures
            r == (*self is EvenPage),
    {
        match self {
            BreakValue::EvenPage => true,
            _ => false,
        }
    }

    /// Whether the next page must be odd-numbered.
    pub fn requires_odd_page(&self) -> (r: bool)
        ensures
            r == (*self is OddPage),
    {
        match self {
            BreakValue::OddPage => true,
            _ => false,
        }
    }
}

/// Border line styles.
#[derive(Debug, Clone, Copy, PartialEq, Eq, Structural)]
pub enum BorderStyle {
    NoStyle,
    Solid,
    Dashed,
    Dotted,
    Double,
    Groove,
    Ridge,
    Inset,
    Outset,
    Hidden,
}

/// Horizontal alignment of lines.
#[derive(Debug, Clone, Copy, PartialEq, Eq, Structural)]
pub enum TextAlign {
    Left,
    Right,
    Center,
    Justify,
}

/// Case changes applied to text.
#[derive(Debug, Clone, Copy, PartialEq, Eq, Structural)]
pub enum TextTransform {
    Uppercase,
    Lowercase,
    Capitalize,
}

/// Font slopes.
#[derive(Debug, Clone, Copy, PartialEq, Eq, Structural)]
pub enum FontStyle {
    Normal,
    Italic,
    Oblique,
}

/// Font variants.
#[derive(Debug, Clone, Copy, PartialEq, Eq, Structural)]
pub enum FontVariant {
    SmallCaps,
}

/// Placement of content along the block-progression direction of its container.
#[derive(Debug, Clone, Copy, PartialEq, Eq, Structural)]
pub enum DisplayAlign {
    Before,
    Center,
    After,
}

/// Condensed and expanded font faces.
#[derive(Debug, Clone, Copy, PartialEq, Eq, Structural)]
pub enum FontStretch {
    UltraCondensed,
    ExtraCondensed,
    Condensed,
    SemiCondensed,
    SemiExpanded,
    Expanded,
    ExtraExpanded,
    UltraExpanded,
}

/// Writing modes: the line and block progression directions.
#[derive(Debug, Clone, Copy, PartialEq, Eq, Structural)]
pub enum WritingMode {
    LrTb,
    RlTb,
    TbRl,
    TbLr,
}

/// Inline progression direction.
#[derive(Debug, Clone, Copy, PartialEq, Eq, Structural)]
pub enum Direction {
    Ltr,
    Rtl,
}

/// Whether a block spans all columns of a multi-column region.
#[derive(Debug, Clone, Copy, PartialEq, Eq, Structural)]
pub enum Span {
    NoSpan,
    All,
}

/// Presentation traits attached to an area.
#[derive(Debug)]
pub struct TraitSet {
    pub font_size: Option<Length>,
    pub font_family: Option<String>,
    pub color: Option<Color>,
    pub background_color: Option<Color>,
    pub border_width: Option<[Length; 4]>,
    pub border_color: Option<[Color; 4]>,
    pub border_style: Option<[BorderStyle; 4]>,
    /// Padding: top, right, bottom, left.
    pub padding: Option<[Length; 4]>,
    pub text_align: Option<TextAlign>,
    pub text_align_last: Option<TextAlign>,
    pub text_transform: Option<TextTransform>,
    pub font_variant: Option<FontVariant>,
    pub display_align: Option<DisplayAlign>,
    pub font_stretch: Option<FontStretch>,
    pub writing_mode: WritingMode,
    pub direction: Direction,
    pub span: Span,
    pub hyphenate: Option<bool>,
    pub change_bar_color: Option<Color>,
    pub font_weight: Option<u16>,
    pub font_style: Option<FontStyle>,
    pub hyphenation_push_chars: Option<u32>,
    pub hyphenation_remain_chars: Option<u32>,
    pub role: Option<String>,
    pub xml_lang: Option<String>,
}

impl TraitSet {
    /// Whether every trait is unset.
    pub open spec fn is_unset(&self) -> bool {
        &&& self.font_size is None
        &&& self.font_family is None
        &&& self.color is None
        &&& self.background_color is None
        &&& self.border_width is None
        &&& self.border_color is None
        &&& self.border_style is None
        &&& self.other_traits_unset()
    }

    /// Whether the padding and the text traits are unset (the writing mode, direction and
    /// span at their initial values).
    pub open spec fn other_traits_unset(&self) -> bool {
        &&& self.padding is None
        &&& self.text_align is None
        &&& self.text_align_last is None
        &&& self.text_transform is None
        &&& self.font_variant is None
        &&& self.display_align is None
        &&& self.font_stretch is None
        &&& self.writing_mode is LrTb
        &&& self.direction is Ltr
        &&& self.span is NoSpan
        &&& self.hyphenate is None
        &&& self.change_bar_color is None
        &&& self.font_weight is None
        &&& self.font_style is None
        &&& self.hyphenation_push_chars is None
        &&& self.hyphenation_remain_chars is None
        &&& self.role is None
        &&& self.xml_lang is None
    }

    /// A copy of the traits.
    pub fn duplicate(&self) -> (r: TraitSet)
        ensures
            r.font_size == self.font_size,
            r.font_family == self.font_family,
            r.color == self.color,
            r.background_color == self.background_color,
            r.border_width == self.border_width,
            r.border_color == self.border_color,
            r.border_style == self.border_style,
            r.padding == self.padding,
            r.text_align == self.text_align,
            r.text_align_last == self.text_align_last,
            r.text_transform == self.text_transform,
            r.font_variant == self.font_variant,
            r.display_align == self.display_align,
            r.font_stretch == self.font_stretch,
            r.writing_mode == self.writing_mode,
            r.direction == self.direction,
            r.span == self.span,
            r.hyphenate == self.hyphenate,
            r.change_bar_color == self.change_bar_color,
            r.font_weight == self.font_weight,
            r.font_style == self.font_style,
            r.hyphenation_push_chars == self.hyphenation_push_chars,
            r.hyphenation_remain_chars == self.hyphenation_remain_chars,
            r.role == self.role,
            r.xml_lang == self.xml_lang,
    {
        let font_family = match &self.font_family {
            Some(f) => Some(f.clone()),
            None => None,
        };
        let role = match &self.role {
            Some(f) => Some(f.clone()),
            None => None,
        };
        let xml_lang = match &self.xml_lang {
            Some(f) => Some(f.clone()),
            None => None,
        };
        TraitSet {
            font_size: self.font_size,
            font_family,
            color: self.color,
            background_color: self.background_color,
            border_width: self.border_width,
            border_color: self.border_color,
            border_style: self.border_style,
            padding: self.padding,
            text_align: self.text_align,
            text_align_last: self.text_align_last,
            text_transform: self.text_transform,
            font_variant: self.font_variant,
            display_align: self.display_align,
            font_stretch: self.font_stretch,
            writing_mode: self.writing_mode,
            direction: self.direction,
            span: self.span,
            hyphenate: self.hyphenate,
            change_bar_color: self.change_bar_color,
            font_weight: self.font_weight,
            font_style: self.font_style,
            hyphenation_push_chars: self.hyphenation_push_chars,
            hyphenation_remain_chars: self.hyphenation_remain_chars,
            role,
            xml_lang,
        }
    }
}

impl Default for TraitSet {
    fn default() -> (r: TraitSet)
        ensures
            r.is_unset(),
    {
        TraitSet {
            font_size: None,
            font_family: None,
            color: None,
            background_color: None,
            border_width: None,
            border_color: None,
            border_style: None,
            padding: None,
            text_align: None,
            text_align_last: None,
            text_transform: None,
            font_variant: None,
            display_align: None,
            font_stretch: None,
            writing_mode: WritingMode::LrTb,
            direction: Direction::Ltr,
            span: Span::NoSpan,
            hyphenate: None,
            change_bar_color: None,
            font_weight: None,
            font_style: None,
            hyphenation_push_chars: None,
            hyphenation_remain_chars: None,
            role: None,
            xml_lang: None,
        }
    }
}

/// Content carried by leaf areas.
#[derive(Debug)]
pub enum AreaContent {
    Text(String),
}

/// A rectangular area of the laid-out document.
#[derive(Debug)]
pub struct Area {
    pub area_type: AreaType,
    pub geometry: Rect,
    pub traits: TraitSet,
    pub content: Option<AreaContent>,
    pub keep_constraint: Option<KeepConstraint>,
    pub break_before: Option<BreakValue>,
    pub break_after: Option<BreakValue>,
}

impl Area {
    /// A fresh area of the given type and geometry with no traits, content or constraints.
    pub fn new(area_type: AreaType, geometry: Rect) -> (r: Area)
        ensures
            r.area_type == area_type,
            r.geometry == geometry,
            r.traits.is_unset(),
            r.content is None,
            r.keep_constraint is None,
            r.break_before is None,
            r.break_after is None,
    {
        Area {
            area_type,
            geometry,
            traits: TraitSet::default(),
            content: None,
            keep_constraint: None,
            break_before: None,
            break_after: None,
        }
    }

    /// The same area with the given keep constraint.
    pub fn with_keep_constraint(self, constraint: KeepConstraint) -> (r: Area)
        ensures
            r.keep_constraint == Some(constraint),
            r.area_type == self.area_type,
            r.geometry == self.geometry,
            r.traits == self.traits,
            r.content == self.content,
            r.break_before == self.break_before,
            r.break_after == self.break_after,
    {
        let mut a = self;
        a.keep_constraint = Some(constraint);
        a
    }

    /// The same area with the given traits.
    pub fn with_traits(self, traits: TraitSet) -> (r: Area)
        ensures
            r.traits == traits,
            r.keep_constraint == self.keep_constraint,
            r.area_type == self.area_type,
            r.geometry == self.geometry,
            r.content == self.content,
            r.break_before == self.break_before,
            r.break_after == self.break_after,
    {
        let mut a = self;
        a.traits = traits;
        a
    }

    /// The same area with the given break-before value.
    pub fn with_break_before(self, value: BreakValue) -> (r: Area)
        ensures
            r.break_before == Some(value),
            r.traits == self.traits,
            r.keep_constraint == self.keep_constraint,
            r.area_type == self.area_type,
            r.geometry == self.geometry,
            r.content == self.content,
            r.break_after == self.break_after,
    {
        let mut a = self;
        a.break_before = Some(value);
        a
    }

    /// The same area with the given break-after value.
    pub fn with_break_after(self, value: BreakValue) -> (r: Area)
        ensures
            r.break_after == Some(value),
            r.traits == self.traits,
            r.keep_constraint == self.keep_constraint,
            r.area_type == self.area_type,
            r.geometry == self.geometry,
            r.content == self.content,
            r.break_before == self.break_before,
    {
        let mut a = self;
        a.break_after = Some(value);
        a
    }

    /// Height of the area.
    pub fn height(&self) -> (r: Length)
        ensures
            r == self.geometry.height,
    {
        self.geometry.height
    }

    /// Width of the area.
    pub fn width(&self) -> (r: Length)
        ensures
            r == self.geometry.width,
    {
        self.geometry.width
    }

    /// A copy of the area.
    pub fn duplicate(&self) -> (r: Area)
        ensures
            r.area_type == self.area_type,
            r.geometry == self.geometry,
            r.keep_constraint == self.keep_constraint,
            r.break_before == self.break_before,
            r.break_after == self.break_after,
            r.content == self.content,
            r.traits.font_size == self.traits.font_size,
            r.traits.font_family == self.traits.font_family,
            r.traits.color == self.traits.color,
            r.traits.background_color == self.traits.background_color,
            r.traits.border_width == self.traits.border_width,
            r.traits.border_color == self.traits.border_color,
            r.traits.border_style == self.traits.border_style,
            r.traits.padding == self.traits.padding,
            r.traits.text_align == self.traits.text_align,
            r.traits.text_align_last == self.traits.text_align_last,
            r.traits.text_transform == self.traits.text_transform,
            r.traits.font_variant == self.traits.font_variant,
            r.traits.display_align == self.traits.display_align,
            r.traits.font_stretch == self.traits.font_stretch,
            r.traits.writing_mode == self.traits.writing_mode,
            r.traits.direction == self.traits.direction,
            r.traits.span == self.traits.span,
            r.traits.hyphenate == self.traits.hyphenate,
            r.traits.change_bar_color == self.traits.change_bar_color,
            r.traits.font_weight == self.traits.font_weight,
            r.traits.font_style == self.traits.font_style,
            r.traits.hyphenation_push_chars == self.traits.hyphenation_push_chars,
            r.traits.hyphenation_remain_chars == self.traits.hyphenation_remain_chars,
            r.traits.role == self.traits.role,
            r.traits.xml_lang == self.traits.xml_lang,
    {
        let content = match &self.content {
            Some(AreaContent::Text(s)) => Some(AreaContent::Text(s.clone())),
            None => None,
        };
        Area {
            area_type: self.area_type,
            geometry: self.geometry,
            traits: self.traits.duplicate(),
            content,
            keep_constraint: self.keep_constraint,
            break_before: self.break_before,
            break_after: self.break_after,
        }
    }
}

/// A node of the area tree: an area with its parent and ordered children.
#[derive(Debug)]
pub struct AreaNode {
    pub area: Area,
    pub parent: Option<AreaId>,
    pub children: Vec<AreaId>,
}

/// An arena of areas; ids are indices into it.
#[derive(Debug)]
pub struct AreaTree {
    nodes: Vec<AreaNode>,
    footnotes: Vec<(AreaId, Vec<AreaId>)>,
}


/// The sequence `s` without the occurrences of `v`.
pub open spec fn seq_without(s: Seq<AreaId>, v: AreaId) -> Seq<AreaId>
    decreases s.len(),
{
    if s.len() == 0 {
        s
    } else {
        let w = seq_without(s.drop_last(), v);
        if s.last() != v {
            w.push(s.last())
        } else {
            w
        }
    }
}

/// What removing `v` keeps: exactly the other elements.
pub proof fn lemma_without_contains(s: Seq<AreaId>, v: AreaId, x: AreaId)
    ensures
        seq_without(s, v).contains(x) <==> (s.contains(x) && x != v),
    decreases s.len(),
{
    if s.len() > 0 {
        let init = s.drop_last();
        lemma_without_contains(init, v, x);
        assert(s =~= init.push(s.last()));
        let w = seq_without(init, v);
        if seq_without(s, v).contains(x) {
            let k = choose|k: int| 0 <= k < seq_without(s, v).len() && seq_without(s, v)[k] == x;
            if k < w.len() {
                assert(w[k] == x);
                assert(w.contains(x));
                let kk = choose|kk: int| 0 <= kk < init.len() && init[kk] == x;
                assert(s[kk] == x);
            }
        }
        if s.contains(x) && x != v {
            let k = choose|k: int| 0 <= k < s.len() && s[k] == x;
            if k < s.len() - 1 {
                assert(init[k] == x);
                assert(w.contains(x));
                let kk = choose|kk: int| 0 <= kk < w.len() && w[kk] == x;
                assert(seq_without(s, v)[kk] == x);
            } else {
                assert(seq_without(s, v)[seq_without(s, v).len() - 1] == x);
            }
        }
    }
}

/// Removing an element keeps a duplicate-free sequence duplicate-free.
pub proof fn lemma_without_no_dup(s: Seq<AreaId>, v: AreaId)
    requires
        s.no_duplicates(),
    ensures
        seq_without(s, v).no_duplicates(),
    decreases s.len(),
{
    if s.len() > 0 {
        let init = s.drop_last();
        let e = s.last();
        assert(s =~= init.push(e));
        assert(init.no_duplicates());
        lemma_without_no_dup(init, v);
        if e != v {
            let w = seq_without(init, v);
            lemma_without_contains(init, v, e);
            assert(!init.contains(e)) by {
                if init.contains(e) {
                    let kk = choose|kk: int| 0 <= kk < init.len() && init[kk] == e;
                    assert(s[kk] == s[s.len() - 1]);
                }
            }
            let w2 = w.push(e);
            assert forall|a: int, b: int| 0 <= a < b < w2.len() implies w2[a] != w2[b] by {
                if b == w2.len() - 1 {
                    assert(w.contains(w2[a]));
                }
            }
        }
    }
}

impl AreaTree {
    /// The nodes of the arena, indexed by area id.
    pub closed spec fn nodes(&self) -> Seq<AreaNode> {
        self.nodes@
    }

    /// The footnote table: pairs of a page id and the footnotes attached to it.
    pub closed spec fn footnote_table(&self) -> Seq<(AreaId, Seq<AreaId>)> {
        self.footnotes@.map_values(|e: (AreaId, Vec<AreaId>)| (e.0, e.1@))
    }

    /// Number of areas in the arena.
    pub open spec fn len(&self) -> nat {
        self.nodes().len()
    }

    /// Whether `id` names an area of the arena.
    pub open spec fn valid_id(&self, id: AreaId) -> bool {
        id.0 < self.len()
    }

    /// Children of area `i`, in order.
    pub open spec fn children_of(&self, i: int) -> Seq<AreaId> {
        self.nodes()[i].children@
    }

    /// Parent of area `i`.
    pub open spec fn parent_of(&self, i: int) -> Option<AreaId> {
        self.nodes()[i].parent
    }

    /// The area stored at index `i`.
    pub open spec fn area_of(&self, i: int) -> Area {
        self.nodes()[i].area
    }

    /// Parent and child links agree and every link names an area of the arena.
    pub open spec fn wf(&self) -> bool {
        &&& self.len() <= usize::MAX
        &&& forall|i: int, k: int|
            #![trigger self.children_of(i)[k]]
            0 <= i < self.len() && 0 <= k < self.children_of(i).len() ==> {
                &&& self.children_of(i)[k].0 < self.len()
                &&& self.parent_of(self.children_of(i)[k].0 as int) == Some(AreaId(i as usize))
            }
        &&& forall|i: int|
            #![trigger self.parent_of(i)]
            0 <= i < self.len() && self.parent_of(i) is Some ==> {
                &&& self.parent_of(i).unwrap().0 < self.len()
                &&& self.children_of(self.parent_of(i).unwrap().0 as int).contains(AreaId(i as usize))
            }
        &&& forall|i: int| #![trigger self.children_of(i)] 0 <= i < self.len() ==> self.children_of(i).no_duplicates()
    }

    /// The footnotes recorded for page `page`.
    pub open spec fn footnotes_of(&self, page: AreaId) -> Option<Seq<AreaId>> {
        footnote_lookup(self.footnote_table(), page)
    }

    /// An empty area tree.
    pub fn new() -> (r: AreaTree)
        ensures
            r.len() == 0,
            r.wf(),
            r.footnote_table().len() == 0,
    {
        let r = AreaTree { nodes: Vec::new(), footnotes: Vec::new() };
        assert(r.footnote_table() =~= Seq::empty());
        r
    }

    /// Number of areas in the tree.
    pub fn area_count(&self) -> (r: usize)
        ensures
            r == self.len(),
    {
        self.nodes.len()
    }

    /// Adds a detached area and returns its id (the next free index).
    pub fn add_area(&mut self, area: Area) -> (r: AreaId)
        requires
            old(self).wf(),
        ensures
            r.0 == old(self).len(),
            final(self).len() == old(self).len() + 1,
            final(self).wf(),
            final(self).area_of(r.0 as int) == area,
            final(self).parent_of(r.0 as int) is None,
            final(self).children_of(r.0 as int).len() == 0,
            forall|i: int| 0 <= i < old(self).len() ==> #[trigger] final(self).nodes()[i] == old(self).nodes()[i],
            final(self).footnote_table() == old(self).footnote_table(),
    {
        let id = AreaId(self.nodes.len());
        self.nodes.push(AreaNode { area, parent: None, children: Vec::new() });
        let count = self.nodes.len();
        proof {
            assert(count == self.len());
            let n = self.len();
            assert forall|i: int, k: int|
                #![trigger self.children_of(i)[k]]
                0 <= i < n && 0 <= k < self.children_of(i).len() implies {
                    &&& self.children_of(i)[k].0 < n
                    &&& self.parent_of(self.children_of(i)[k].0 as int) == Some(AreaId(i as usize))
                } by {
                assert(i < n - 1);
                assert(old(self).children_of(i)[k] == self.children_of(i)[k]);
            }
            assert forall|i: int|
                #![trigger self.parent_of(i)]
                0 <= i < n && self.parent_of(i) is Some implies {
                    &&& self.parent_of(i).unwrap().0 < n
                    &&& self.children_of(self.parent_of(i).unwrap().0 as int).contains(AreaId(i as usize))
                } by {
                assert(i < n - 1);
                assert(old(self).parent_of(i) == self.parent_of(i));
                assert(self.children_of(self.parent_of(i).unwrap().0 as int)
                    == old(self).children_of(old(self).parent_of(i).unwrap().0 as int));
            }
            assert forall|i: int| #![trigger self.children_of(i)] 0 <= i < n implies self.children_of(i).no_duplicates() by {
                if i < n - 1 {
                    assert(old(self).children_of(i) == self.children_of(i));
                }
            }
        }
        id
    }

    /// The node of area `id`, if it exists.
    pub fn get(&self, id: AreaId) -> (r: Option<&AreaNode>)
        ensures
            r == (if self.valid_id(id) { Some(&self.nodes()[id.0 as int]) } else { None }),
    {
        if id.0 < self.nodes.len() {
            Some(&self.nodes[id.0])
        } else {
            None
        }
    }

    /// The children of `id`, in order (empty for an unknown id).
    pub fn children(&self, id: AreaId) -> (r: Vec<AreaId>)
        ensures
            r@ == (if self.valid_id(id) { self.children_of(id.0 as int) } else { Seq::empty() }),
    {
        let mut out: Vec<AreaId> = Vec::new();
        if id.0 < self.nodes.len() {
            let ch = &self.nodes[id.0].children;
            let n = ch.len();
            let mut k: usize = 0;
            while k < n
                invariant
                    n == ch@.len(),
                    k <= n,
                    out@ == ch@.take(k as int),
                decreases n - k,
            {
                out.push(ch[k]);
                k = k + 1;
                assert(out@ =~= ch@.take(k as int));
            }
            assert(ch@.take(n as int) =~= ch@);
        }
        out
    }

    /// Sets the vertical position of area `id`; unknown ids are ignored.
    pub fn set_y(&mut self, id: AreaId, y: Length)
        requires
            old(self).wf(),
        ensures
            final(self).wf(),
            final(self).len() == old(self).len(),
            final(self).footnote_table() == old(self).footnote_table(),
            forall|i: int| 0 <= i < old(self).len() && i != id.0 ==> #[trigger] final(self).nodes()[i] == old(self).nodes()[i],
            old(self).valid_id(id) ==> {
                let o = old(self).area_of(id.0 as int);
                let a = final(self).area_of(id.0 as int);
                &&& a.geometry == (Rect { y, ..o.geometry })
                &&& a.area_type == o.area_type
                &&& a.traits == o.traits
                &&& a.content == o.content
                &&& a.keep_constraint == o.keep_constraint
                &&& a.break_before == o.break_before
                &&& a.break_after == o.break_after
                &&& final(self).parent_of(id.0 as int) == old(self).parent_of(id.0 as int)
                &&& final(self).children_of(id.0 as int) == old(self).children_of(id.0 as int)
            },
    {
        if id.0 < self.nodes.len() {
            self.nodes[id.0].area.geometry.y = y;
            proof { self.lemma_links_unchanged(*old(self)); }
        }
    }

    /// Sets the horizontal position of area `id`; unknown ids are ignored.
    pub fn set_x(&mut self, id: AreaId, x: Length)
        requires
            old(self).wf(),
        ensures
            final(self).wf(),
            final(self).len() == old(self).len(),
            final(self).footnote_table() == old(self).footnote_table(),
            forall|i: int| 0 <= i < old(self).len() && i != id.0 ==> #[trigger] final(self).nodes()[i] == old(self).nodes()[i],
            old(self).valid_id(id) ==> {
                let o = old(self).area_of(id.0 as int);
                let a = final(self).area_of(id.0 as int);
                &&& a.geometry == (Rect { x, ..o.geometry })
                &&& a.area_type == o.area_type
                &&& a.traits == o.traits
                &&& a.content == o.content
                &&& a.keep_constraint == o.keep_constraint
                &&& a.break_before == o.break_before
                &&& a.break_after == o.break_after
                &&& final(self).parent_of(id.0 as int) == old(self).parent_of(id.0 as int)
                &&& final(self).children_of(id.0 as int) == old(self).children_of(id.0 as int)
            },
    {
        if id.0 < self.nodes.len() {
            self.nodes[id.0].area.geometry.x = x;
            proof { self.lemma_links_unchanged(*old(self)); }
        }
    }

    /// Well-formedness only depends on the links, so it survives changes to areas.
    proof fn lemma_links_unchanged(&self, other: AreaTree)
        requires
            other.wf(),
            self.len() == other.len(),
            forall|i: int| 0 <= i < self.len() ==> #[trigger] self.parent_of(i) == other.parent_of(i),
            forall|i: int| 0 <= i < self.len() ==> #[trigger] self.children_of(i) == other.children_of(i),
        ensures
            self.wf(),
    {
        assert forall|i: int, k: int|
            #![trigger self.children_of(i)[k]]
            0 <= i < self.len() && 0 <= k < self.children_of(i).len() implies {
                &&& self.children_of(i)[k].0 < self.len()
                &&& self.parent_of(self.children_of(i)[k].0 as int) == Some(AreaId(i as usize))
            } by {
            assert(other.children_of(i)[k] == self.children_of(i)[k]);
            assert(self.parent_of(self.children_of(i)[k].0 as int) == other.parent_of(self.children_of(i)[k].0 as int));
        }
        assert forall|i: int|
            #![trigger self.parent_of(i)]
            0 <= i < self.len() && self.parent_of(i) is Some implies {
                &&& self.parent_of(i).unwrap().0 < self.len()
                &&& self.children_of(self.parent_of(i).unwrap().0 as int).contains(AreaId(i as usize))
            } by {
            assert(other.parent_of(i) == self.parent_of(i));
            assert(self.children_of(self.parent_of(i).unwrap().0 as int) == other.children_of(other.parent_of(i).unwrap().0 as int));
        }
        assert forall|i: int| #![trigger self.children_of(i)] 0 <= i < self.len() implies self.children_of(i).no_duplicates() by {
            assert(other.children_of(i) == self.children_of(i));
        }
    }
}


/// The footnote list of the first entry of `t` for `page`.
pub open spec fn footnote_lookup(t: Seq<(AreaId, Seq<AreaId>)>, page: AreaId) -> Option<Seq<AreaId>>
    decreases t.len(),
{
    if t.len() == 0 {
        None
    } else if t[0].0 == page {
        Some(t[0].1)
    } else {
        footnote_lookup(t.drop_first(), page)
    }
}

/// Sum of the heights of the areas of `ids` that exist in `tree`, in millipoints.
pub open spec fn total_height(tree: AreaTree, ids: Seq<AreaId>) -> int
    decreases ids.len(),
{
    if ids.len() == 0 {
        0
    } else {
        let rest = total_height(tree, ids.drop_last());
        let id = ids.last();
        if tree.valid_id(id) {
            rest + tree.area_of(id.0 as int).geometry.height.mp()
        } else {
            rest
        }
    }
}

/// The index of the first entry of `t` for `page`, if any.
proof fn lemma_lookup_index(t: Seq<(AreaId, Seq<AreaId>)>, page: AreaId) -> (k: int)
    ensures
        footnote_lookup(t, page) is None ==> forall|j: int| 0 <= j < t.len() ==> t[j].0 != page,
        footnote_lookup(t, page) is Some ==> 0 <= k < t.len() && t[k].0 == page && footnote_lookup(t, page) == Some(t[k].1)
            && forall|j: int| 0 <= j < k ==> t[j].0 != page,
    decreases t.len(),
{
    if t.len() == 0 {
        0
    } else if t[0].0 == page {
        0
    } else {
        let k = lemma_lookup_index(t.drop_first(), page);
        if footnote_lookup(t, page) is None {
            assert forall|j: int| 0 <= j < t.len() implies t[j].0 != page by {
                if j > 0 { assert(t.drop_first()[j - 1] == t[j]); }
            }
        } else {
            assert forall|j: int| 0 <= j < k + 1 implies t[j].0 != page by {
                if j > 0 { assert(t.drop_first()[j - 1] == t[j]); }
            }
        }
        k + 1
    }
}

/// Looking up after replacing or appending an entry.
proof fn lemma_lookup_update(t: Seq<(AreaId, Seq<AreaId>)>, t2: Seq<(AreaId, Seq<AreaId>)>, page: AreaId, v: Seq<AreaId>)
    requires
        (exists|k: int| 0 <= k < t.len() && t[k].0 == page && (forall|j: int| 0 <= j < k ==> t[j].0 != page)
            && t2 == t.update(k, (page, v)))
        || ((forall|j: int| 0 <= j < t.len() ==> t[j].0 != page) && t2 == t.push((page, v))),
    ensures
        footnote_lookup(t2, page) == Some(v),
        forall|q: AreaId| q != page ==> footnote_lookup(t2, q) == footnote_lookup(t, q),
    decreases t.len(),
{
    if t.len() == 0 {
        assert(t2.drop_first() =~= Seq::<(AreaId, Seq<AreaId>)>::empty());
        assert forall|q: AreaId| q != page implies footnote_lookup(t2, q) == footnote_lookup(t, q) by {
            assert(footnote_lookup(t2, q) == footnote_lookup(t2.drop_first(), q));
        }
    } else if t[0].0 == page {
        assert(t2 == t.update(0, (page, v)));
        assert(t2.drop_first() =~= t.drop_first());
        assert forall|q: AreaId| q != page implies footnote_lookup(t2, q) == footnote_lookup(t, q) by {
            assert(footnote_lookup(t2, q) == footnote_lookup(t2.drop_first(), q));
        }
    } else {
        let k = if exists|k: int| 0 <= k < t.len() && t[k].0 == page && (forall|j: int| 0 <= j < k ==> t[j].0 != page)
            && t2 == t.update(k, (page, v)) {
            let k = choose|k: int| 0 <= k < t.len() && t[k].0 == page && (forall|j: int| 0 <= j < k ==> t[j].0 != page)
                && t2 == t.update(k, (page, v));
            assert(t2.drop_first() =~= t.drop_first().update(k - 1, (page, v)));
            assert(t.drop_first()[k - 1].0 == page);
            assert forall|j: int| 0 <= j < k - 1 implies t.drop_first()[j].0 != page by {
                assert(t[j + 1].0 != page);
            }
            k
        } else {
            assert(t2.drop_first() =~= t.drop_first().push((page, v)));
            assert forall|j: int| 0 <= j < t.drop_first().len() implies t.drop_first()[j].0 != page by {
                assert(t[j + 1].0 != page);
            }
            0
        };
        lemma_lookup_update(t.drop_first(), t2.drop_first(), page, v);
        assert(t2[0] == t[0]);
        assert forall|q: AreaId| q != page implies footnote_lookup(t2, q) == footnote_lookup(t, q) by {
            if t[0].0 != q {
                assert(footnote_lookup(t2.drop_first(), q) == footnote_lookup(t.drop_first(), q));
            }
        }
    }
}

/// An owned error message.
fn error_message(msg: &str) -> (r: String)
    ensures
        r@ == msg@,
{
    msg.to_string()
}

/// `s` without the element `v`.
fn without_id(s: &Vec<AreaId>, v: AreaId) -> (r: Vec<AreaId>)
    requires
        s@.no_duplicates(),
    ensures
        r@ == seq_without(s@, v),
        r@.no_duplicates(),
        forall|x: AreaId| #[trigger] r@.contains(x) <==> (s@.contains(x) && x != v),
{
    let mut out: Vec<AreaId> = Vec::new();
    let n = s.len();
    let mut k: usize = 0;
    while k < n
        invariant
            n == s@.len(),
            k <= n,
            s@.no_duplicates(),
            out@ == seq_without(s@.take(k as int), v),
            out@.no_duplicates(),
            forall|x: AreaId| #[trigger] out@.contains(x) <==> (s@.take(k as int).contains(x) && x != v),
        decreases n - k,
    {
        let e = s[k];
        proof {
            assert(s@.take(k as int + 1).drop_last() =~= s@.take(k as int));
            assert(s@.take(k as int + 1).last() == e);
            lemma_without_contains(s@.take(k as int), v, e);
            if e != v {
                assert(!s@.take(k as int).contains(e)) by {
                    if s@.take(k as int).contains(e) {
                        let j = choose|j: int| 0 <= j < k && s@.take(k as int)[j] == e;
                        assert(s@[j] == s@[k as int]);
                    }
                }
            }
        }
        if e != v {
            out.push(e);
        }
        k = k + 1;
        proof {
            lemma_without_no_dup(s@.take(k as int), v);
            assert forall|x: AreaId| #[trigger] out@.contains(x) <==> (s@.take(k as int).contains(x) && x != v) by {
                lemma_without_contains(s@.take(k as int), v, x);
            }
        }
    }
    assert(s@.take(n as int) =~= s@);
    out
}

impl AreaTree {
    /// Attaches the detached area `child` as the last child of `parent`.
    ///
    /// Fails when either id is unknown or when `child` already has a parent.
    pub fn append_child(&mut self, parent: AreaId, child: AreaId) -> (r: Result<(), String>)
        requires
            old(self).wf(),
        ensures
            final(self).wf(),
            r is Ok <==> (old(self).valid_id(parent) && old(self).valid_id(child)
                && old(self).parent_of(child.0 as int) is None),
            r matches Err(m) ==> m@ == (if !old(self).valid_id(parent) {
                "parent area not found"@
            } else if !old(self).valid_id(child) {
                "child area not found"@
            } else {
                "child area already has a parent"@
            }),
            final(self).len() == old(self).len(),
            final(self).footnote_table() == old(self).footnote_table(),
            forall|i: int| 0 <= i < old(self).len() ==> #[trigger] final(self).area_of(i) == old(self).area_of(i),
            r is Err ==> final(self).nodes() == old(self).nodes(),
            r is Ok ==> {
                &&& final(self).parent_of(child.0 as int) == Some(parent)
                &&& final(self).children_of(parent.0 as int) == old(self).children_of(parent.0 as int).push(child)
                &&& forall|i: int| 0 <= i < old(self).len() && i != child.0 ==>
                    #[trigger] final(self).parent_of(i) == old(self).parent_of(i)
                &&& forall|i: int| 0 <= i < old(self).len() && i != parent.0 ==>
                    #[trigger] final(self).children_of(i) == old(self).children_of(i)
            },
    {
        if parent.0 >= self.nodes.len() {
            return Err(error_message("parent area not found"));
        }
        if child.0 >= self.nodes.len() {
            return Err(error_message("child area not found"));
        }
        if self.nodes[child.0].parent.is_some() {
            return Err(error_message("child area already has a parent"));
        }
        proof {
            // a detached area is nobody's child
            assert forall|i: int| 0 <= i < self.len() implies !(#[trigger] self.children_of(i)).contains(child) by {
                if self.children_of(i).contains(child) {
                    let k = choose|k: int| 0 <= k < self.children_of(i).len() && self.children_of(i)[k] == child;
                    assert(self.parent_of(self.children_of(i)[k].0 as int) == Some(AreaId(i as usize)));
                }
            }
        }
        let ghost o = *self;
        self.nodes[child.0].parent = Some(parent);
        self.nodes[parent.0].children.push(child);
        proof { self.lemma_attach_wf(o, parent, child); }
        Ok(())
    }

    /// Well-formedness after `child` (nobody's child before) was attached under `parent`.
    proof fn lemma_attach_wf(&self, o: AreaTree, parent: AreaId, child: AreaId)
        requires
            o.wf(),
            self.len() == o.len(),
            o.valid_id(parent),
            o.valid_id(child),
            o.parent_of(child.0 as int) is None || (o.parent_of(child.0 as int) == Some(parent)) || true,
            forall|i: int| 0 <= i < o.len() ==> !(#[trigger] o.children_of(i)).contains(child),
            self.parent_of(child.0 as int) == Some(parent),
            self.children_of(parent.0 as int) == o.children_of(parent.0 as int).push(child),
            forall|i: int| 0 <= i < o.len() && i != child.0 ==> #[trigger] self.parent_of(i) == o.parent_of(i),
            forall|i: int| 0 <= i < o.len() && i != parent.0 ==> #[trigger] self.children_of(i) == o.children_of(i),
        ensures
            self.wf(),
    {
        let n = self.len();
        assert forall|i: int, k: int|
            #![trigger self.children_of(i)[k]]
            0 <= i < n && 0 <= k < self.children_of(i).len() implies {
                &&& self.children_of(i)[k].0 < n
                &&& self.parent_of(self.children_of(i)[k].0 as int) == Some(AreaId(i as usize))
            } by {
            let c = self.children_of(i)[k];
            if c == child {
                if i != parent.0 {
                    assert(o.children_of(i)[k] == c);
                    assert(o.children_of(i).contains(child));
                }
            } else {
                if i == parent.0 {
                    assert(k < o.children_of(i).len());
                    assert(o.children_of(i)[k] == c);
                } else {
                    assert(o.children_of(i)[k] == c);
                }
                assert(o.parent_of(c.0 as int) == Some(AreaId(i as usize)));
            }
        }
        assert forall|i: int|
            #![trigger self.parent_of(i)]
            0 <= i < n && self.parent_of(i) is Some implies {
                &&& self.parent_of(i).unwrap().0 < n
                &&& self.children_of(self.parent_of(i).unwrap().0 as int).contains(AreaId(i as usize))
            } by {
            if i == child.0 {
                assert(self.children_of(parent.0 as int).last() == child);
                assert(self.children_of(parent.0 as int)[self.children_of(parent.0 as int).len() - 1] == child);
            } else {
                let p = o.parent_of(i).unwrap();
                assert(o.children_of(p.0 as int).contains(AreaId(i as usize)));
                let k = choose|k: int| 0 <= k < o.children_of(p.0 as int).len() && o.children_of(p.0 as int)[k] == AreaId(i as usize);
                if p == parent {
                    assert(self.children_of(p.0 as int)[k] == AreaId(i as usize));
                } else {
                    assert(self.children_of(p.0 as int) == o.children_of(p.0 as int));
                }
            }
        }
        assert forall|i: int| #![trigger self.children_of(i)] 0 <= i < n implies self.children_of(i).no_duplicates() by {
            if i == parent.0 {
                assert(o.children_of(i).no_duplicates());
                assert(!o.children_of(i).contains(child));
                let s = self.children_of(i);
                assert forall|a: int, b: int| 0 <= a < b < s.len() implies s[a] != s[b] by {
                    if b == s.len() - 1 {
                        assert(o.children_of(i)[a] == s[a]);
                    } else {
                        assert(o.children_of(i)[a] == s[a]);
                        assert(o.children_of(i)[b] == s[b]);
                    }
                }
            } else {
                assert(self.children_of(i) == o.children_of(i));
            }
        }
    }

    /// Moves `child` from its current parent (if any) to the end of `new_parent`'s children.
    ///
    /// Fails, changing nothing, when either id is unknown.
    pub fn reparent(&mut self, child: AreaId, new_parent: AreaId) -> (r: Result<(), String>)
        requires
            old(self).wf(),
        ensures
            final(self).wf(),
            r is Ok <==> (old(self).valid_id(new_parent) && old(self).valid_id(child)),
            r matches Err(m) ==> m@ == (if !old(self).valid_id(new_parent) {
                "parent area not found"@
            } else {
                "child area not found"@
            }),
            final(self).len() == old(self).len(),
            final(self).footnote_table() == old(self).footnote_table(),
            forall|i: int| 0 <= i < old(self).len() ==> #[trigger] final(self).area_of(i) == old(self).area_of(i),
            r is Err ==> final(self).nodes() == old(self).nodes(),
            r is Ok ==> {
                &&& final(self).parent_of(child.0 as int) == Some(new_parent)
                &&& final(self).children_of(new_parent.0 as int)
                    == seq_without(old(self).children_of(new_parent.0 as int), child).push(child)
                &&& forall|i: int| 0 <= i < old(self).len() && i != new_parent.0 ==>
                    #[trigger] final(self).children_of(i) == seq_without(old(self).children_of(i), child)
                &&& forall|i: int| 0 <= i < old(self).len() && i != child.0 ==>
                    #[trigger] final(self).parent_of(i) == old(self).parent_of(i)
            },
    {
        if new_parent.0 >= self.nodes.len() {
            return Err(error_message("parent area not found"));
        }
        if child.0 >= self.nodes.len() {
            return Err(error_message("child area not found"));
        }
        let ghost o = *self;
        let n = self.nodes.len();
        // detach from every list (only the old parent's list can hold it)
        let mut i: usize = 0;
        while i < n
            invariant
                n == self.len(),
                n == o.len(),
                o.wf(),
                o.valid_id(child),
                o.valid_id(new_parent),
                forall|j: int| 0 <= j < n ==> #[trigger] self.area_of(j) == o.area_of(j),
                forall|j: int| 0 <= j < n ==> #[trigger] self.parent_of(j) == o.parent_of(j),
                forall|j: int| 0 <= j < i ==> #[trigger] self.children_of(j) == seq_without(o.children_of(j), child),
                forall|j: int| i <= j < n ==> #[trigger] self.children_of(j) == o.children_of(j),
                self.footnote_table() == o.footnote_table(),
            decreases n - i,
        {
            proof {
                assert(o.children_of(i as int).no_duplicates());
                assert(self.children_of(i as int) == o.children_of(i as int));
            }
            let ghost before = *self;
            let filtered = without_id(&self.nodes[i].children, child);
            self.nodes[i].children = filtered;
            proof {
                assert forall|j: int| 0 <= j < n && j != i implies #[trigger] self.nodes()[j] == before.nodes()[j] by {}
                assert forall|j: int| 0 <= j < n implies #[trigger] self.area_of(j) == o.area_of(j) by {
                    if j != i { assert(self.nodes()[j] == before.nodes()[j]); }
                    assert(before.area_of(j) == o.area_of(j));
                }
                assert forall|j: int| 0 <= j < n implies #[trigger] self.parent_of(j) == o.parent_of(j) by {
                    if j != i { assert(self.nodes()[j] == before.nodes()[j]); }
                    assert(before.parent_of(j) == o.parent_of(j));
                }
                assert forall|j: int| 0 <= j < i + 1 implies #[trigger] self.children_of(j) == seq_without(o.children_of(j), child) by {
                    if j != i {
                        assert(self.nodes()[j] == before.nodes()[j]);
                        assert(before.children_of(j) == seq_without(o.children_of(j), child));
                    }
                }
                assert forall|j: int| i + 1 <= j < n implies #[trigger] self.children_of(j) == o.children_of(j) by {
                    assert(self.nodes()[j] == before.nodes()[j]);
                    assert(before.children_of(j) == o.children_of(j));
                }
            }
            i = i + 1;
        }
        let ghost mid = *self;
        self.nodes[child.0].parent = Some(new_parent);
        let ghost mid2 = *self;
        self.nodes[new_parent.0].children.push(child);
        proof {
            assert(mid2.children_of(new_parent.0 as int) == mid.children_of(new_parent.0 as int));
            assert(self.children_of(new_parent.0 as int) == mid2.children_of(new_parent.0 as int).push(child));
            assert forall|j: int| 0 <= j < n && j != new_parent.0 implies
                #[trigger] self.children_of(j) == seq_without(o.children_of(j), child) by {
                assert(mid.children_of(j) == seq_without(o.children_of(j), child));
            }
            assert forall|j: int| 0 <= j < n && j != child.0 implies
                #[trigger] self.parent_of(j) == o.parent_of(j) by {
                assert(mid.parent_of(j) == o.parent_of(j));
            }
            assert forall|j: int| 0 <= j < n implies #[trigger] self.area_of(j) == o.area_of(j) by {
                assert(mid.area_of(j) == o.area_of(j));
            }
            self.lemma_reparent_wf(o, new_parent, child);
        }
        Ok(())
    }

    /// Well-formedness after the move performed by `reparent`.
    proof fn lemma_reparent_wf(&self, o: AreaTree, parent: AreaId, child: AreaId)
        requires
            o.wf(),
            self.len() == o.len(),
            o.valid_id(parent),
            o.valid_id(child),
            self.parent_of(child.0 as int) == Some(parent),
            self.children_of(parent.0 as int) == seq_without(o.children_of(parent.0 as int), child).push(child),
            forall|i: int| 0 <= i < o.len() && i != child.0 ==> #[trigger] self.parent_of(i) == o.parent_of(i),
            forall|i: int| 0 <= i < o.len() && i != parent.0 ==>
                #[trigger] self.children_of(i) == seq_without(o.children_of(i), child),
        ensures
            self.wf(),
    {
        let n = self.len();
        // membership in the filtered lists
        assert forall|i: int, x: AreaId| 0 <= i < n implies
            (#[trigger] seq_without(o.children_of(i), child).contains(x) <==> (o.children_of(i).contains(x) && x != child)) by {
            lemma_without_contains(o.children_of(i), child, x);
        }
        assert forall|i: int, k: int|
            #![trigger self.children_of(i)[k]]
            0 <= i < n && 0 <= k < self.children_of(i).len() implies {
                &&& self.children_of(i)[k].0 < n
                &&& self.parent_of(self.children_of(i)[k].0 as int) == Some(AreaId(i as usize))
            } by {
            let c = self.children_of(i)[k];
            let w = seq_without(o.children_of(i), child);
            if i == parent.0 && k == self.children_of(i).len() - 1 {
                assert(c == child);
            } else {
                assert(w[k] == c);
                assert(w.contains(c));
                assert(o.children_of(i).contains(c) && c != child);
                let kk = choose|kk: int| 0 <= kk < o.children_of(i).len() && o.children_of(i)[kk] == c;
                assert(o.parent_of(o.children_of(i)[kk].0 as int) == Some(AreaId(i as usize)));
            }
        }
        assert forall|i: int|
            #![trigger self.parent_of(i)]
            0 <= i < n && self.parent_of(i) is Some implies {
                &&& self.parent_of(i).unwrap().0 < n
                &&& self.children_of(self.parent_of(i).unwrap().0 as int).contains(AreaId(i as usize))
            } by {
            if i == child.0 {
                let s = self.children_of(parent.0 as int);
                assert(s[s.len() - 1] == child);
            } else {
                let p = o.parent_of(i).unwrap();
                assert(o.children_of(p.0 as int).contains(AreaId(i as usize)));
                let w = seq_without(o.children_of(p.0 as int), child);
                assert(AreaId(i as usize) != child);
                assert(o.parent_of(i) == self.parent_of(i));
                assert(o.parent_of(i) is Some);
                assert(o.children_of(p.0 as int).contains(AreaId(i as usize)));
                lemma_without_contains(o.children_of(p.0 as int), child, AreaId(i as usize));
                assert(w.contains(AreaId(i as usize)));
                if p == parent {
                    let kk = choose|kk: int| 0 <= kk < w.len() && w[kk] == AreaId(i as usize);
                    assert(self.children_of(p.0 as int)[kk] == AreaId(i as usize));
                }
            }
        }
        assert forall|i: int| #![trigger self.children_of(i)] 0 <= i < n implies self.children_of(i).no_duplicates() by {
            let w = seq_without(o.children_of(i), child);
            lemma_without_no_dup(o.children_of(i), child);
            if i == parent.0 {
                let s = self.children_of(i);
                assert(!w.contains(child));
                assert forall|a: int, b: int| 0 <= a < b < s.len() implies s[a] != s[b] by {
                    if b == s.len() - 1 {
                        assert(w[a] == s[a]);
                        assert(w.contains(s[a]));
                    } else {
                        assert(w[a] == s[a]);
                        assert(w[b] == s[b]);
                    }
                }
            }
        }
    }
}

impl AreaTree {
    /// Records `footnote` as a footnote of page `page`.
    pub fn add_footnote(&mut self, page: AreaId, footnote: AreaId)
        requires
            old(self).wf(),
        ensures
            final(self).wf(),
            final(self).nodes() == old(self).nodes(),
            final(self).footnotes_of(page) == Some(
                match old(self).footnotes_of(page) {
                    Some(f) => f.push(footnote),
                    None => seq![footnote],
                },
            ),
            forall|q: AreaId| q != page ==> #[trigger] final(self).footnotes_of(q) == old(self).footnotes_of(q),
    {
        let ghost t = self.footnote_table();
        let n = self.footnotes.len();
        let mut k: usize = 0;
        while k < n
            invariant
                n == self.footnotes@.len(),
                k <= n,
                t == self.footnote_table(),
                self.nodes@ == old(self).nodes@,
                self.footnotes@ == old(self).footnotes@,
                old(self).wf(),
                forall|j: int| 0 <= j < k ==> self.footnotes@[j].0 != page,
            decreases n - k,
        {
            if self.footnotes[k].0 == page {
                let ghost before = self.footnotes@;
                self.footnotes[k].1.push(footnote);
                proof {
                    let t2 = self.footnote_table();
                    let v = before[k as int].1@.push(footnote);
                    assert(t[k as int].0 == page);
                    assert(t2 =~= t.update(k as int, (page, v)));
                    assert forall|j: int| 0 <= j < k implies t[j].0 != page by {
                        assert(before[j].0 != page);
                    }
                    lemma_lookup_update(t, t2, page, v);
                    let kk = lemma_lookup_index(t, page);
                    self.lemma_links_unchanged(*old(self));
                }
                return;
            }
            k = k + 1;
        }
        let mut list: Vec<AreaId> = Vec::new();
        list.push(footnote);
        self.footnotes.push((page, list));
        proof {
            let t2 = self.footnote_table();
            assert(t2 =~= t.push((page, seq![footnote])));
            assert forall|j: int| 0 <= j < t.len() implies t[j].0 != page by {}
            lemma_lookup_update(t, t2, page, seq![footnote]);
            let kk = lemma_lookup_index(t, page);
            self.lemma_links_unchanged(*old(self));
        }
    }

    /// The footnotes recorded for page `page`, if any.
    pub fn get_footnotes(&self, page: AreaId) -> (r: Option<&Vec<AreaId>>)
        ensures
            match r {
                Some(v) => self.footnotes_of(page) == Some(v@),
                None => self.footnotes_of(page) is None,
            },
    {
        let n = self.footnotes.len();
        let mut k: usize = 0;
        let ghost t = self.footnote_table();
        while k < n
            invariant
                n == self.footnotes@.len(),
                k <= n,
                t == self.footnote_table(),
                forall|j: int| 0 <= j < k ==> self.footnotes@[j].0 != page,
            decreases n - k,
        {
            if self.footnotes[k].0 == page {
                proof {
                    let kk = lemma_lookup_index(t, page);
                    assert(t[k as int].0 == page);
                    if footnote_lookup(t, page) is Some {
                        if kk < k { assert(self.footnotes@[kk].0 != page); }
                        if k < kk { assert(t[k as int].0 != page); }
                    }
                }
                return Some(&self.footnotes[k].1);
            }
            k = k + 1;
        }
        proof {
            let kk = lemma_lookup_index(t, page);
            if footnote_lookup(t, page) is Some {
                assert(self.footnotes@[kk].0 != page);
            }
        }
        None
    }

    /// Total height of the footnotes of page `page` (areas that do not exist count as zero).
    pub fn footnote_height(&self, page: AreaId) -> (r: Length)
        requires
            self.footnotes_of(page) is Some ==> forall|j: int| 0 <= j <= self.footnotes_of(page)->0.len() ==>
                i32::MIN <= #[trigger] total_height(*self, self.footnotes_of(page)->0.take(j)) <= i32::MAX,
        ensures
            r.mp() == match self.footnotes_of(page) {
                Some(ids) => total_height(*self, ids),
                None => 0,
            },
    {
        let mut total = Length::zero();
        match self.get_footnotes(page) {
            Some(ids) => {
                let n = ids.len();
                let mut k: usize = 0;
                proof {
                    assert(self.footnotes_of(page) == Some(ids@));
                    assert(ids@.take(0) =~= Seq::<AreaId>::empty());
                    let s = ids@;
                    assert(self.footnotes_of(page)->0 == s);
                    assert forall|j: int| 0 <= j <= s.len() implies i32::MIN <= #[trigger] total_height(*self, s.take(j)) <= i32::MAX by {
                        assert(total_height(*self, self.footnotes_of(page)->0.take(j)) == total_height(*self, s.take(j)));
                    }
                }
                while k < n
                    invariant
                        n == ids@.len(),
                        k <= n,
                        self.footnotes_of(page) == Some(ids@),
                        forall|j: int| 0 <= j <= ids@.len() ==> i32::MIN <= #[trigger] total_height(*self, ids@.take(j)) <= i32::MAX,
                        total.mp() == total_height(*self, ids@.take(k as int)),
                    decreases n - k,
                {
                    let id = ids[k];
                    proof {
                        assert(ids@.take(k as int + 1).drop_last() =~= ids@.take(k as int));
                        assert(ids@.take(k as int + 1).last() == id);
                        assert(i32::MIN <= total_height(*self, ids@.take(k as int + 1)) <= i32::MAX);
                    }
                    if id.0 < self.nodes.len() {
                        total = total.plus(self.nodes[id.0].area.geometry.height);
                    }
                    k = k + 1;
                }
                proof { assert(ids@.take(n as int) =~= ids@); }
            }
            None => {}
        }
        total
    }
}

} // verus!
