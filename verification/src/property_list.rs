//! Formatting properties of a node and the rendering traits drawn from them.

use vstd::prelude::*;
use crate::area::{BorderStyle, Direction, DisplayAlign, FontStretch, FontStyle, FontVariant, Span, TextAlign, TextTransform,
    TraitSet, WritingMode};
use crate::geometry::Color;
use crate::length::Length;
use crate::properties::{border_style_named, parse_border_style};
use crate::textfmt::same_text;

verus! {

/// The formatting properties that trait extraction reads.
#[derive(Debug, Clone, Copy, PartialEq, Eq, Structural)]
pub enum PropertyId {
    Color,
    BackgroundColor,
    FontFamily,
    FontSize,
    BorderTopWidth,
    BorderRightWidth,
    BorderBottomWidth,
    BorderLeftWidth,
    BorderTopColor,
    BorderRightColor,
    BorderBottomColor,
    BorderLeftColor,
    BorderTopStyle,
    BorderRightStyle,
    BorderBottomStyle,
    BorderLeftStyle,
    PaddingTop,
    PaddingRight,
    PaddingBottom,
    PaddingLeft,
    TextAlign,
    TextAlignLast,
    TextTransform,
    FontVariant,
    DisplayAlign,
    FontStretch,
    WritingMode,
    Direction,
    Span,
    Hyphenate,
    ChangeBarColor,
    FontWeight,
    FontStyle,
    HyphenationPushCharacterCount,
    HyphenationRemainCharacterCount,
    Role,
    XmlLang,
}

/// A property value: a length, a color, a keyword or name, an integer, or an enumerated
/// value by its number.
#[derive(Debug)]
pub enum PropertyValue {
    Length(Length),
    Color(Color),
    Text(String),
    Integer(i32),
    Enum(u16),
}

impl PropertyValue {
    /// The value as a length, when it is one.
    pub fn as_length(&self) -> (r: Option<Length>)
        ensures
            r == value_length(*self),
    {
        match self {
            PropertyValue::Length(l) => Some(*l),
            _ => None,
        }
    }

    /// The value as a color, when it is one.
    pub fn as_color(&self) -> (r: Option<Color>)
        ensures
            r == value_color(*self),
    {
        match self {
            PropertyValue::Color(c) => Some(*c),
            _ => None,
        }
    }

    /// The value as text, when it is a keyword or name.
    pub fn as_string(&self) -> (r: Option<&str>)
        ensures
            r is Some <==> self is Text,
            r matches Some(s) ==> s@ == self->Text_0@,
    {
        match self {
            PropertyValue::Text(s) => Some(s.as_str()),
            _ => None,
        }
    }
}

/// The length a value holds, if any.
pub open spec fn value_length(v: PropertyValue) -> Option<Length> {
    match v {
        PropertyValue::Length(l) => Some(l),
        _ => None,
    }
}

/// The color a value holds, if any.
pub open spec fn value_color(v: PropertyValue) -> Option<Color> {
    match v {
        PropertyValue::Color(c) => Some(c),
        _ => None,
    }
}

/// Whether a property is inherited, as XSL 1.1 says: a node without its own value takes its
/// parent's. Background, borders, padding, span and role are not inherited; the font, color,
/// text, writing-mode, direction, hyphenation, change-bar color and language properties are.
pub open spec fn is_inherited(id: PropertyId) -> bool {
    !(id is BackgroundColor
        || id is BorderTopWidth || id is BorderRightWidth || id is BorderBottomWidth || id is BorderLeftWidth
        || id is BorderTopColor || id is BorderRightColor || id is BorderBottomColor || id is BorderLeftColor
        || id is BorderTopStyle || id is BorderRightStyle || id is BorderBottomStyle || id is BorderLeftStyle
        || id is PaddingTop || id is PaddingRight || id is PaddingBottom || id is PaddingLeft
        || id is Span || id is Role)
}

/// Whether property `id` is inherited (see [`is_inherited`]).
pub fn inherited(id: PropertyId) -> (r: bool)
    ensures
        r == is_inherited(id),
{
    match id {
        PropertyId::BackgroundColor
        | PropertyId::BorderTopWidth | PropertyId::BorderRightWidth | PropertyId::BorderBottomWidth | PropertyId::BorderLeftWidth
        | PropertyId::BorderTopColor | PropertyId::BorderRightColor | PropertyId::BorderBottomColor | PropertyId::BorderLeftColor
        | PropertyId::BorderTopStyle | PropertyId::BorderRightStyle | PropertyId::BorderBottomStyle | PropertyId::BorderLeftStyle
        | PropertyId::PaddingTop | PropertyId::PaddingRight | PropertyId::PaddingBottom | PropertyId::PaddingLeft
        | PropertyId::Span | PropertyId::Role => false,
        _ => true,
    }
}

/// The property values of a node, in the order they were set (a later value of a property
/// replaces an earlier one), and the properties of its parent node, if any.
pub struct PropertyList {
    entries: Vec<(PropertyId, PropertyValue)>,
    parent: Option<Box<PropertyList>>,
}

/// The value of `id` among `entries`: the last one set.
pub open spec fn lookup(entries: Seq<(PropertyId, PropertyValue)>, id: PropertyId) -> Option<PropertyValue>
    decreases entries.len(),
{
    if entries.len() == 0 {
        None
    } else if entries.last().0 == id {
        Some(entries.last().1)
    } else {
        lookup(entries.drop_last(), id)
    }
}

impl PropertyList {
    /// The value the node itself sets for `id`, if any.
    pub closed spec fn own_value(&self, id: PropertyId) -> Option<PropertyValue> {
        lookup(self.entries@, id)
    }

    /// The properties of the parent node, if any.
    pub closed spec fn parent_list(&self) -> Option<PropertyList> {
        match self.parent {
            Some(b) => Some(*b),
            None => None,
        }
    }

    /// The value of property `id`: the node's own, or for an inherited property without
    /// one, the parent's.
    pub closed spec fn value(&self, id: PropertyId) -> Option<PropertyValue>
        decreases self,
    {
        match lookup(self.entries@, id) {
            Some(v) => Some(v),
            None => if is_inherited(id) {
                match self.parent {
                    Some(b) => b.value(id),
                    None => None,
                }
            } else {
                None
            },
        }
    }

    /// Law: the value of a property is the node's own; an inherited property that the node
    /// does not set takes the parent's value; any other property is unset.
    pub proof fn law_value_inherits(&self, id: PropertyId)
        ensures
            self.value(id) == match self.own_value(id) {
                Some(v) => Some(v),
                None => if is_inherited(id) && self.parent_list() is Some {
                    self.parent_list()->0.value(id)
                } else {
                    None
                },
            },
    {
    }

    /// Law: a node that does not set a property takes its parent's value for the inherited
    /// properties (color, the font properties, the text and alignment keywords, writing mode,
    /// direction, hyphenation, change-bar color and language), and has none for background,
    /// borders, padding, span and role; without a parent it has none.
    pub proof fn law_unset_properties(&self, id: PropertyId)
        requires
            self.own_value(id) is None,
        ensures
            (id is Color || id is FontFamily || id is FontSize || id is FontWeight || id is FontStyle
                || id is FontVariant || id is FontStretch || id is TextAlign || id is TextAlignLast
                || id is TextTransform || id is DisplayAlign || id is WritingMode || id is Direction
                || id is Hyphenate || id is HyphenationPushCharacterCount
                || id is HyphenationRemainCharacterCount || id is ChangeBarColor || id is XmlLang)
                && self.parent_list() is Some ==> self.value(id) == self.parent_list()->0.value(id),
            (id is BackgroundColor || id is BorderTopWidth || id is BorderRightWidth || id is BorderBottomWidth
                || id is BorderLeftWidth || id is BorderTopColor || id is BorderRightColor
                || id is BorderBottomColor || id is BorderLeftColor || id is BorderTopStyle
                || id is BorderRightStyle || id is BorderBottomStyle || id is BorderLeftStyle
                || id is PaddingTop || id is PaddingRight || id is PaddingBottom || id is PaddingLeft
                || id is Span || id is Role) ==> self.value(id) is None,
            self.parent_list() is None ==> self.value(id) is None,
    {
    }

    /// A list with no property set and no parent.
    pub fn new() -> (r: PropertyList)
        ensures
            forall|id: PropertyId| r.value(id) is None,
            forall|id: PropertyId| r.own_value(id) is None,
            r.parent_list() is None,
    {
        PropertyList { entries: Vec::new(), parent: None }
    }

    /// A list with no property set whose parent node has the properties `parent`.
    pub fn with_parent(parent: PropertyList) -> (r: PropertyList)
        ensures
            forall|id: PropertyId| r.own_value(id) is None,
            r.parent_list() == Some(parent),
            forall|id: PropertyId| #[trigger] r.value(id) == if is_inherited(id) { parent.value(id) } else { None },
    {
        PropertyList { entries: Vec::new(), parent: Some(Box::new(parent)) }
    }

    /// The properties of the parent node, if any.
    pub fn parent(&self) -> (r: Option<&PropertyList>)
        ensures
            r matches Some(p) ==> self.parent_list() == Some(*p),
            r is None ==> self.parent_list() is None,
    {
        match &self.parent {
            Some(b) => Some(&**b),
            None => None,
        }
    }

    /// Sets property `id` to `value` on this node.
    pub fn set(&mut self, id: PropertyId, value: PropertyValue)
        ensures
            final(self).value(id) == Some(value),
            final(self).own_value(id) == Some(value),
            final(self).parent_list() == old(self).parent_list(),
            forall|other: PropertyId| other != id ==> final(self).value(other) == old(self).value(other),
            forall|other: PropertyId| other != id ==> final(self).own_value(other) == old(self).own_value(other),
    {
        self.entries.push((id, value));
        proof {
            assert(self.entries@.drop_last() =~= old(self).entries@);
        }
    }

    /// The value the node itself sets for `id`, if any.
    fn get_own(&self, id: PropertyId) -> (r: Option<&PropertyValue>)
        ensures
            r matches Some(v) ==> self.own_value(id) == Some(*v),
            r is None ==> self.own_value(id) is None,
    {
        let mut k = self.entries.len();
        proof {
            assert(self.entries@.take(k as int) =~= self.entries@);
        }
        while k > 0
            invariant
                k <= self.entries@.len(),
                lookup(self.entries@, id) == lookup(self.entries@.take(k as int), id),
            decreases k,
        {
            proof {
                assert(self.entries@.take(k as int).drop_last() =~= self.entries@.take(k as int - 1));
            }
            if self.entries[k - 1].0 == id {
                return Some(&self.entries[k - 1].1);
            }
            k = k - 1;
        }
        proof {
            assert(self.entries@.take(0) =~= Seq::<(PropertyId, PropertyValue)>::empty());
        }
        None
    }

    /// The value of property `id`: the node's own, or for an inherited property without
    /// one, the parent's.
    pub fn get(&self, id: PropertyId) -> (r: Option<&PropertyValue>)
        ensures
            r matches Some(v) ==> self.value(id) == Some(*v),
            r is None ==> self.value(id) is None,
        decreases self,
    {
        match self.get_own(id) {
            Some(v) => Some(v),
            None => {
                if inherited(id) {
                    match &self.parent {
                        Some(b) => b.get(id),
                        None => None,
                    }
                } else {
                    None
                }
            },
        }
    }
}

/// The property of side `k` (0 top, 1 right, 2 bottom, 3 left) among four.
pub open spec fn side(k: int, top: PropertyId, right: PropertyId, bottom: PropertyId, left: PropertyId) -> PropertyId {
    if k == 0 { top } else if k == 1 { right } else if k == 2 { bottom } else { left }
}

/// The padding property of side `k`.
pub open spec fn padding_id(k: int) -> PropertyId {
    side(k, PropertyId::PaddingTop, PropertyId::PaddingRight, PropertyId::PaddingBottom, PropertyId::PaddingLeft)
}

/// The border-width property of side `k`.
pub open spec fn width_id(k: int) -> PropertyId {
    side(k, PropertyId::BorderTopWidth, PropertyId::BorderRightWidth, PropertyId::BorderBottomWidth, PropertyId::BorderLeftWidth)
}

/// The border-color property of side `k`.
pub open spec fn color_id(k: int) -> PropertyId {
    side(k, PropertyId::BorderTopColor, PropertyId::BorderRightColor, PropertyId::BorderBottomColor, PropertyId::BorderLeftColor)
}

/// The border-style property of side `k`.
pub open spec fn style_id(k: int) -> PropertyId {
    side(k, PropertyId::BorderTopStyle, PropertyId::BorderRightStyle, PropertyId::BorderBottomStyle, PropertyId::BorderLeftStyle)
}

/// A length property in millipoints: zero when unset or not a length.
pub open spec fn length_or_zero(v: Option<PropertyValue>) -> int {
    match v {
        Some(PropertyValue::Length(l)) => l.mp(),
        _ => 0,
    }
}

/// A color property: black when unset or not a color.
pub open spec fn color_or_black(v: Option<PropertyValue>) -> Color {
    match v {
        Some(PropertyValue::Color(c)) => c,
        _ => Color { r: 0, g: 0, b: 0 },
    }
}

/// A border-style property: solid when unset or not a border-style keyword.
pub open spec fn style_or_solid(v: Option<PropertyValue>) -> BorderStyle {
    match v {
        Some(PropertyValue::Text(s)) => match border_style_named(s@) {
            Some(b) => b,
            None => BorderStyle::Solid,
        },
        _ => BorderStyle::Solid,
    }
}

/// The value of a property that must be of one kind: `None` when unset.
pub open spec fn opt_color(v: Option<PropertyValue>) -> Option<Color> {
    match v {
        Some(x) => value_color(x),
        None => None,
    }
}

/// The traits `t` are those drawn from `p`: color, background color, font family and font
/// size as set (when of the right kind); the four paddings and border widths (zero by
/// default), border colors (black by default) and border styles (solid by default) always.
pub open spec fn traits_from(p: PropertyList, t: TraitSet) -> bool {
    &&& t.color == opt_color(p.value(PropertyId::Color))
    &&& t.background_color == opt_color(p.value(PropertyId::BackgroundColor))
    &&& t.font_size == (match p.value(PropertyId::FontSize) { Some(v) => value_length(v), None => None })
    &&& (t.font_family is Some <==> (p.value(PropertyId::FontFamily) matches Some(v) && v is Text))
    &&& (t.font_family matches Some(f) ==> f@ == p.value(PropertyId::FontFamily)->0->Text_0@)
    &&& t.padding is Some
    &&& forall|k: int| 0 <= k < 4 ==> (#[trigger] t.padding->0[k]).mp() == length_or_zero(p.value(padding_id(k)))
    &&& t.border_width is Some
    &&& forall|k: int| 0 <= k < 4 ==> (#[trigger] t.border_width->0[k]).mp() == length_or_zero(p.value(width_id(k)))
    &&& t.border_color is Some
    &&& forall|k: int| 0 <= k < 4 ==> #[trigger] t.border_color->0[k] == color_or_black(p.value(color_id(k)))
    &&& t.border_style is Some
    &&& forall|k: int| 0 <= k < 4 ==> #[trigger] t.border_style->0[k] == style_or_solid(p.value(style_id(k)))
}

/// A length property, zero when unset or not a length.
fn length_prop(p: &PropertyList, id: PropertyId) -> (r: Length)
    ensures
        r.mp() == length_or_zero(p.value(id)),
{
    match p.get(id) {
        Some(v) => match v.as_length() {
            Some(l) => l,
            None => Length::zero(),
        },
        None => Length::zero(),
    }
}

/// A color property, black when unset or not a color.
fn color_prop(p: &PropertyList, id: PropertyId) -> (r: Color)
    ensures
        r == color_or_black(p.value(id)),
{
    match p.get(id) {
        Some(v) => match v.as_color() {
            Some(c) => c,
            None => Color::black(),
        },
        None => Color::black(),
    }
}

/// A border-style property, solid when unset or not a border-style keyword.
fn style_prop(p: &PropertyList, id: PropertyId) -> (r: BorderStyle)
    ensures
        r == style_or_solid(p.value(id)),
{
    match p.get(id) {
        Some(v) => match parse_border_style(v.as_string()) {
            Some(b) => b,
            None => BorderStyle::Solid,
        },
        None => BorderStyle::Solid,
    }
}

/// The text of a property value that is a keyword or name.
pub open spec fn text_of(v: Option<PropertyValue>) -> Option<Seq<char>> {
    match v {
        Some(PropertyValue::Text(s)) => Some(s@),
        _ => None,
    }
}

/// The keyword text of property `id`, if it is set to one.
fn text_prop(p: &PropertyList, id: PropertyId) -> (r: Option<&str>)
    ensures
        r is Some <==> text_of(p.value(id)) is Some,
        r matches Some(s) ==> text_of(p.value(id)) == Some(s@),
{
    match p.get(id) {
        Some(v) => v.as_string(),
        None => None,
    }
}

/// The alignment that `text-align` keyword `s` names.
pub open spec fn text_align_named(s: Seq<char>) -> Option<TextAlign> {
    if s == "left"@ { Some(TextAlign::Left) }
    else if s == "right"@ { Some(TextAlign::Right) }
    else if s == "center"@ { Some(TextAlign::Center) }
    else if s == "justify"@ { Some(TextAlign::Justify) }
    else { None }
}

/// The alignment that `text-align-last` keyword `s` names (`start` and `end` read as left
/// and right).
pub open spec fn text_align_last_named(s: Seq<char>) -> Option<TextAlign> {
    if s == "left"@ || s == "start"@ { Some(TextAlign::Left) }
    else if s == "right"@ || s == "end"@ { Some(TextAlign::Right) }
    else if s == "center"@ { Some(TextAlign::Center) }
    else if s == "justify"@ { Some(TextAlign::Justify) }
    else { None }
}

/// The case change that `text-transform` keyword `s` names.
pub open spec fn text_transform_named(s: Seq<char>) -> Option<TextTransform> {
    if s == "uppercase"@ { Some(TextTransform::Uppercase) }
    else if s == "lowercase"@ { Some(TextTransform::Lowercase) }
    else if s == "capitalize"@ { Some(TextTransform::Capitalize) }
    else { None }
}

/// The variant that `font-variant` keyword `s` names.
pub open spec fn font_variant_named(s: Seq<char>) -> Option<FontVariant> {
    if s == "small-caps"@ { Some(FontVariant::SmallCaps) } else { None }
}

/// The placement that `display-align` keyword `s` names; anything else is `before`.
pub open spec fn display_align_named(s: Seq<char>) -> DisplayAlign {
    if s == "center"@ { DisplayAlign::Center }
    else if s == "after"@ { DisplayAlign::After }
    else { DisplayAlign::Before }
}

/// The face width that `font-stretch` keyword `s` names (`normal` names none).
pub open spec fn font_stretch_named(s: Seq<char>) -> Option<FontStretch> {
    if s == "ultra-condensed"@ { Some(FontStretch::UltraCondensed) }
    else if s == "extra-condensed"@ { Some(FontStretch::ExtraCondensed) }
    else if s == "condensed"@ { Some(FontStretch::Condensed) }
    else if s == "semi-condensed"@ { Some(FontStretch::SemiCondensed) }
    else if s == "semi-expanded"@ { Some(FontStretch::SemiExpanded) }
    else if s == "expanded"@ { Some(FontStretch::Expanded) }
    else if s == "extra-expanded"@ { Some(FontStretch::ExtraExpanded) }
    else if s == "ultra-expanded"@ { Some(FontStretch::UltraExpanded) }
    else { None }
}

/// The writing mode that `writing-mode` keyword `s` names; anything else is `lr-tb`.
pub open spec fn writing_mode_named(s: Seq<char>) -> WritingMode {
    if s == "rl-tb"@ || s == "rl"@ { WritingMode::RlTb }
    else if s == "tb-rl"@ || s == "tb"@ { WritingMode::TbRl }
    else if s == "tb-lr"@ { WritingMode::TbLr }
    else { WritingMode::LrTb }
}

/// The direction that `direction` keyword `s` names; anything but `rtl` is `ltr`.
pub open spec fn direction_named(s: Seq<char>) -> Direction {
    if s == "rtl"@ { Direction::Rtl } else { Direction::Ltr }
}

/// The alignment that a `text-align` keyword names.
fn text_align_keyword(s: &str) -> (r: Option<TextAlign>)
    ensures
        r == text_align_named(s@),
{
    if same_text(s, "left") { Some(TextAlign::Left) }
    else if same_text(s, "right") { Some(TextAlign::Right) }
    else if same_text(s, "center") { Some(TextAlign::Center) }
    else if same_text(s, "justify") { Some(TextAlign::Justify) }
    else { None }
}

/// The alignment that a `text-align-last` keyword names.
fn text_align_last_keyword(s: &str) -> (r: Option<TextAlign>)
    ensures
        r == text_align_last_named(s@),
{
    if same_text(s, "left") || same_text(s, "start") { Some(TextAlign::Left) }
    else if same_text(s, "right") || same_text(s, "end") { Some(TextAlign::Right) }
    else if same_text(s, "center") { Some(TextAlign::Center) }
    else if same_text(s, "justify") { Some(TextAlign::Justify) }
    else { None }
}

/// The case change that a `text-transform` keyword names.
fn text_transform_keyword(s: &str) -> (r: Option<TextTransform>)
    ensures
        r == text_transform_named(s@),
{
    if same_text(s, "uppercase") { Some(TextTransform::Uppercase) }
    else if same_text(s, "lowercase") { Some(TextTransform::Lowercase) }
    else if same_text(s, "capitalize") { Some(TextTransform::Capitalize) }
    else { None }
}

/// The placement that a `display-align` keyword names.
fn display_align_keyword(s: &str) -> (r: DisplayAlign)
    ensures
        r == display_align_named(s@),
{
    if same_text(s, "center") { DisplayAlign::Center }
    else if same_text(s, "after") { DisplayAlign::After }
    else { DisplayAlign::Before }
}

/// The face width that a `font-stretch` keyword names.
fn font_stretch_keyword(s: &str) -> (r: Option<FontStretch>)
    ensures
        r == font_stretch_named(s@),
{
    if same_text(s, "ultra-condensed") { Some(FontStretch::UltraCondensed) }
    else if same_text(s, "extra-condensed") { Some(FontStretch::ExtraCondensed) }
    else if same_text(s, "condensed") { Some(FontStretch::Condensed) }
    else if same_text(s, "semi-condensed") { Some(FontStretch::SemiCondensed) }
    else if same_text(s, "semi-expanded") { Some(FontStretch::SemiExpanded) }
    else if same_text(s, "expanded") { Some(FontStretch::Expanded) }
    else if same_text(s, "extra-expanded") { Some(FontStretch::ExtraExpanded) }
    else if same_text(s, "ultra-expanded") { Some(FontStretch::UltraExpanded) }
    else { None }
}

/// The writing mode that a `writing-mode` keyword names.
fn writing_mode_keyword(s: &str) -> (r: WritingMode)
    ensures
        r == writing_mode_named(s@),
{
    if same_text(s, "rl-tb") || same_text(s, "rl") { WritingMode::RlTb }
    else if same_text(s, "tb-rl") || same_text(s, "tb") { WritingMode::TbRl }
    else if same_text(s, "tb-lr") { WritingMode::TbLr }
    else { WritingMode::LrTb }
}

/// The text traits drawn from `p`: each keyword property set to a keyword it knows gives
/// its trait; `display-align` set to any keyword gives one (before by default); the writing
/// mode, direction and span keep their initial values unless set to a keyword; `hyphenate`
/// set to a keyword is on exactly for `true`; the change-bar color is taken when set to a
/// color; the font weight and the hyphenation character counts are an integer value cut to
/// their width; the font style is italic for enumerated value 1, oblique for 2 and normal
/// for any other; the role and the language are taken when set to text.
pub open spec fn text_traits_from(p: PropertyList, t: TraitSet) -> bool {
    &&& t.text_align == (match text_of(p.value(PropertyId::TextAlign)) { Some(s) => text_align_named(s), None => None })
    &&& t.text_align_last == (match text_of(p.value(PropertyId::TextAlignLast)) { Some(s) => text_align_last_named(s), None => None })
    &&& t.text_transform == (match text_of(p.value(PropertyId::TextTransform)) { Some(s) => text_transform_named(s), None => None })
    &&& t.font_variant == (match text_of(p.value(PropertyId::FontVariant)) { Some(s) => font_variant_named(s), None => None })
    &&& t.display_align == (match text_of(p.value(PropertyId::DisplayAlign)) { Some(s) => Some(display_align_named(s)), None => None })
    &&& t.font_stretch == (match text_of(p.value(PropertyId::FontStretch)) { Some(s) => font_stretch_named(s), None => None })
    &&& t.writing_mode == (match text_of(p.value(PropertyId::WritingMode)) { Some(s) => writing_mode_named(s), None => WritingMode::LrTb })
    &&& t.direction == (match text_of(p.value(PropertyId::Direction)) { Some(s) => direction_named(s), None => Direction::Ltr })
    &&& t.span == (if text_of(p.value(PropertyId::Span)) == Some("all"@) { Span::All } else { Span::NoSpan })
    &&& t.hyphenate == (match text_of(p.value(PropertyId::Hyphenate)) { Some(s) => Some(s == "true"@), None => None })
    &&& t.change_bar_color == opt_color(p.value(PropertyId::ChangeBarColor))
    &&& t.font_weight == (match p.value(PropertyId::FontWeight) { Some(PropertyValue::Integer(n)) => Some(n as u16), _ => None })
    &&& t.font_style == (match p.value(PropertyId::FontStyle) {
        Some(PropertyValue::Enum(e)) => Some(if e == 1 { FontStyle::Italic } else if e == 2 { FontStyle::Oblique } else { FontStyle::Normal }),
        _ => None,
    })
    &&& t.hyphenation_push_chars == (match p.value(PropertyId::HyphenationPushCharacterCount) {
        Some(PropertyValue::Integer(n)) => Some(n as u32), _ => None })
    &&& t.hyphenation_remain_chars == (match p.value(PropertyId::HyphenationRemainCharacterCount) {
        Some(PropertyValue::Integer(n)) => Some(n as u32), _ => None })
    &&& (t.role is Some <==> text_of(p.value(PropertyId::Role)) is Some)
    &&& (t.role matches Some(r) ==> Some(r@) == text_of(p.value(PropertyId::Role)))
    &&& (t.xml_lang is Some <==> text_of(p.value(PropertyId::XmlLang)) is Some)
    &&& (t.xml_lang matches Some(r) ==> Some(r@) == text_of(p.value(PropertyId::XmlLang)))
}

/// Draws the rendering traits of a node from its properties: its color, background color,
/// font family and font size when set (these and the other inherited properties may come
/// from the parent node), its four paddings (zero by default), the widths (zero by default), colors
/// (black by default) and styles (solid by default) of its four borders, and the text
/// traits that keyword properties name (see [`text_traits_from`]).
pub fn extract_traits(properties: &PropertyList) -> (r: TraitSet)
    ensures
        traits_from(*properties, r),
        text_traits_from(*properties, r),
{
    let color = match properties.get(PropertyId::Color) {
        Some(v) => v.as_color(),
        None => None,
    };
    let background_color = match properties.get(PropertyId::BackgroundColor) {
        Some(v) => v.as_color(),
        None => None,
    };
    let font_family = match properties.get(PropertyId::FontFamily) {
        Some(v) => match v.as_string() {
            Some(s) => Some(s.to_string()),
            None => None,
        },
        None => None,
    };
    let font_size = match properties.get(PropertyId::FontSize) {
        Some(v) => v.as_length(),
        None => None,
    };
    let padding = [
        length_prop(properties, PropertyId::PaddingTop),
        length_prop(properties, PropertyId::PaddingRight),
        length_prop(properties, PropertyId::PaddingBottom),
        length_prop(properties, PropertyId::PaddingLeft),
    ];
    let widths = [
        length_prop(properties, PropertyId::BorderTopWidth),
        length_prop(properties, PropertyId::BorderRightWidth),
        length_prop(properties, PropertyId::BorderBottomWidth),
        length_prop(properties, PropertyId::BorderLeftWidth),
    ];
    let colors = [
        color_prop(properties, PropertyId::BorderTopColor),
        color_prop(properties, PropertyId::BorderRightColor),
        color_prop(properties, PropertyId::BorderBottomColor),
        color_prop(properties, PropertyId::BorderLeftColor),
    ];
    let styles = [
        style_prop(properties, PropertyId::BorderTopStyle),
        style_prop(properties, PropertyId::BorderRightStyle),
        style_prop(properties, PropertyId::BorderBottomStyle),
        style_prop(properties, PropertyId::BorderLeftStyle),
    ];
    let text_align = match text_prop(properties, PropertyId::TextAlign) {
        Some(s) => text_align_keyword(s),
        None => None,
    };
    let text_align_last = match text_prop(properties, PropertyId::TextAlignLast) {
        Some(s) => text_align_last_keyword(s),
        None => None,
    };
    let text_transform = match text_prop(properties, PropertyId::TextTransform) {
        Some(s) => text_transform_keyword(s),
        None => None,
    };
    let font_variant = match text_prop(properties, PropertyId::FontVariant) {
        Some(s) => if same_text(s, "small-caps") { Some(FontVariant::SmallCaps) } else { None },
        None => None,
    };
    let display_align = match text_prop(properties, PropertyId::DisplayAlign) {
        Some(s) => Some(display_align_keyword(s)),
        None => None,
    };
    let font_stretch = match text_prop(properties, PropertyId::FontStretch) {
        Some(s) => font_stretch_keyword(s),
        None => None,
    };
    let writing_mode = match text_prop(properties, PropertyId::WritingMode) {
        Some(s) => writing_mode_keyword(s),
        None => WritingMode::LrTb,
    };
    let direction = match text_prop(properties, PropertyId::Direction) {
        Some(s) => if same_text(s, "rtl") { Direction::Rtl } else { Direction::Ltr },
        None => Direction::Ltr,
    };
    let span = match text_prop(properties, PropertyId::Span) {
        Some(s) => if same_text(s, "all") { Span::All } else { Span::NoSpan },
        None => Span::NoSpan,
    };
    let hyphenate = match text_prop(properties, PropertyId::Hyphenate) {
        Some(s) => Some(same_text(s, "true")),
        None => None,
    };
    let change_bar_color = match properties.get(PropertyId::ChangeBarColor) {
        Some(v) => v.as_color(),
        None => None,
    };
    let font_weight = match properties.get(PropertyId::FontWeight) {
        Some(PropertyValue::Integer(n)) => Some(*n as u16),
        _ => None,
    };
    let font_style = match properties.get(PropertyId::FontStyle) {
        Some(PropertyValue::Enum(e)) => Some(if *e == 1 { FontStyle::Italic } else if *e == 2 { FontStyle::Oblique } else { FontStyle::Normal }),
        _ => None,
    };
    let hyphenation_push_chars = match properties.get(PropertyId::HyphenationPushCharacterCount) {
        Some(PropertyValue::Integer(n)) => Some(*n as u32),
        _ => None,
    };
    let hyphenation_remain_chars = match properties.get(PropertyId::HyphenationRemainCharacterCount) {
        Some(PropertyValue::Integer(n)) => Some(*n as u32),
        _ => None,
    };
    let role = match text_prop(properties, PropertyId::Role) {
        Some(s) => Some(s.to_string()),
        None => None,
    };
    let xml_lang = match text_prop(properties, PropertyId::XmlLang) {
        Some(s) => Some(s.to_string()),
        None => None,
    };
    let r = TraitSet {
        font_weight,
        font_style,
        hyphenation_push_chars,
        hyphenation_remain_chars,
        role,
        xml_lang,
        text_align,
        text_align_last,
        text_transform,
        font_variant,
        display_align,
        font_stretch,
        writing_mode,
        direction,
        span,
        hyphenate,
        change_bar_color,
        font_size,
        font_family,
        color,
        background_color,
        border_width: Some(widths),
        border_color: Some(colors),
        border_style: Some(styles),
        padding: Some(padding),
    };
    proof {
        assert forall|k: int| 0 <= k < 4 implies (#[trigger] r.padding->0[k]).mp() == length_or_zero(properties.value(padding_id(k))) by {
            if k == 0 {} else if k == 1 {} else if k == 2 {} else {}
        }
        assert forall|k: int| 0 <= k < 4 implies (#[trigger] r.border_width->0[k]).mp() == length_or_zero(properties.value(width_id(k))) by {
            if k == 0 {} else if k == 1 {} else if k == 2 {} else {}
        }
        assert forall|k: int| 0 <= k < 4 implies #[trigger] r.border_color->0[k] == color_or_black(properties.value(color_id(k))) by {
            if k == 0 {} else if k == 1 {} else if k == 2 {} else {}
        }
        assert forall|k: int| 0 <= k < 4 implies #[trigger] r.border_style->0[k] == style_or_solid(properties.value(style_id(k))) by {
            if k == 0 {} else if k == 1 {} else if k == 2 {} else {}
        }
    }
    r
}

} // verus!
