use fop_verified::area::{Direction, DisplayAlign, FontStretch, FontStyle, FontVariant, Span, TextAlign, TextTransform, WritingMode};
use fop_verified::property_list::{extract_traits, PropertyId, PropertyList, PropertyValue};
use fop_verified::{BorderStyle, Color, Length};

#[test]
fn test_extract_traits_defaults() {
    let props = PropertyList::new();
    let t = extract_traits(&props);
    assert_eq!(t.color, None);
    assert_eq!(t.background_color, None);
    assert_eq!(t.font_family, None);
    assert_eq!(t.font_size, None);
    assert_eq!(t.border_width, Some([Length::zero(); 4]));
    assert_eq!(t.border_color, Some([Color::black(); 4]));
    assert_eq!(t.border_style, Some([BorderStyle::Solid; 4]));
}

#[test]
fn test_extract_traits_reads_set_values() {
    let red = Color { r: 255, g: 0, b: 0 };
    let mut props = PropertyList::new();
    props.set(PropertyId::Color, PropertyValue::Color(red));
    props.set(PropertyId::FontFamily, PropertyValue::Text("Helvetica".to_string()));
    props.set(PropertyId::FontSize, PropertyValue::Length(Length::from_pt(14)));
    props.set(PropertyId::BorderLeftWidth, PropertyValue::Length(Length::from_pt(2)));
    props.set(PropertyId::BorderTopColor, PropertyValue::Color(red));
    props.set(PropertyId::BorderBottomStyle, PropertyValue::Text("dashed".to_string()));
    props.set(PropertyId::BorderRightStyle, PropertyValue::Text("wavy".to_string()));
    let t = extract_traits(&props);
    assert_eq!(t.color, Some(red));
    assert_eq!(t.font_family.as_deref(), Some("Helvetica"));
    assert_eq!(t.font_size, Some(Length::from_pt(14)));
    assert_eq!(t.border_width, Some([Length::zero(), Length::zero(), Length::zero(), Length::from_pt(2)]));
    assert_eq!(t.border_color, Some([red, Color::black(), Color::black(), Color::black()]));
    assert_eq!(t.border_style, Some([BorderStyle::Solid, BorderStyle::Solid, BorderStyle::Dashed, BorderStyle::Solid]));
}

#[test]
fn test_extract_traits_ignores_values_of_another_kind() {
    let mut props = PropertyList::new();
    props.set(PropertyId::Color, PropertyValue::Text("red".to_string()));
    props.set(PropertyId::FontSize, PropertyValue::Integer(12));
    props.set(PropertyId::FontFamily, PropertyValue::Length(Length::from_pt(3)));
    props.set(PropertyId::BorderTopWidth, PropertyValue::Integer(5));
    let t = extract_traits(&props);
    assert_eq!(t.color, None);
    assert_eq!(t.font_size, None);
    assert_eq!(t.font_family, None);
    assert_eq!(t.border_width, Some([Length::zero(); 4]));
}

#[test]
fn test_property_list_later_value_wins() {
    let mut props = PropertyList::new();
    props.set(PropertyId::BackgroundColor, PropertyValue::Color(Color::black()));
    props.set(PropertyId::BackgroundColor, PropertyValue::Color(Color { r: 1, g: 2, b: 3 }));
    assert!(props.get(PropertyId::Color).is_none());
    assert_eq!(extract_traits(&props).background_color, Some(Color { r: 1, g: 2, b: 3 }));
}

#[test]
fn test_property_inheritance() {
    let red = Color { r: 255, g: 0, b: 0 };
    let mut parent = PropertyList::new();
    parent.set(PropertyId::Color, PropertyValue::Color(red));
    parent.set(PropertyId::FontSize, PropertyValue::Length(Length::from_pt(10)));
    parent.set(PropertyId::BackgroundColor, PropertyValue::Color(red));
    parent.set(PropertyId::BorderTopWidth, PropertyValue::Length(Length::from_pt(3)));
    let mut child = PropertyList::with_parent(parent);
    child.set(PropertyId::FontSize, PropertyValue::Length(Length::from_pt(8)));
    assert!(child.parent().is_some());
    let t = extract_traits(&child);
    assert_eq!(t.color, Some(red));
    assert_eq!(t.font_size, Some(Length::from_pt(8)));
    assert_eq!(t.background_color, None);
    assert_eq!(t.border_width, Some([Length::zero(); 4]));
    let p = extract_traits(child.parent().expect("test: parent"));
    assert_eq!(p.border_width, Some([Length::from_pt(3), Length::zero(), Length::zero(), Length::zero()]));
}

#[test]
fn test_extract_traits_padding() {
    let mut props = PropertyList::new();
    assert_eq!(extract_traits(&props).padding, Some([Length::zero(); 4]));
    props.set(PropertyId::PaddingRight, PropertyValue::Length(Length::from_pt(4)));
    props.set(PropertyId::PaddingBottom, PropertyValue::Text("auto".to_string()));
    let t = extract_traits(&props);
    assert_eq!(t.padding, Some([Length::zero(), Length::from_pt(4), Length::zero(), Length::zero()]));
}

#[test]
fn test_extract_text_traits() {
    let t = extract_traits(&PropertyList::new());
    assert_eq!(t.text_align, None);
    assert_eq!(t.display_align, None);
    assert_eq!(t.writing_mode, WritingMode::LrTb);
    assert_eq!(t.direction, Direction::Ltr);
    assert_eq!(t.span, Span::NoSpan);
    assert_eq!(t.hyphenate, None);
    let text = |s: &str| PropertyValue::Text(s.to_string());
    let mut props = PropertyList::new();
    props.set(PropertyId::TextAlign, text("justify"));
    props.set(PropertyId::TextAlignLast, text("end"));
    props.set(PropertyId::TextTransform, text("capitalize"));
    props.set(PropertyId::FontVariant, text("small-caps"));
    props.set(PropertyId::DisplayAlign, text("middle"));
    props.set(PropertyId::FontStretch, text("semi-expanded"));
    props.set(PropertyId::WritingMode, text("tb"));
    props.set(PropertyId::Direction, text("rtl"));
    props.set(PropertyId::Span, text("all"));
    props.set(PropertyId::Hyphenate, text("false"));
    props.set(PropertyId::ChangeBarColor, PropertyValue::Color(Color::black()));
    let t = extract_traits(&props);
    assert_eq!(t.text_align, Some(TextAlign::Justify));
    assert_eq!(t.text_align_last, Some(TextAlign::Right));
    assert_eq!(t.text_transform, Some(TextTransform::Capitalize));
    assert_eq!(t.font_variant, Some(FontVariant::SmallCaps));
    assert_eq!(t.display_align, Some(DisplayAlign::Before));
    assert_eq!(t.font_stretch, Some(FontStretch::SemiExpanded));
    assert_eq!(t.writing_mode, WritingMode::TbRl);
    assert_eq!(t.direction, Direction::Rtl);
    assert_eq!(t.span, Span::All);
    assert_eq!(t.hyphenate, Some(false));
    assert_eq!(t.change_bar_color, Some(Color::black()));
    props.set(PropertyId::TextAlign, text("start"));
    props.set(PropertyId::Hyphenate, text("true"));
    let t = extract_traits(&props);
    assert_eq!(t.text_align, None);
    assert_eq!(t.hyphenate, Some(true));
}

#[test]
fn test_extract_numeric_and_text_traits() {
    let mut props = PropertyList::new();
    props.set(PropertyId::FontWeight, PropertyValue::Integer(700));
    props.set(PropertyId::FontStyle, PropertyValue::Enum(1));
    props.set(PropertyId::HyphenationPushCharacterCount, PropertyValue::Integer(3));
    props.set(PropertyId::Role, PropertyValue::Text("H1".to_string()));
    props.set(PropertyId::XmlLang, PropertyValue::Text("en".to_string()));
    let t = extract_traits(&props);
    assert_eq!(t.font_weight, Some(700));
    assert_eq!(t.font_style, Some(FontStyle::Italic));
    assert_eq!(t.hyphenation_push_chars, Some(3));
    assert_eq!(t.hyphenation_remain_chars, None);
    assert_eq!(t.role.as_deref(), Some("H1"));
    assert_eq!(t.xml_lang.as_deref(), Some("en"));
    props.set(PropertyId::FontWeight, PropertyValue::Integer(70000));
    props.set(PropertyId::FontStyle, PropertyValue::Enum(2));
    props.set(PropertyId::HyphenationRemainCharacterCount, PropertyValue::Integer(-1));
    props.set(PropertyId::Role, PropertyValue::Integer(1));
    let t = extract_traits(&props);
    assert_eq!(t.font_weight, Some(70000u32 as u16));
    assert_eq!(t.font_style, Some(FontStyle::Oblique));
    assert_eq!(t.hyphenation_remain_chars, Some(u32::MAX));
    assert_eq!(t.role, None);
    props.set(PropertyId::FontStyle, PropertyValue::Enum(9));
    assert_eq!(extract_traits(&props).font_style, Some(FontStyle::Normal));
}
