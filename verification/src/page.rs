//! The content stream of a PDF page: text in the standard font and in embedded fonts,
//! images and clipping, as PDF operators.
//!
//! Lengths are written in points. A length of `mp` millipoints is the point value
//! `mp / 1000`, which has at most three decimals; it is written either as its shortest
//! decimal form (`12`, `12.5`, `-0.25`) or with a fixed number of decimals (`12.500`).

use vstd::prelude::*;
use vstd::utf8::encode_utf8;
use crate::cidfont::{encode_pdf_text, utf16_hex};
use crate::error::FopError;
use crate::geometry::Color;
use crate::length::{div_round, round_div, Length};
use crate::minimal_pdf::append_text;
use crate::pdf_font::FontManager;
use crate::textfmt::{dec_nat, digit, digit_char, push_char, push_dec, same_text};

verus! {

/// `"-"` for a negative value, nothing otherwise.
pub open spec fn sign_text(mp: int) -> Seq<char> {
    if mp < 0 { "-"@ } else { Seq::empty() }
}

/// The absolute value of `v`.
pub open spec fn abs_int(v: int) -> int {
    if v < 0 { -v } else { v }
}

/// The three decimals of a point value of `mp` millipoints.
pub open spec fn decimals(mp: int) -> Seq<char> {
    let f = abs_int(mp) % 1000;
    seq![digit_char(f / 100), digit_char((f / 10) % 10), digit_char(f % 10)]
}

/// The decimals of a point value without trailing zeros (none for a whole number).
pub open spec fn short_decimals(mp: int) -> Seq<char> {
    let f = abs_int(mp) % 1000;
    if f == 0 {
        Seq::empty()
    } else if f % 100 == 0 {
        seq!['.', digit_char(f / 100)]
    } else if f % 10 == 0 {
        seq!['.', digit_char(f / 100), digit_char((f / 10) % 10)]
    } else {
        seq!['.'] + decimals(mp)
    }
}

/// A length of `mp` millipoints in points, in its shortest decimal form.
pub open spec fn pt_text(mp: int) -> Seq<char> {
    sign_text(mp) + dec_nat((abs_int(mp) / 1000) as nat) + short_decimals(mp)
}

/// A length of `mp` millipoints in points, with three decimals.
pub open spec fn pt_fixed3(mp: int) -> Seq<char> {
    sign_text(mp) + dec_nat((abs_int(mp) / 1000) as nat) + seq!['.'] + decimals(mp)
}

/// A length of `mp` millipoints in points, with four decimals.
pub open spec fn pt_fixed4(mp: int) -> Seq<char> {
    pt_fixed3(mp).push('0')
}

/// Appends the sign and whole points of `mp` millipoints; returns the thousandths left.
fn push_whole_points(s: &mut String, mp: i32) -> (f: u64)
    ensures
        final(s)@ == old(s)@ + sign_text(mp as int) + dec_nat((abs_int(mp as int) / 1000) as nat),
        f == abs_int(mp as int) % 1000,
{
    let a: i64 = if mp < 0 {
        push_char(s, '-');
        -(mp as i64)
    } else {
        mp as i64
    };
    push_dec(s, (a / 1000) as u64);
    proof {
        reveal_strlit("-");
        assert(final(s)@ =~= old(s)@ + sign_text(mp as int) + dec_nat((abs_int(mp as int) / 1000) as nat));
    }
    (a % 1000) as u64
}

/// Appends `len` in points, in its shortest decimal form.
pub fn push_pt(s: &mut String, len: Length)
    ensures
        final(s)@ == old(s)@ + pt_text(len.mp()),
{
    let f = push_whole_points(s, len.millipoints());
    if f != 0 {
        push_char(s, '.');
        push_char(s, digit(f / 100));
        if f % 100 != 0 {
            push_char(s, digit((f / 10) % 10));
            if f % 10 != 0 {
                push_char(s, digit(f % 10));
            }
        }
    }
    proof {
        assert(final(s)@ =~= old(s)@ + pt_text(len.mp()));
    }
}

/// Appends `len` in points with three decimals.
pub fn push_pt_fixed3(s: &mut String, len: Length)
    ensures
        final(s)@ == old(s)@ + pt_fixed3(len.mp()),
{
    let f = push_whole_points(s, len.millipoints());
    push_char(s, '.');
    push_char(s, digit(f / 100));
    push_char(s, digit((f / 10) % 10));
    push_char(s, digit(f % 10));
    proof {
        assert(final(s)@ =~= old(s)@ + pt_fixed3(len.mp()));
    }
}

/// The character and word spacing operators: `Tc` and `Tw` with four decimals, each only
/// when its spacing is given and not zero.
pub open spec fn spacing_text(letter_spacing: Option<Length>, word_spacing: Option<Length>) -> Seq<char> {
    (match letter_spacing {
        Some(ls) => if ls.mp() != 0 { pt_fixed4(ls.mp()) + " Tc\n"@ } else { Seq::empty() },
        None => Seq::empty(),
    }) + (match word_spacing {
        Some(ws) => if ws.mp() != 0 { pt_fixed4(ws.mp()) + " Tw\n"@ } else { Seq::empty() },
        None => Seq::empty(),
    })
}

/// The character spacing (`Tc`) and word spacing (`Tw`) operators for a text object; a
/// spacing that is absent or zero gives no operator.
pub fn build_spacing_ops(letter_spacing: Option<Length>, word_spacing: Option<Length>) -> (r: String)
    ensures
        r@ == spacing_text(letter_spacing, word_spacing),
{
    let mut ops = String::new();
    if let Some(ls) = letter_spacing {
        if ls.millipoints() != 0 {
            push_pt_fixed3(&mut ops, ls);
            ops.append("0 Tc\n");
        }
    }
    if let Some(ws) = word_spacing {
        if ws.millipoints() != 0 {
            push_pt_fixed3(&mut ops, ws);
            ops.append("0 Tw\n");
        }
    }
    proof {
        reveal_strlit("0 Tc\n");
        reveal_strlit(" Tc\n");
        reveal_strlit("0 Tw\n");
        reveal_strlit(" Tw\n");
        assert(ops@ =~= spacing_text(letter_spacing, word_spacing));
    }
    ops
}

/// A text object in font `font` (a resource name) at size `size` and position `(x, y)`,
/// with the spacing operators `spacing`, showing the string operand `shown`.
pub open spec fn text_object(font: Seq<char>, size: Length, spacing: Seq<char>, x: Length, y: Length, shown: Seq<char>) -> Seq<char> {
    "BT\n/"@ + font + " "@ + pt_text(size.mp()) + " Tf\n"@ + spacing + pt_text(x.mp()) + " "@ + pt_text(y.mp())
        + " Td\n"@ + shown + " Tj\nET\n"@
}

/// The image operators: scale to `width` by `height` at `(x, y)` and paint image XObject
/// `Im<index>`, between a save and a restore of the graphics state.
pub open spec fn image_text(index: nat, x: Length, y: Length, width: Length, height: Length) -> Seq<char> {
    "q\n"@ + pt_fixed3(width.mp()) + " 0 0 "@ + pt_fixed3(height.mp()) + " "@ + pt_fixed3(x.mp()) + " "@
        + pt_fixed3(y.mp()) + " cm\n/Im"@ + dec_nat(index) + " Do\nQ\n"@
}

/// Saving the graphics state and clipping to the rectangle at `(x, y)` of the given size.
pub open spec fn clip_text(x: Length, y: Length, width: Length, height: Length) -> Seq<char> {
    "q\n"@ + pt_fixed3(x.mp()) + " "@ + pt_fixed3(y.mp()) + " "@ + pt_fixed3(width.mp()) + " "@ + pt_fixed3(height.mp())
        + " re W n\n"@
}

/// A colour channel as a fraction of full intensity, in thousandths rounded to the nearest.
pub open spec fn channel_thousandths(c: u8) -> int {
    round_div(c * 1000, 255)
}

/// The dash pattern operator for a rule style: dashes for `dashed`, dots for `dotted`, a
/// solid line for any other style.
pub open spec fn dash_text(style: Seq<char>) -> Seq<char> {
    if style == "dashed"@ {
        "[6 3] 0 d\n"@
    } else if style == "dotted"@ {
        "[1 2] 0 d\n"@
    } else {
        "[] 0 d\n"@
    }
}

/// The operators of a horizontal rule from `(x, y)` to `(x + width, y)`: stroke colour,
/// line width, dash pattern, then the stroked line.
pub open spec fn rule_text(x: Length, y: Length, width: Length, thickness: Length, color: Color, style: Seq<char>) -> Seq<char> {
    pt_fixed3(channel_thousandths(color.r)) + " "@ + pt_fixed3(channel_thousandths(color.g)) + " "@
        + pt_fixed3(channel_thousandths(color.b)) + " RG\n"@ + pt_fixed3(thickness.mp()) + " w\n"@ + dash_text(style)
        + pt_fixed3(x.mp()) + " "@ + pt_fixed3(y.mp()) + " m "@ + pt_fixed3(x.mp() + width.mp()) + " "@
        + pt_fixed3(y.mp()) + " l S\n"@
}

/// Appends colour channel `c` as a fraction of full intensity with three decimals.
fn push_channel(s: &mut String, c: u8)
    ensures
        final(s)@ == old(s)@ + pt_fixed3(channel_thousandths(c)),
{
    let v = div_round(c as i64 * 1000, 255);
    push_pt_fixed3(s, Length::from_millipoints(v as i32));
}

/// A page of a PDF document: its size and its content stream.
pub struct PdfPage {
    /// Page width.
    pub width: Length,
    /// Page height.
    pub height: Length,
    /// The content stream, PDF operators as bytes.
    pub content: Vec<u8>,
}

impl PdfPage {
    /// An empty page of the given size.
    pub fn new(width: Length, height: Length) -> (r: PdfPage)
        ensures
            r.width == width,
            r.height == height,
            r.content@ == Seq::<u8>::empty(),
    {
        PdfPage { width, height, content: Vec::new() }
    }

    /// Appends the UTF-8 bytes of `ops` to the content stream.
    fn append_ops(&mut self, ops: &str)
        ensures
            final(self).content@ == old(self).content@ + encode_utf8(ops@),
            final(self).width == old(self).width,
            final(self).height == old(self).height,
    {
        let mut content = Vec::new();
        std::mem::swap(&mut content, &mut self.content);
        append_text(&mut content, ops);
        self.content = content;
    }

    /// Shows `text` (written as it is, in parentheses) in the standard font `F1` at
    /// `(x, y)`.
    pub fn add_text(&mut self, text: &str, x: Length, y: Length, font_size: Length)
        ensures
            final(self).content@ == old(self).content@
                + encode_utf8(text_object("F1"@, font_size, Seq::empty(), x, y, "("@ + text@ + ")"@)),
            final(self).width == old(self).width,
            final(self).height == old(self).height,
    {
        self.add_text_with_spacing(text, x, y, font_size, None, None);
        proof {
            assert(spacing_text(None, None) =~= Seq::<char>::empty());
        }
    }

    /// Shows `text` in the standard font `F1` at `(x, y)`, with the given character and
    /// word spacing.
    pub fn add_text_with_spacing(&mut self, text: &str, x: Length, y: Length, font_size: Length,
        letter_spacing: Option<Length>, word_spacing: Option<Length>)
        ensures
            final(self).content@ == old(self).content@ + encode_utf8(text_object("F1"@, font_size,
                spacing_text(letter_spacing, word_spacing), x, y, "("@ + text@ + ")"@)),
            final(self).width == old(self).width,
            final(self).height == old(self).height,
    {
        let spacing_ops = build_spacing_ops(letter_spacing, word_spacing);
        let mut ops = "BT\n/".to_owned();
        ops.append("F1");
        ops.append(" ");
        push_pt(&mut ops, font_size);
        ops.append(" Tf\n");
        ops.append(spacing_ops.as_str());
        push_pt(&mut ops, x);
        ops.append(" ");
        push_pt(&mut ops, y);
        ops.append(" Td\n");
        ops.append("(");
        ops.append(text);
        ops.append(")");
        ops.append(" Tj\nET\n");
        proof {
            assert(ops@ =~= text_object("F1"@, font_size, spacing_text(letter_spacing, word_spacing), x, y,
                "("@ + text@ + ")"@));
        }
        self.append_ops(ops.as_str());
    }

    /// Shows `text` in embedded font `font_index` (resource `F<font_index + 2>`; `F1` is the
    /// standard font) at `(x, y)`, as UTF-16BE hexadecimal.
    pub fn add_text_with_font(&mut self, text: &str, x: Length, y: Length, font_size: Length, font_index: usize)
        requires
            font_index + 2 <= usize::MAX,
        ensures
            final(self).content@ == old(self).content@ + encode_utf8(text_object("F"@ + dec_nat(font_index as nat + 2),
                font_size, Seq::empty(), x, y, "<"@ + utf16_hex(text@) + ">"@)),
            final(self).width == old(self).width,
            final(self).height == old(self).height,
    {
        self.add_text_with_font_and_spacing(text, x, y, font_size, font_index, None, None);
        proof {
            assert(spacing_text(None, None) =~= Seq::<char>::empty());
        }
    }

    /// Shows `text` in embedded font `font_index` at `(x, y)` with the given character and
    /// word spacing.
    pub fn add_text_with_font_and_spacing(&mut self, text: &str, x: Length, y: Length, font_size: Length,
        font_index: usize, letter_spacing: Option<Length>, word_spacing: Option<Length>)
        requires
            font_index + 2 <= usize::MAX,
        ensures
            final(self).content@ == old(self).content@ + encode_utf8(text_object("F"@ + dec_nat(font_index as nat + 2),
                font_size, spacing_text(letter_spacing, word_spacing), x, y, "<"@ + utf16_hex(text@) + ">"@)),
            final(self).width == old(self).width,
            final(self).height == old(self).height,
    {
        let mut font_name = "F".to_owned();
        push_dec(&mut font_name, (font_index + 2) as u64);
        let encoded_text = encode_pdf_text(text);
        let spacing_ops = build_spacing_ops(letter_spacing, word_spacing);
        let mut ops = "BT\n/".to_owned();
        ops.append(font_name.as_str());
        ops.append(" ");
        push_pt(&mut ops, font_size);
        ops.append(" Tf\n");
        ops.append(spacing_ops.as_str());
        push_pt(&mut ops, x);
        ops.append(" ");
        push_pt(&mut ops, y);
        ops.append(" Td\n");
        ops.append(encoded_text.as_str());
        ops.append(" Tj\nET\n");
        proof {
            assert(font_name@ =~= "F"@ + dec_nat(font_index as nat + 2));
            assert(ops@ =~= text_object("F"@ + dec_nat(font_index as nat + 2), font_size,
                spacing_text(letter_spacing, word_spacing), x, y, "<"@ + utf16_hex(text@) + ">"@));
        }
        self.append_ops(ops.as_str());
    }

    /// Records the characters of `text` as used with font `font_index` in `font_manager`,
    /// then shows `text` in that font at `(x, y)`.
    pub fn add_text_with_font_tracked(&mut self, text: &str, x: Length, y: Length, font_size: Length,
        font_index: usize, font_manager: &mut FontManager)
        requires
            font_index + 2 <= usize::MAX,
        ensures
            final(self).content@ == old(self).content@ + encode_utf8(text_object("F"@ + dec_nat(font_index as nat + 2),
                font_size, Seq::empty(), x, y, "<"@ + utf16_hex(text@) + ">"@)),
            final(self).width == old(self).width,
            final(self).height == old(self).height,
            final(font_manager).font_list() == old(font_manager).font_list(),
            final(font_manager).subsetter_list().len() == old(font_manager).subsetter_list().len(),
            forall|i: int| 0 <= i < old(font_manager).subsetter_list().len() && i != font_index ==>
                #[trigger] final(font_manager).subsetter_list()[i] == old(font_manager).subsetter_list()[i],
            font_index < old(font_manager).subsetter_list().len() ==>
                final(font_manager).subsetter_list()[font_index as int].chars().to_set()
                    == old(font_manager).subsetter_list()[font_index as int].chars().to_set() + text@.to_set(),
    {
        font_manager.record_text(font_index, text);
        self.add_text_with_font(text, x, y, font_size, font_index);
    }

    /// Paints image XObject `Im<image_index>` scaled to `width` by `height` at `(x, y)`.
    pub fn add_image(&mut self, image_index: usize, x: Length, y: Length, width: Length, height: Length)
        ensures
            final(self).content@ == old(self).content@ + encode_utf8(image_text(image_index as nat, x, y, width, height)),
            final(self).width == old(self).width,
            final(self).height == old(self).height,
    {
        let mut ops = "q\n".to_owned();
        push_pt_fixed3(&mut ops, width);
        ops.append(" 0 0 ");
        push_pt_fixed3(&mut ops, height);
        ops.append(" ");
        push_pt_fixed3(&mut ops, x);
        ops.append(" ");
        push_pt_fixed3(&mut ops, y);
        ops.append(" cm\n/Im");
        push_dec(&mut ops, image_index as u64);
        ops.append(" Do\nQ\n");
        proof {
            assert(ops@ =~= image_text(image_index as nat, x, y, width, height));
        }
        self.append_ops(ops.as_str());
    }

    /// Draws a horizontal rule of the given width and thickness from `(x, y)`, stroked in
    /// `color`, dashed for style `dashed`, dotted for `dotted` and solid otherwise.
    pub fn add_rule(&mut self, x: Length, y: Length, width: Length, thickness: Length, color: Color, style: &str)
        requires
            i32::MIN <= x.mp() + width.mp() <= i32::MAX,
        ensures
            final(self).content@ == old(self).content@ + encode_utf8(rule_text(x, y, width, thickness, color, style@)),
            final(self).width == old(self).width,
            final(self).height == old(self).height,
    {
        let mut ops = String::new();
        push_channel(&mut ops, color.r);
        ops.append(" ");
        push_channel(&mut ops, color.g);
        ops.append(" ");
        push_channel(&mut ops, color.b);
        ops.append(" RG\n");
        push_pt_fixed3(&mut ops, thickness);
        ops.append(" w\n");
        let ghost before_dash = ops@;
        if same_text(style, "dashed") {
            ops.append("[6 3] 0 d\n");
        } else if same_text(style, "dotted") {
            ops.append("[1 2] 0 d\n");
        } else {
            ops.append("[] 0 d\n");
        }
        proof {
            assert(ops@ =~= before_dash + dash_text(style@));
        }
        push_pt_fixed3(&mut ops, x);
        ops.append(" ");
        push_pt_fixed3(&mut ops, y);
        ops.append(" m ");
        push_pt_fixed3(&mut ops, x.plus(width));
        ops.append(" ");
        push_pt_fixed3(&mut ops, y);
        ops.append(" l S\n");
        proof {
            assert(ops@ =~= rule_text(x, y, width, thickness, color, style@));
        }
        self.append_ops(ops.as_str());
    }

    /// Saves the graphics state and clips what follows to the rectangle at `(x, y)` of the
    /// given size, until [`Self::restore_clip_state`].
    pub fn save_clip_state(&mut self, x: Length, y: Length, width: Length, height: Length) -> (r: Result<(), FopError>)
        ensures
            r is Ok,
            final(self).content@ == old(self).content@ + encode_utf8(clip_text(x, y, width, height)),
            final(self).width == old(self).width,
            final(self).height == old(self).height,
    {
        let mut ops = "q\n".to_owned();
        push_pt_fixed3(&mut ops, x);
        ops.append(" ");
        push_pt_fixed3(&mut ops, y);
        ops.append(" ");
        push_pt_fixed3(&mut ops, width);
        ops.append(" ");
        push_pt_fixed3(&mut ops, height);
        ops.append(" re W n\n");
        proof {
            assert(ops@ =~= clip_text(x, y, width, height));
        }
        self.append_ops(ops.as_str());
        Ok(())
    }

    /// Restores the graphics state saved by [`Self::save_clip_state`], ending the clipping.
    pub fn restore_clip_state(&mut self) -> (r: Result<(), FopError>)
        ensures
            r is Ok,
            final(self).content@ == old(self).content@ + encode_utf8("Q\n"@),
            final(self).width == old(self).width,
            final(self).height == old(self).height,
    {
        self.append_ops("Q\n");
        Ok(())
    }
}

} // verus!
