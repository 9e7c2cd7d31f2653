//! The debug rasterizer's paint plan.
//!
//! Replaying a frame onto an 800x600 image is a fold over its records with one
//! piece of state, the current colour. This module computes the sequence of
//! paint operations; painting them and encoding the image happen outside.
//! Coordinates and sizes stay the `f32` bit patterns the frame carries.
use crate::codec::{commands_view, decode_commands, parse, CommandModel, DrawCommand};
use vstd::prelude::*;

verus! {

pub const CANVAS_WIDTH: u32 = 800;

pub const CANVAS_HEIGHT: u32 = 600;

/// Width in pixels of the placeholder box drawn for each byte of text.
pub const TEXT_CELL_WIDTH: u32 = 8;

/// Height in pixels of the placeholder box drawn for text.
pub const TEXT_BOX_HEIGHT: u32 = 10;

/// Side in pixels of an image placeholder whose size is not positive.
pub const IMAGE_BOX_DEFAULT: u32 = 32;

#[derive(Clone, Copy, Debug, PartialEq, Eq)]
pub struct Rgb {
    pub r: u8,
    pub g: u8,
    pub b: u8,
}

/// One paint operation on the canvas.
#[derive(Clone, Copy, Debug, PartialEq, Eq)]
pub enum PaintOp {
    /// Fill the whole canvas.
    FillCanvas { rgb: Rgb },
    /// Fill a rectangle; fields are `f32` bits.
    FillRect { x: u32, y: u32, w: u32, h: u32, rgb: Rgb },
    /// Draw a line; fields are `f32` bits.
    Line { x1: u32, y1: u32, x2: u32, y2: u32, rgb: Rgb },
    /// A placeholder for text at `(x, y)` (`f32` bits), `width` pixels wide
    /// and `TEXT_BOX_HEIGHT` high.
    TextBox { x: u32, y: u32, width: u32, rgb: Rgb },
    /// A blue placeholder for an image at `(x, y)` (`f32` bits); a size is
    /// the `f32` bits of a positive size, or `None` for `IMAGE_BOX_DEFAULT`.
    ImageBox { x: u32, y: u32, w: Option<u32>, h: Option<u32> },
}

pub open spec fn black() -> Rgb {
    Rgb { r: 0, g: 0, b: 0 }
}

pub open spec fn white() -> Rgb {
    Rgb { r: 255, g: 255, b: 255 }
}

/// The `f32` with these bits is greater than zero: positive sign, not zero,
/// not NaN (positive infinity counts).
pub open spec fn f32_bits_positive(bits: u32) -> bool {
    0 < bits <= 0x7f80_0000
}

/// The current colour after the first `n` records: white until a SET_COLOR.
pub open spec fn color_after(cs: Seq<CommandModel>, n: int) -> Rgb
    decreases n,
{
    if n <= 0 {
        white()
    } else {
        match cs[n - 1] {
            CommandModel::SetColor { r, g, b, .. } => Rgb { r, g, b },
            _ => color_after(cs, n - 1),
        }
    }
}

/// The paint operations of one record under the current colour.
pub open spec fn ops_of(c: CommandModel, color: Rgb) -> Seq<PaintOp> {
    match c {
        CommandModel::Clear { r, g, b } => seq![PaintOp::FillCanvas { rgb: Rgb { r, g, b } }],
        CommandModel::FillRect { x, y, w, h } => seq![PaintOp::FillRect { x, y, w, h, rgb: color }],
        CommandModel::DrawLine { x1, y1, x2, y2, .. } => seq![
            PaintOp::Line { x1, y1, x2, y2, rgb: color },
        ],
        CommandModel::DrawText { x, y, text } => seq![
            PaintOp::TextBox { x, y, width: (text.len() * 8) as u32, rgb: color },
        ],
        CommandModel::DrawImage { place, .. } => seq![
            PaintOp::ImageBox {
                x: place.x,
                y: place.y,
                w: if f32_bits_positive(place.w) {
                    Some(place.w)
                } else {
                    None
                },
                h: if f32_bits_positive(place.h) {
                    Some(place.h)
                } else {
                    None
                },
            },
        ],
        _ => Seq::empty(),
    }
}

/// The paint operations of the first `n` records.
pub open spec fn plan_prefix(cs: Seq<CommandModel>, n: int) -> Seq<PaintOp>
    decreases n,
{
    if n <= 0 {
        Seq::empty()
    } else {
        plan_prefix(cs, n - 1) + ops_of(cs[n - 1], color_after(cs, n - 1))
    }
}

/// The paint plan of a frame: a black canvas, then the operations of every
/// record the frame holds.
pub open spec fn plan_of(data: Seq<u8>) -> Seq<PaintOp> {
    seq![PaintOp::FillCanvas { rgb: black() }] + plan_prefix(parse(data), parse(data).len() as int)
}

fn push_ops(out: &mut Vec<PaintOp>, c: &DrawCommand, color: Rgb)
    requires
        c@ matches CommandModel::DrawText { text, .. } ==> text.len() <= 65535,
    ensures
        final(out)@ == old(out)@ + ops_of(c@, color),
{
    match c {
        DrawCommand::Clear { r, g, b } => {
            out.push(PaintOp::FillCanvas { rgb: Rgb { r: *r, g: *g, b: *b } });
        },
        DrawCommand::FillRect { x, y, w, h } => {
            out.push(PaintOp::FillRect { x: *x, y: *y, w: *w, h: *h, rgb: color });
        },
        DrawCommand::DrawLine { x1, y1, x2, y2, .. } => {
            out.push(PaintOp::Line { x1: *x1, y1: *y1, x2: *x2, y2: *y2, rgb: color });
        },
        DrawCommand::DrawText { x, y, text } => {
            let width = (text.len() as u32) * TEXT_CELL_WIDTH;
            out.push(PaintOp::TextBox { x: *x, y: *y, width, rgb: color });
        },
        DrawCommand::DrawImage { place, .. } => {
            let w = if 0 < place.w && place.w <= 0x7f80_0000 {
                Some(place.w)
            } else {
                None
            };
            let h = if 0 < place.h && place.h <= 0x7f80_0000 {
                Some(place.h)
            } else {
                None
            };
            out.push(PaintOp::ImageBox { x: place.x, y: place.y, w, h });
        },
        _ => {},
    }
    assert(out@ =~= old(out)@ + ops_of(c@, color));
}

/// Every text record a reader produces fits its `u16` length prefix.
proof fn lemma_parsed_text_fits(b: Seq<u8>, i: int)
    requires
        0 <= i,
    ensures
        forall|k: int|
            0 <= k < crate::codec::parse_from(b, i).len() ==> (#[trigger] crate::codec::parse_from(
                b,
                i,
            )[k] matches CommandModel::DrawText { text, .. } ==> text.len() <= 65535),
    decreases b.len() - i,
{
    if 0 <= i < b.len() {
        match crate::codec::record_at(b, i) {
            Some((c, next)) => {
                if next > i {
                    lemma_parsed_text_fits(b, next);
                    let rest = crate::codec::parse_from(b, next);
                    assert forall|k: int|
                        0 <= k < crate::codec::parse_from(b, i).len() implies (
                        #[trigger] crate::codec::parse_from(b, i)[k] matches CommandModel::DrawText {
                            text,
                            ..
                        } ==> text.len() <= 65535) by {
                        if k > 0 {
                            assert(crate::codec::parse_from(b, i)[k] == rest[k - 1]);
                        }
                    }
                }
            },
            None => {},
        }
    }
}

/// The paint plan of a frame, for the debug rasterizer. Truncated records and
/// unknown opcodes end the plan cleanly, as they end reading.
pub fn raster_plan(data: &[u8]) -> (r: Vec<PaintOp>)
    ensures
        r@ == plan_of(data@),
{
    let cmds = decode_commands(data);
    let ghost cs = parse(data@);
    proof {
        lemma_parsed_text_fits(data@, 0);
    }
    let mut out: Vec<PaintOp> = Vec::new();
    out.push(PaintOp::FillCanvas { rgb: Rgb { r: 0, g: 0, b: 0 } });
    let mut color = Rgb { r: 255, g: 255, b: 255 };
    let mut i: usize = 0;
    while i < cmds.len()
        invariant
            commands_view(cmds@) == cs,
            forall|k: int|
                0 <= k < cs.len() ==> (#[trigger] cs[k] matches CommandModel::DrawText { text, .. }
                    ==> text.len() <= 65535),
            i <= cmds@.len(),
            color == color_after(cs, i as int),
            out@ == seq![PaintOp::FillCanvas { rgb: black() }] + plan_prefix(cs, i as int),
        decreases cmds@.len() - i,
    {
        let c = &cmds[i];
        assert(cs[i as int] == c@);
        push_ops(&mut out, c, color);
        match c {
            DrawCommand::SetColor { r, g, b, .. } => {
                color = Rgb { r: *r, g: *g, b: *b };
            },
            _ => {},
        }
        i += 1;
        assert(out@ =~= seq![PaintOp::FillCanvas { rgb: black() }] + plan_prefix(cs, i as int));
    }
    out
}

/// An empty frame paints a black canvas and nothing else.
pub proof fn lemma_empty_frame_is_black()
    ensures
        plan_of(Seq::<u8>::empty()) == seq![PaintOp::FillCanvas { rgb: black() }],
{
    assert(parse(Seq::<u8>::empty()).len() == 0);
    assert(plan_of(Seq::<u8>::empty()) =~= seq![PaintOp::FillCanvas { rgb: black() }]);
}

} // verus!
