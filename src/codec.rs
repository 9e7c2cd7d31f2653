//! The draw-command wire format: a little-endian opcode stream.
//!
//! Each record is one opcode byte followed by its payload. Floating-point
//! payload fields travel as the raw bits of an `f32` (a `u32`); strings are a
//! `u16` byte length followed by that many bytes. A reader stops cleanly at the
//! end of the buffer, at a record that needs more bytes than remain, and at an
//! unknown opcode, keeping every record parsed before that point.
use vstd::prelude::*;

verus! {

pub const OP_CLEAR: u8 = 1;
pub const OP_SET_COLOR: u8 = 2;
pub const OP_FILL_RECT: u8 = 3;
pub const OP_DRAW_LINE: u8 = 4;
pub const OP_DRAW_TEXT: u8 = 5;
pub const OP_LOAD_SOUND: u8 = 6;
pub const OP_PLAY_SOUND: u8 = 7;
pub const OP_STOP_SOUND: u8 = 8;
pub const OP_SET_VOLUME: u8 = 9;
pub const OP_LOAD_IMAGE: u8 = 10;
pub const OP_DRAW_IMAGE: u8 = 11;

/// The largest byte length of a string field.
pub const MAX_STR_LEN: usize = 65535;

// ---------------------------------------------------------------- byte layout

/// Little-endian bytes of a `u16`.
pub open spec fn le16(v: u16) -> Seq<u8> {
    seq![(v % 256) as u8, (v / 256) as u8]
}

/// Little-endian bytes of a `u32`.
pub open spec fn le32(v: u32) -> Seq<u8> {
    seq![(v % 256) as u8, (v / 256 % 256) as u8, (v / 65536 % 256) as u8, (v / 16777216) as u8]
}

/// The `u16` stored little-endian at `b[i..i+2]`.
pub open spec fn u16_at(b: Seq<u8>, i: int) -> u16 {
    (b[i] + 256 * b[i + 1]) as u16
}

/// The `u32` stored little-endian at `b[i..i+4]`.
pub open spec fn u32_at(b: Seq<u8>, i: int) -> u32 {
    (b[i] + 256 * b[i + 1] + 65536 * b[i + 2] + 16777216 * b[i + 3]) as u32
}

/// A length-prefixed string field.
pub open spec fn lp_str(s: Seq<u8>) -> Seq<u8> {
    le16(s.len() as u16) + s
}

/// The string field that starts at `b[i]`, with the offset just past it, if the
/// buffer holds all of it.
pub open spec fn str_at(b: Seq<u8>, i: int) -> Option<(Seq<u8>, int)> {
    if 0 <= i && i + 2 <= b.len() && i + 2 + u16_at(b, i) <= b.len() {
        let n = u16_at(b, i) as int;
        Some((b.subrange(i + 2, i + 2 + n), i + 2 + n))
    } else {
        None
    }
}

/// The two bytes at `off`, low byte first.
fn read_u16_le(data: &[u8], off: usize) -> (r: u16)
    requires
        off + 2 <= data@.len(),
    ensures
        r == u16_at(data@, off as int),
{
    data[off] as u16 + 256 * (data[off + 1] as u16)
}

/// The four bytes at `off`, low byte first.
fn read_u32_le(data: &[u8], off: usize) -> (r: u32)
    requires
        off + 4 <= data@.len(),
    ensures
        r == u32_at(data@, off as int),
{
    data[off] as u32 + 256 * (data[off + 1] as u32) + 65536 * (data[off + 2] as u32) + 16777216 * (
    data[off + 3] as u32)
}

proof fn lemma_u16_round_trip(v: u16, pre: Seq<u8>, post: Seq<u8>)
    ensures
        u16_at(pre + le16(v) + post, pre.len() as int) == v,
{
    let b = pre + le16(v) + post;
    let i = pre.len() as int;
    assert(b[i] == (v % 256) as u8);
    assert(b[i + 1] == (v / 256) as u8);
}

proof fn lemma_u32_round_trip(v: u32, pre: Seq<u8>, post: Seq<u8>)
    ensures
        u32_at(pre + le32(v) + post, pre.len() as int) == v,
{
    let b = pre + le32(v) + post;
    let i = pre.len() as int;
    assert(b[i] == (v % 256) as u8);
    assert(b[i + 1] == (v / 256 % 256) as u8);
    assert(b[i + 2] == (v / 65536 % 256) as u8);
    assert(b[i + 3] == (v / 16777216) as u8);
}

fn push_u16(out: &mut Vec<u8>, v: u16)
    ensures
        final(out)@ == old(out)@ + le16(v),
{
    out.push((v % 256) as u8);
    out.push((v / 256) as u8);
    assert(out@ =~= old(out)@ + le16(v));
}

fn push_u32(out: &mut Vec<u8>, v: u32)
    ensures
        final(out)@ == old(out)@ + le32(v),
{
    out.push((v % 256) as u8);
    out.push((v / 256 % 256) as u8);
    out.push((v / 65536 % 256) as u8);
    out.push((v / 16777216) as u8);
    assert(out@ =~= old(out)@ + le32(v));
}

fn push_str(out: &mut Vec<u8>, s: &Vec<u8>)
    requires
        s@.len() <= MAX_STR_LEN,
    ensures
        final(out)@ == old(out)@ + lp_str(s@),
{
    push_u16(out, s.len() as u16);
    let mut i: usize = 0;
    while i < s.len()
        invariant
            i <= s@.len(),
            out@ == old(out)@ + le16(s@.len() as u16) + s@.subrange(0, i as int),
        decreases s@.len() - i,
    {
        out.push(s[i]);
        i += 1;
        assert(s@.subrange(0, i as int) =~= s@.subrange(0, i - 1) + seq![s@[i - 1]]);
        assert(out@ =~= old(out)@ + le16(s@.len() as u16) + s@.subrange(0, i as int));
    }
    assert(s@.subrange(0, s@.len() as int) =~= s@);
    assert(out@ =~= old(out)@ + lp_str(s@));
}

// ------------------------------------------------------------------ records

/// One draw command. Coordinates, sizes and volumes are the bit patterns of
/// `f32` values; names, urls and text are the raw bytes of their strings.
#[derive(Clone, Debug)]
pub enum DrawCommand {
    Clear { r: u8, g: u8, b: u8 },
    SetColor { r: u8, g: u8, b: u8, a: u8 },
    FillRect { x: u32, y: u32, w: u32, h: u32 },
    DrawLine { x1: u32, y1: u32, x2: u32, y2: u32, width: u32 },
    DrawText { x: u32, y: u32, text: Vec<u8> },
    LoadSound { name: Vec<u8>, url: Vec<u8> },
    PlaySound { name: Vec<u8>, looped: bool, volume: u32 },
    StopSound { name: Vec<u8> },
    SetVolume { name: Vec<u8>, volume: u32 },
    LoadImage { name: Vec<u8>, url: Vec<u8> },
    DrawImage { name: Vec<u8>, place: ImagePlacement },
}

/// The eleven numeric fields of a `DrawImage` record, in wire order.
#[derive(Clone, Copy, Debug, PartialEq, Eq)]
pub struct ImagePlacement {
    pub x: u32,
    pub y: u32,
    pub w: u32,
    pub h: u32,
    pub sx: u32,
    pub sy: u32,
    pub sw: u32,
    pub sh: u32,
    pub rotation: u32,
    pub ox: u32,
    pub oy: u32,
}

/// The mathematical value of a `DrawCommand`: the same record with its byte
/// strings as sequences.
pub enum CommandModel {
    Clear { r: u8, g: u8, b: u8 },
    SetColor { r: u8, g: u8, b: u8, a: u8 },
    FillRect { x: u32, y: u32, w: u32, h: u32 },
    DrawLine { x1: u32, y1: u32, x2: u32, y2: u32, width: u32 },
    DrawText { x: u32, y: u32, text: Seq<u8> },
    LoadSound { name: Seq<u8>, url: Seq<u8> },
    PlaySound { name: Seq<u8>, looped: bool, volume: u32 },
    StopSound { name: Seq<u8> },
    SetVolume { name: Seq<u8>, volume: u32 },
    LoadImage { name: Seq<u8>, url: Seq<u8> },
    DrawImage { name: Seq<u8>, place: ImagePlacement },
}

impl View for DrawCommand {
    type V = CommandModel;

    open spec fn view(&self) -> CommandModel {
        match self {
            DrawCommand::Clear { r, g, b } => CommandModel::Clear { r: *r, g: *g, b: *b },
            DrawCommand::SetColor { r, g, b, a } => CommandModel::SetColor {
                r: *r,
                g: *g,
                b: *b,
                a: *a,
            },
            DrawCommand::FillRect { x, y, w, h } => CommandModel::FillRect {
                x: *x,
                y: *y,
                w: *w,
                h: *h,
            },
            DrawCommand::DrawLine { x1, y1, x2, y2, width } => CommandModel::DrawLine {
                x1: *x1,
                y1: *y1,
                x2: *x2,
                y2: *y2,
                width: *width,
            },
            DrawCommand::DrawText { x, y, text } => CommandModel::DrawText {
                x: *x,
                y: *y,
                text: text@,
            },
            DrawCommand::LoadSound { name, url } => CommandModel::LoadSound {
                name: name@,
                url: url@,
            },
            DrawCommand::PlaySound { name, looped, volume } => CommandModel::PlaySound {
                name: name@,
                looped: *looped,
                volume: *volume,
            },
            DrawCommand::StopSound { name } => CommandModel::StopSound { name: name@ },
            DrawCommand::SetVolume { name, volume } => CommandModel::SetVolume {
                name: name@,
                volume: *volume,
            },
            DrawCommand::LoadImage { name, url } => CommandModel::LoadImage {
                name: name@,
                url: url@,
            },
            DrawCommand::DrawImage { name, place } => CommandModel::DrawImage {
                name: name@,
                place: *place,
            },
        }
    }
}

/// The views of a sequence of commands.
pub open spec fn commands_view(cs: Seq<DrawCommand>) -> Seq<CommandModel> {
    cs.map_values(|c: DrawCommand| c@)
}

/// Every string field of the record fits its `u16` length prefix.
pub open spec fn command_fits(c: CommandModel) -> bool {
    match c {
        CommandModel::DrawText { text, .. } => text.len() <= MAX_STR_LEN,
        CommandModel::LoadSound { name, url } => name.len() <= MAX_STR_LEN && url.len()
            <= MAX_STR_LEN,
        CommandModel::PlaySound { name, .. } => name.len() <= MAX_STR_LEN,
        CommandModel::StopSound { name } => name.len() <= MAX_STR_LEN,
        CommandModel::SetVolume { name, .. } => name.len() <= MAX_STR_LEN,
        CommandModel::LoadImage { name, url } => name.len() <= MAX_STR_LEN && url.len()
            <= MAX_STR_LEN,
        CommandModel::DrawImage { name, .. } => name.len() <= MAX_STR_LEN,
        _ => true,
    }
}

pub open spec fn placement_bytes(p: ImagePlacement) -> Seq<u8> {
    le32(p.x) + le32(p.y) + le32(p.w) + le32(p.h) + le32(p.sx) + le32(p.sy) + le32(p.sw) + le32(
        p.sh,
    ) + le32(p.rotation) + le32(p.ox) + le32(p.oy)
}

/// The bytes of one record on the wire.
#[verifier::opaque]
pub open spec fn record_bytes(c: CommandModel) -> Seq<u8> {
    match c {
        CommandModel::Clear { r, g, b } => seq![OP_CLEAR, r, g, b],
        CommandModel::SetColor { r, g, b, a } => seq![OP_SET_COLOR, r, g, b, a],
        CommandModel::FillRect { x, y, w, h } => seq![OP_FILL_RECT] + le32(x) + le32(y) + le32(w)
            + le32(h),
        CommandModel::DrawLine { x1, y1, x2, y2, width } => seq![OP_DRAW_LINE] + le32(x1) + le32(
            y1,
        ) + le32(x2) + le32(y2) + le32(width),
        CommandModel::DrawText { x, y, text } => seq![OP_DRAW_TEXT] + le32(x) + le32(y) + lp_str(
            text,
        ),
        CommandModel::LoadSound { name, url } => seq![OP_LOAD_SOUND] + lp_str(name) + lp_str(url),
        CommandModel::PlaySound { name, looped, volume } => seq![OP_PLAY_SOUND] + lp_str(name)
            + seq![if looped { 1u8 } else { 0u8 }] + le32(volume),
        CommandModel::StopSound { name } => seq![OP_STOP_SOUND] + lp_str(name),
        CommandModel::SetVolume { name, volume } => seq![OP_SET_VOLUME] + lp_str(name) + le32(
            volume,
        ),
        CommandModel::LoadImage { name, url } => seq![OP_LOAD_IMAGE] + lp_str(name) + lp_str(url),
        CommandModel::DrawImage { name, place } => seq![OP_DRAW_IMAGE] + lp_str(name)
            + placement_bytes(place),
    }
}

/// The bytes of a sequence of records.
pub open spec fn stream_bytes(cs: Seq<CommandModel>) -> Seq<u8>
    decreases cs.len(),
{
    if cs.len() == 0 {
        Seq::empty()
    } else {
        record_bytes(cs[0]) + stream_bytes(cs.drop_first())
    }
}

pub open spec fn placement_at(b: Seq<u8>, i: int) -> ImagePlacement {
    ImagePlacement {
        x: u32_at(b, i),
        y: u32_at(b, i + 4),
        w: u32_at(b, i + 8),
        h: u32_at(b, i + 12),
        sx: u32_at(b, i + 16),
        sy: u32_at(b, i + 20),
        sw: u32_at(b, i + 24),
        sh: u32_at(b, i + 28),
        rotation: u32_at(b, i + 32),
        ox: u32_at(b, i + 36),
        oy: u32_at(b, i + 40),
    }
}

/// The record whose opcode is `b[i]`, with the offset just past it; `None` when
/// the opcode is unknown or the buffer ends inside the record.
pub open spec fn record_at(b: Seq<u8>, i: int) -> Option<(CommandModel, int)> {
    if i < 0 || i >= b.len() {
        None
    } else {
        let op = b[i];
        let p = i + 1;
        if op == OP_CLEAR {
            if p + 3 <= b.len() {
                Some((CommandModel::Clear { r: b[p], g: b[p + 1], b: b[p + 2] }, p + 3))
            } else {
                None
            }
        } else if op == OP_SET_COLOR {
            if p + 4 <= b.len() {
                Some(
                    (
                        CommandModel::SetColor { r: b[p], g: b[p + 1], b: b[p + 2], a: b[p + 3] },
                        p + 4,
                    ),
                )
            } else {
                None
            }
        } else if op == OP_FILL_RECT {
            if p + 16 <= b.len() {
                Some(
                    (
                        CommandModel::FillRect {
                            x: u32_at(b, p),
                            y: u32_at(b, p + 4),
                            w: u32_at(b, p + 8),
                            h: u32_at(b, p + 12),
                        },
                        p + 16,
                    ),
                )
            } else {
                None
            }
        } else if op == OP_DRAW_LINE {
            if p + 20 <= b.len() {
                Some(
                    (
                        CommandModel::DrawLine {
                            x1: u32_at(b, p),
                            y1: u32_at(b, p + 4),
                            x2: u32_at(b, p + 8),
                            y2: u32_at(b, p + 12),
                            width: u32_at(b, p + 16),
                        },
                        p + 20,
                    ),
                )
            } else {
                None
            }
        } else if op == OP_DRAW_TEXT {
            if p + 8 <= b.len() {
                match str_at(b, p + 8) {
                    Some((text, q)) => Some(
                        (CommandModel::DrawText { x: u32_at(b, p), y: u32_at(b, p + 4), text }, q),
                    ),
                    None => None,
                }
            } else {
                None
            }
        } else if op == OP_LOAD_SOUND || op == OP_LOAD_IMAGE {
            match str_at(b, p) {
                Some((name, q)) => match str_at(b, q) {
                    Some((url, q2)) => Some(
                        (
                            if op == OP_LOAD_SOUND {
                                CommandModel::LoadSound { name, url }
                            } else {
                                CommandModel::LoadImage { name, url }
                            },
                            q2,
                        ),
                    ),
                    None => None,
                },
                None => None,
            }
        } else if op == OP_PLAY_SOUND {
            match str_at(b, p) {
                Some((name, q)) => if q + 5 <= b.len() {
                    Some(
                        (
                            CommandModel::PlaySound {
                                name,
                                looped: b[q] != 0,
                                volume: u32_at(b, q + 1),
                            },
                            q + 5,
                        ),
                    )
                } else {
                    None
                },
                None => None,
            }
        } else if op == OP_STOP_SOUND {
            match str_at(b, p) {
                Some((name, q)) => Some((CommandModel::StopSound { name }, q)),
                None => None,
            }
        } else if op == OP_SET_VOLUME {
            match str_at(b, p) {
                Some((name, q)) => if q + 4 <= b.len() {
                    Some((CommandModel::SetVolume { name, volume: u32_at(b, q) }, q + 4))
                } else {
                    None
                },
                None => None,
            }
        } else if op == OP_DRAW_IMAGE {
            match str_at(b, p) {
                Some((name, q)) => if q + 44 <= b.len() {
                    Some((CommandModel::DrawImage { name, place: placement_at(b, q) }, q + 44))
                } else {
                    None
                },
                None => None,
            }
        } else {
            None
        }
    }
}

/// The records read from `b` starting at offset `i`, up to the end, the first
/// truncated record or the first unknown opcode.
pub open spec fn parse_from(b: Seq<u8>, i: int) -> Seq<CommandModel>
    decreases b.len() - i,
{
    if i < 0 || i >= b.len() {
        Seq::empty()
    } else {
        match record_at(b, i) {
            Some((c, next)) => if next > i {
                seq![c] + parse_from(b, next)
            } else {
                Seq::empty()
            },
            None => Seq::empty(),
        }
    }
}

/// The records of a whole buffer.
pub open spec fn parse(b: Seq<u8>) -> Seq<CommandModel> {
    parse_from(b, 0)
}

// ------------------------------------------------------------- round trip

proof fn lemma_u32_from(b: Seq<u8>, i: int, v: u32)
    requires
        0 <= i,
        i + 4 <= b.len(),
        b.subrange(i, i + 4) == le32(v),
    ensures
        u32_at(b, i) == v,
{
    lemma_u32_round_trip(v, b.subrange(0, i), b.subrange(i + 4, b.len() as int));
    assert(b =~= b.subrange(0, i) + le32(v) + b.subrange(i + 4, b.len() as int));
}

proof fn lemma_str_from(b: Seq<u8>, i: int, s: Seq<u8>)
    requires
        0 <= i,
        s.len() <= MAX_STR_LEN,
        i + 2 + s.len() <= b.len(),
        b.subrange(i, i + 2 + s.len()) == lp_str(s),
    ensures
        str_at(b, i) == Some((s, i + 2 + s.len())),
{
    let n = s.len() as u16;
    lemma_u16_round_trip(n, b.subrange(0, i), b.subrange(i + 2, b.len() as int));
    assert(b.subrange(i, i + 2) =~= b.subrange(i, i + 2 + s.len()).subrange(0, 2));
    assert(lp_str(s).subrange(0, 2) =~= le16(n));
    assert(b =~= b.subrange(0, i) + le16(n) + b.subrange(i + 2, b.len() as int));
    assert(b.subrange(i + 2, i + 2 + s.len()) =~= lp_str(s).subrange(2, 2 + s.len() as int));
    assert(lp_str(s).subrange(2, 2 + s.len() as int) =~= s);
}

proof fn lemma_placement_from(b: Seq<u8>, i: int, p: ImagePlacement)
    requires
        0 <= i,
        i + 44 <= b.len(),
        b.subrange(i, i + 44) == placement_bytes(p),
    ensures
        placement_at(b, i) == p,
{
    let w = placement_bytes(p);
    let c = b.subrange(i, i + 44);
    assert(b.subrange(i + 0, i + 4) =~= le32(p.x)) by {
        assert(w.subrange(0, 4) =~= le32(p.x));
        assert(b.subrange(i + 0, i + 4) =~= c.subrange(0, 4));
    }
    assert(b.subrange(i + 4, i + 8) =~= le32(p.y)) by {
        assert(w.subrange(4, 8) =~= le32(p.y));
        assert(b.subrange(i + 4, i + 8) =~= c.subrange(4, 8));
    }
    assert(b.subrange(i + 8, i + 12) =~= le32(p.w)) by {
        assert(w.subrange(8, 12) =~= le32(p.w));
        assert(b.subrange(i + 8, i + 12) =~= c.subrange(8, 12));
    }
    assert(b.subrange(i + 12, i + 16) =~= le32(p.h)) by {
        assert(w.subrange(12, 16) =~= le32(p.h));
        assert(b.subrange(i + 12, i + 16) =~= c.subrange(12, 16));
    }
    assert(b.subrange(i + 16, i + 20) =~= le32(p.sx)) by {
        assert(w.subrange(16, 20) =~= le32(p.sx));
        assert(b.subrange(i + 16, i + 20) =~= c.subrange(16, 20));
    }
    assert(b.subrange(i + 20, i + 24) =~= le32(p.sy)) by {
        assert(w.subrange(20, 24) =~= le32(p.sy));
        assert(b.subrange(i + 20, i + 24) =~= c.subrange(20, 24));
    }
    assert(b.subrange(i + 24, i + 28) =~= le32(p.sw)) by {
        assert(w.subrange(24, 28) =~= le32(p.sw));
        assert(b.subrange(i + 24, i + 28) =~= c.subrange(24, 28));
    }
    assert(b.subrange(i + 28, i + 32) =~= le32(p.sh)) by {
        assert(w.subrange(28, 32) =~= le32(p.sh));
        assert(b.subrange(i + 28, i + 32) =~= c.subrange(28, 32));
    }
    assert(b.subrange(i + 32, i + 36) =~= le32(p.rotation)) by {
        assert(w.subrange(32, 36) =~= le32(p.rotation));
        assert(b.subrange(i + 32, i + 36) =~= c.subrange(32, 36));
    }
    assert(b.subrange(i + 36, i + 40) =~= le32(p.ox)) by {
        assert(w.subrange(36, 40) =~= le32(p.ox));
        assert(b.subrange(i + 36, i + 40) =~= c.subrange(36, 40));
    }
    assert(b.subrange(i + 40, i + 44) =~= le32(p.oy)) by {
        assert(w.subrange(40, 44) =~= le32(p.oy));
        assert(b.subrange(i + 40, i + 44) =~= c.subrange(40, 44));
    }
    lemma_u32_from(b, i, p.x);
    lemma_u32_from(b, i + 4, p.y);
    lemma_u32_from(b, i + 8, p.w);
    lemma_u32_from(b, i + 12, p.h);
    lemma_u32_from(b, i + 16, p.sx);
    lemma_u32_from(b, i + 20, p.sy);
    lemma_u32_from(b, i + 24, p.sw);
    lemma_u32_from(b, i + 28, p.sh);
    lemma_u32_from(b, i + 32, p.rotation);
    lemma_u32_from(b, i + 36, p.ox);
    lemma_u32_from(b, i + 40, p.oy);
}

proof fn lemma_sub(b: Seq<u8>, i: int, r: Seq<u8>, s: int, t: int)
    requires
        0 <= i,
        i + r.len() <= b.len(),
        b.subrange(i, i + r.len()) == r,
        0 <= s <= t <= r.len(),
    ensures
        b.subrange(i + s, i + t) == r.subrange(s, t),
{
    assert(b.subrange(i + s, i + t) =~= r.subrange(s, t)) by {
        assert forall|k: int| 0 <= k < t - s implies b.subrange(i + s, i + t)[k] == r.subrange(
            s,
            t,
        )[k] by {
            assert(b[i + s + k] == b.subrange(i, i + r.len())[s + k]);
        }
    }
}

/// The record's bytes stand at `b[i..]`.
pub open spec fn record_placed(b: Seq<u8>, i: int, c: CommandModel) -> bool {
    &&& 0 <= i
    &&& i + record_bytes(c).len() <= b.len()
    &&& b.subrange(i, i + record_bytes(c).len()) == record_bytes(c)
}

proof fn lemma_byte_at(b: Seq<u8>, i: int, c: CommandModel, k: int)
    requires
        record_placed(b, i, c),
        0 <= k < record_bytes(c).len(),
    ensures
        b[i + k] == record_bytes(c)[k],
{
    assert(b[i + k] == b.subrange(i, i + record_bytes(c).len())[k]);
}

proof fn lemma_round_trip_fixed(b: Seq<u8>, i: int, c: CommandModel)
    requires
        record_placed(b, i, c),
        c is Clear || c is SetColor,
    ensures
        record_at(b, i) == Some((c, i + record_bytes(c).len())),
{
    reveal(record_bytes);
    let r = record_bytes(c);
    lemma_byte_at(b, i, c, 0);
    match c {
        CommandModel::Clear { .. } => {
            lemma_byte_at(b, i, c, 1);
            lemma_byte_at(b, i, c, 2);
            lemma_byte_at(b, i, c, 3);
        },
        CommandModel::SetColor { .. } => {
            lemma_byte_at(b, i, c, 1);
            lemma_byte_at(b, i, c, 2);
            lemma_byte_at(b, i, c, 3);
            lemma_byte_at(b, i, c, 4);
        },
        _ => {},
    }
}

proof fn lemma_round_trip_quads(b: Seq<u8>, i: int, c: CommandModel)
    requires
        record_placed(b, i, c),
        c is FillRect || c is DrawLine,
    ensures
        record_at(b, i) == Some((c, i + record_bytes(c).len())),
{
    reveal(record_bytes);
    let r = record_bytes(c);
    lemma_byte_at(b, i, c, 0);
    match c {
        CommandModel::FillRect { x, y, w, h } => {
            assert(r.subrange(1, 5) =~= le32(x));
            assert(r.subrange(5, 9) =~= le32(y));
            assert(r.subrange(9, 13) =~= le32(w));
            assert(r.subrange(13, 17) =~= le32(h));
            lemma_sub(b, i, r, 1, 5);
            lemma_sub(b, i, r, 5, 9);
            lemma_sub(b, i, r, 9, 13);
            lemma_sub(b, i, r, 13, 17);
            lemma_u32_from(b, i + 1, x);
            lemma_u32_from(b, i + 5, y);
            lemma_u32_from(b, i + 9, w);
            lemma_u32_from(b, i + 13, h);
        },
        CommandModel::DrawLine { x1, y1, x2, y2, width } => {
            assert(r.subrange(1, 5) =~= le32(x1));
            assert(r.subrange(5, 9) =~= le32(y1));
            assert(r.subrange(9, 13) =~= le32(x2));
            assert(r.subrange(13, 17) =~= le32(y2));
            assert(r.subrange(17, 21) =~= le32(width));
            lemma_sub(b, i, r, 1, 5);
            lemma_sub(b, i, r, 5, 9);
            lemma_sub(b, i, r, 9, 13);
            lemma_sub(b, i, r, 13, 17);
            lemma_sub(b, i, r, 17, 21);
            lemma_u32_from(b, i + 1, x1);
            lemma_u32_from(b, i + 5, y1);
            lemma_u32_from(b, i + 9, x2);
            lemma_u32_from(b, i + 13, y2);
            lemma_u32_from(b, i + 17, width);
        },
        _ => {},
    }
}

proof fn lemma_round_trip_text(b: Seq<u8>, i: int, c: CommandModel)
    requires
        record_placed(b, i, c),
        command_fits(c),
        c is DrawText,
    ensures
        record_at(b, i) == Some((c, i + record_bytes(c).len())),
{
    reveal(record_bytes);
    let r = record_bytes(c);
    lemma_byte_at(b, i, c, 0);
    if let CommandModel::DrawText { x, y, text } = c {
        assert(r.subrange(1, 5) =~= le32(x));
        assert(r.subrange(5, 9) =~= le32(y));
        assert(r.subrange(9, r.len() as int) =~= lp_str(text));
        lemma_sub(b, i, r, 1, 5);
        lemma_sub(b, i, r, 5, 9);
        lemma_sub(b, i, r, 9, r.len() as int);
        lemma_u32_from(b, i + 1, x);
        lemma_u32_from(b, i + 5, y);
        lemma_str_from(b, i + 9, text);
    }
}

proof fn lemma_round_trip_two_strings(b: Seq<u8>, i: int, c: CommandModel)
    requires
        record_placed(b, i, c),
        command_fits(c),
        c is LoadSound || c is LoadImage,
    ensures
        record_at(b, i) == Some((c, i + record_bytes(c).len())),
{
    reveal(record_bytes);
    let r = record_bytes(c);
    lemma_byte_at(b, i, c, 0);
    match c {
        CommandModel::LoadSound { name, url } => {
            let q = 3 + name.len() as int;
            assert(r.subrange(1, q) =~= lp_str(name));
            assert(r.subrange(q, r.len() as int) =~= lp_str(url));
            lemma_sub(b, i, r, 1, q);
            lemma_sub(b, i, r, q, r.len() as int);
            lemma_str_from(b, i + 1, name);
            lemma_str_from(b, i + q, url);
        },
        CommandModel::LoadImage { name, url } => {
            let q = 3 + name.len() as int;
            assert(r.subrange(1, q) =~= lp_str(name));
            assert(r.subrange(q, r.len() as int) =~= lp_str(url));
            lemma_sub(b, i, r, 1, q);
            lemma_sub(b, i, r, q, r.len() as int);
            lemma_str_from(b, i + 1, name);
            lemma_str_from(b, i + q, url);
        },
        _ => {},
    }
}

proof fn lemma_round_trip_named(b: Seq<u8>, i: int, c: CommandModel)
    requires
        record_placed(b, i, c),
        command_fits(c),
        c is PlaySound || c is StopSound || c is SetVolume,
    ensures
        record_at(b, i) == Some((c, i + record_bytes(c).len())),
{
    reveal(record_bytes);
    let r = record_bytes(c);
    lemma_byte_at(b, i, c, 0);
    match c {
        CommandModel::PlaySound { name, looped, volume } => {
            let q = 3 + name.len() as int;
            assert(r.subrange(1, q) =~= lp_str(name));
            assert(r.subrange(q + 1, q + 5) =~= le32(volume));
            lemma_byte_at(b, i, c, q);
            lemma_sub(b, i, r, 1, q);
            lemma_sub(b, i, r, q + 1, q + 5);
            lemma_str_from(b, i + 1, name);
            lemma_u32_from(b, i + q + 1, volume);
        },
        CommandModel::StopSound { name } => {
            assert(r.subrange(1, r.len() as int) =~= lp_str(name));
            lemma_sub(b, i, r, 1, r.len() as int);
            lemma_str_from(b, i + 1, name);
        },
        CommandModel::SetVolume { name, volume } => {
            let q = 3 + name.len() as int;
            assert(r.subrange(1, q) =~= lp_str(name));
            assert(r.subrange(q, q + 4) =~= le32(volume));
            lemma_sub(b, i, r, 1, q);
            lemma_sub(b, i, r, q, q + 4);
            lemma_str_from(b, i + 1, name);
            lemma_u32_from(b, i + q, volume);
        },
        _ => {},
    }
}

proof fn lemma_round_trip_image(b: Seq<u8>, i: int, c: CommandModel)
    requires
        record_placed(b, i, c),
        command_fits(c),
        c is DrawImage,
    ensures
        record_at(b, i) == Some((c, i + record_bytes(c).len())),
{
    reveal(record_bytes);
    let r = record_bytes(c);
    lemma_byte_at(b, i, c, 0);
    if let CommandModel::DrawImage { name, place } = c {
        let q = 3 + name.len() as int;
        assert(r.subrange(1, q) =~= lp_str(name));
        assert(r.subrange(q, q + 44) =~= placement_bytes(place));
        lemma_sub(b, i, r, 1, q);
        lemma_sub(b, i, r, q, q + 44);
        lemma_str_from(b, i + 1, name);
        lemma_placement_from(b, i + q, place);
    }
}

/// A record placed anywhere in a buffer reads back as itself.
proof fn lemma_record_round_trip(pre: Seq<u8>, c: CommandModel, post: Seq<u8>)
    requires
        command_fits(c),
    ensures
        record_at(pre + record_bytes(c) + post, pre.len() as int) == Some(
            (c, pre.len() + record_bytes(c).len() as int),
        ),
{
    reveal(record_bytes);
    let r = record_bytes(c);
    let b = pre + r + post;
    let i = pre.len() as int;
    assert(b.subrange(i, i + r.len()) =~= r);
    if c is Clear || c is SetColor {
        lemma_round_trip_fixed(b, i, c);
    } else if c is FillRect || c is DrawLine {
        lemma_round_trip_quads(b, i, c);
    } else if c is DrawText {
        lemma_round_trip_text(b, i, c);
    } else if c is LoadSound || c is LoadImage {
        lemma_round_trip_two_strings(b, i, c);
    } else if c is DrawImage {
        lemma_round_trip_image(b, i, c);
    } else {
        lemma_round_trip_named(b, i, c);
    }
}

proof fn lemma_stream_round_trip(pre: Seq<u8>, cs: Seq<CommandModel>)
    requires
        forall|k: int| 0 <= k < cs.len() ==> command_fits(#[trigger] cs[k]),
    ensures
        parse_from(pre + stream_bytes(cs), pre.len() as int) == cs,
    decreases cs.len(),
{
    let b = pre + stream_bytes(cs);
    if cs.len() == 0 {
        assert(b.len() == pre.len());
    } else {
        let c = cs[0];
        let rest = cs.drop_first();
        assert(command_fits(cs[0]));
        assert(b =~= pre + record_bytes(c) + stream_bytes(rest));
        lemma_record_round_trip(pre, c, stream_bytes(rest));
        assert(record_bytes(c).len() > 0);
        let pre2 = pre + record_bytes(c);
        assert forall|k: int| 0 <= k < rest.len() implies command_fits(#[trigger] rest[k]) by {
            assert(rest[k] == cs[k + 1]);
        }
        lemma_stream_round_trip(pre2, rest);
        assert(pre2 + stream_bytes(rest) =~= b);
        assert(seq![c] + rest =~= cs);
    }
}

/// Encoding a sequence of records and reading the bytes back yields the same
/// records, in the same order.
pub proof fn lemma_encode_decode(cs: Seq<CommandModel>)
    requires
        forall|k: int| 0 <= k < cs.len() ==> command_fits(#[trigger] cs[k]),
    ensures
        parse(stream_bytes(cs)) == cs,
{
    lemma_stream_round_trip(Seq::empty(), cs);
    assert(Seq::<u8>::empty() + stream_bytes(cs) =~= stream_bytes(cs));
}

// ------------------------------------------------------------------ writing

fn push_placement(out: &mut Vec<u8>, p: &ImagePlacement)
    ensures
        final(out)@ == old(out)@ + placement_bytes(*p),
{
    let ghost start = out@;
    push_u32(out, p.x);
    push_u32(out, p.y);
    push_u32(out, p.w);
    push_u32(out, p.h);
    assert(out@ =~= start + (le32(p.x) + le32(p.y) + le32(p.w) + le32(p.h)));
    let ghost mid = out@;
    push_u32(out, p.sx);
    push_u32(out, p.sy);
    push_u32(out, p.sw);
    push_u32(out, p.sh);
    assert(out@ =~= mid + (le32(p.sx) + le32(p.sy) + le32(p.sw) + le32(p.sh)));
    let ghost mid2 = out@;
    push_u32(out, p.rotation);
    push_u32(out, p.ox);
    push_u32(out, p.oy);
    assert(out@ =~= mid2 + (le32(p.rotation) + le32(p.ox) + le32(p.oy)));
    assert(out@ =~= old(out)@ + placement_bytes(*p));
}

/// Appends the wire bytes of one record to `out`.
pub fn encode_command(out: &mut Vec<u8>, c: &DrawCommand)
    requires
        command_fits(c@),
    ensures
        final(out)@ == old(out)@ + record_bytes(c@),
{
    reveal(record_bytes);
    match c {
        DrawCommand::Clear { r, g, b } => {
            out.push(OP_CLEAR);
            out.push(*r);
            out.push(*g);
            out.push(*b);
        },
        DrawCommand::SetColor { r, g, b, a } => {
            out.push(OP_SET_COLOR);
            out.push(*r);
            out.push(*g);
            out.push(*b);
            out.push(*a);
        },
        DrawCommand::FillRect { x, y, w, h } => {
            out.push(OP_FILL_RECT);
            push_u32(out, *x);
            push_u32(out, *y);
            push_u32(out, *w);
            push_u32(out, *h);
        },
        DrawCommand::DrawLine { x1, y1, x2, y2, width } => {
            out.push(OP_DRAW_LINE);
            push_u32(out, *x1);
            push_u32(out, *y1);
            push_u32(out, *x2);
            push_u32(out, *y2);
            push_u32(out, *width);
        },
        DrawCommand::DrawText { x, y, text } => {
            out.push(OP_DRAW_TEXT);
            push_u32(out, *x);
            push_u32(out, *y);
            push_str(out, text);
        },
        DrawCommand::LoadSound { name, url } => {
            out.push(OP_LOAD_SOUND);
            push_str(out, name);
            push_str(out, url);
        },
        DrawCommand::PlaySound { name, looped, volume } => {
            out.push(OP_PLAY_SOUND);
            push_str(out, name);
            out.push(if *looped { 1u8 } else { 0u8 });
            push_u32(out, *volume);
        },
        DrawCommand::StopSound { name } => {
            out.push(OP_STOP_SOUND);
            push_str(out, name);
        },
        DrawCommand::SetVolume { name, volume } => {
            out.push(OP_SET_VOLUME);
            push_str(out, name);
            push_u32(out, *volume);
        },
        DrawCommand::LoadImage { name, url } => {
            out.push(OP_LOAD_IMAGE);
            push_str(out, name);
            push_str(out, url);
        },
        DrawCommand::DrawImage { name, place } => {
            out.push(OP_DRAW_IMAGE);
            push_str(out, name);
            push_placement(out, place);
        },
    }
    assert(out@ =~= old(out)@ + record_bytes(c@));
}

proof fn lemma_stream_push(cs: Seq<CommandModel>, c: CommandModel)
    ensures
        stream_bytes(cs.push(c)) == stream_bytes(cs) + record_bytes(c),
    decreases cs.len(),
{
    if cs.len() == 0 {
        assert(cs.push(c).drop_first() =~= Seq::<CommandModel>::empty());
        assert(stream_bytes(cs.push(c).drop_first()) == Seq::<u8>::empty());
        assert(stream_bytes(cs) == Seq::<u8>::empty());
        assert(stream_bytes(cs.push(c)) =~= record_bytes(c));
    } else {
        let d = cs.push(c);
        lemma_stream_push(cs.drop_first(), c);
        assert(d.drop_first() =~= cs.drop_first().push(c));
        assert(d[0] == cs[0]);
        let head = record_bytes(cs[0]);
        assert(stream_bytes(d) == head + stream_bytes(d.drop_first()));
        assert(stream_bytes(cs) == head + stream_bytes(cs.drop_first()));
        assert(head + (stream_bytes(cs.drop_first()) + record_bytes(c)) =~= (head + stream_bytes(
            cs.drop_first(),
        )) + record_bytes(c));
    }
}

/// The wire bytes of a sequence of records.
pub fn encode_commands(cmds: &Vec<DrawCommand>) -> (r: Vec<u8>)
    requires
        forall|k: int| 0 <= k < cmds@.len() ==> command_fits(#[trigger] cmds@[k]@),
    ensures
        r@ == stream_bytes(commands_view(cmds@)),
{
    let mut out: Vec<u8> = Vec::new();
    let mut i: usize = 0;
    while i < cmds.len()
        invariant
            i <= cmds@.len(),
            forall|k: int| 0 <= k < cmds@.len() ==> command_fits(#[trigger] cmds@[k]@),
            out@ == stream_bytes(commands_view(cmds@.subrange(0, i as int))),
        decreases cmds@.len() - i,
    {
        encode_command(&mut out, &cmds[i]);
        proof {
            let before = commands_view(cmds@.subrange(0, i as int));
            lemma_stream_push(before, cmds@[i as int]@);
            assert(commands_view(cmds@.subrange(0, i + 1)) =~= before.push(cmds@[i as int]@));
        }
        i += 1;
    }
    assert(cmds@.subrange(0, cmds@.len() as int) =~= cmds@);
    out
}

// ------------------------------------------------------------------ reading

fn read_bytes(data: &[u8], start: usize, end: usize) -> (r: Vec<u8>)
    requires
        start <= end <= data@.len(),
    ensures
        r@ == data@.subrange(start as int, end as int),
{
    let mut out: Vec<u8> = Vec::new();
    let mut i: usize = start;
    while i < end
        invariant
            start <= i <= end <= data@.len(),
            out@ == data@.subrange(start as int, i as int),
        decreases end - i,
    {
        out.push(data[i]);
        i += 1;
        assert(out@ =~= data@.subrange(start as int, i as int));
    }
    out
}

fn read_str(data: &[u8], off: usize) -> (r: Option<(Vec<u8>, usize)>)
    ensures
        match str_at(data@, off as int) {
            Some((s, next)) => r matches Some(v) && v.0@ == s && v.1 == next,
            None => r is None,
        },
{
    if off > data.len() || data.len() - off < 2 {
        return None;
    }
    let n = read_u16_le(data, off) as usize;
    if data.len() - (off + 2) < n {
        return None;
    }
    let s = read_bytes(data, off + 2, off + 2 + n);
    Some((s, off + 2 + n))
}

fn read_placement(data: &[u8], off: usize) -> (r: ImagePlacement)
    requires
        off + 44 <= data@.len(),
    ensures
        r == placement_at(data@, off as int),
{
    let len = data.len();
    ImagePlacement {
        x: read_u32_le(data, off),
        y: read_u32_le(data, off + 4),
        w: read_u32_le(data, off + 8),
        h: read_u32_le(data, off + 12),
        sx: read_u32_le(data, off + 16),
        sy: read_u32_le(data, off + 20),
        sw: read_u32_le(data, off + 24),
        sh: read_u32_le(data, off + 28),
        rotation: read_u32_le(data, off + 32),
        ox: read_u32_le(data, off + 36),
        oy: read_u32_le(data, off + 40),
    }
}

/// Reads the record whose opcode is `data[off]`, with the offset just past it.
pub fn read_record(data: &[u8], off: usize) -> (r: Option<(DrawCommand, usize)>)
    ensures
        match record_at(data@, off as int) {
            Some((c, next)) => r matches Some(v) && v.0@ == c && v.1 == next,
            None => r is None,
        },
{
    let len = data.len();
    if off >= len {
        return None;
    }
    let op = data[off];
    let p = off + 1;
    let rest = len - p;
    if op == OP_CLEAR {
        if rest < 3 {
            return None;
        }
        Some((DrawCommand::Clear { r: data[p], g: data[p + 1], b: data[p + 2] }, p + 3))
    } else if op == OP_SET_COLOR {
        if rest < 4 {
            return None;
        }
        Some(
            (
                DrawCommand::SetColor { r: data[p], g: data[p + 1], b: data[p + 2], a: data[p + 3] },
                p + 4,
            ),
        )
    } else if op == OP_FILL_RECT {
        if rest < 16 {
            return None;
        }
        let x = read_u32_le(data, p);
        let y = read_u32_le(data, p + 4);
        let w = read_u32_le(data, p + 8);
        let h = read_u32_le(data, p + 12);
        Some((DrawCommand::FillRect { x, y, w, h }, p + 16))
    } else if op == OP_DRAW_LINE {
        if rest < 20 {
            return None;
        }
        let x1 = read_u32_le(data, p);
        let y1 = read_u32_le(data, p + 4);
        let x2 = read_u32_le(data, p + 8);
        let y2 = read_u32_le(data, p + 12);
        let width = read_u32_le(data, p + 16);
        Some((DrawCommand::DrawLine { x1, y1, x2, y2, width }, p + 20))
    } else if op == OP_DRAW_TEXT {
        if rest < 8 {
            return None;
        }
        let x = read_u32_le(data, p);
        let y = read_u32_le(data, p + 4);
        match read_str(data, p + 8) {
            Some((text, q)) => Some((DrawCommand::DrawText { x, y, text }, q)),
            None => None,
        }
    } else if op == OP_LOAD_SOUND || op == OP_LOAD_IMAGE {
        match read_str(data, p) {
            Some((name, q)) => match read_str(data, q) {
                Some((url, q2)) => {
                    if op == OP_LOAD_SOUND {
                        Some((DrawCommand::LoadSound { name, url }, q2))
                    } else {
                        Some((DrawCommand::LoadImage { name, url }, q2))
                    }
                },
                None => None,
            },
            None => None,
        }
    } else if op == OP_PLAY_SOUND {
        match read_str(data, p) {
            Some((name, q)) => {
                if len - q < 5 {
                    return None;
                }
                let looped = data[q] != 0;
                let volume = read_u32_le(data, q + 1);
                Some((DrawCommand::PlaySound { name, looped, volume }, q + 5))
            },
            None => None,
        }
    } else if op == OP_STOP_SOUND {
        match read_str(data, p) {
            Some((name, q)) => Some((DrawCommand::StopSound { name }, q)),
            None => None,
        }
    } else if op == OP_SET_VOLUME {
        match read_str(data, p) {
            Some((name, q)) => {
                if len - q < 4 {
                    return None;
                }
                let volume = read_u32_le(data, q);
                Some((DrawCommand::SetVolume { name, volume }, q + 4))
            },
            None => None,
        }
    } else if op == OP_DRAW_IMAGE {
        match read_str(data, p) {
            Some((name, q)) => {
                if len - q < 44 {
                    return None;
                }
                let place = read_placement(data, q);
                Some((DrawCommand::DrawImage { name, place }, q + 44))
            },
            None => None,
        }
    } else {
        None
    }
}

/// Reads every record of a frame, stopping cleanly at the end of the buffer,
/// at a truncated record or at an unknown opcode.
pub fn decode_commands(data: &[u8]) -> (r: Vec<DrawCommand>)
    ensures
        commands_view(r@) == parse(data@),
{
    let mut out: Vec<DrawCommand> = Vec::new();
    let mut off: usize = 0;
    while off < data.len()
        invariant
            off <= data@.len(),
            commands_view(out@) + parse_from(data@, off as int) == parse(data@),
        decreases data@.len() - off,
    {
        match read_record(data, off) {
            Some((c, next)) => {
                proof {
                    let rest = parse_from(data@, next as int);
                    assert(parse_from(data@, off as int) == seq![c@] + rest);
                    assert(commands_view(out@.push(c)) =~= commands_view(out@).push(c@));
                    assert(commands_view(out@).push(c@) + rest =~= commands_view(out@) + (seq![
                        c@,
                    ] + rest));
                }
                out.push(c);
                off = next;
            },
            None => {
                assert(parse_from(data@, off as int) =~= Seq::<CommandModel>::empty());
                assert(commands_view(out@) + Seq::<CommandModel>::empty() =~= commands_view(out@));
                return out;
            },
        }
    }
    assert(parse_from(data@, off as int) =~= Seq::<CommandModel>::empty());
    assert(commands_view(out@) + Seq::<CommandModel>::empty() =~= commands_view(out@));
    out
}

} // verus!
