//! Frame delivery: compression, the choice between the unreliable datagram
//! channel and the reliable fallback, and decoding on the receiving side.
use crate::codec::{commands_view, decode_commands, parse, DrawCommand};
use vstd::prelude::*;

verus! {

/// What zstd's encoder at level 0 (its default level) makes of `payload`: one
/// Zstandard frame, or `None` where it reports an error. The encoder is
/// deterministic, so this depends on the payload alone.
pub uninterp spec fn zstd_compressed(payload: Seq<u8>) -> Option<Seq<u8>>;

/// What zstd's decoder reads from `data`: `None` where `data` is not made of
/// valid Zstandard frames.
pub uninterp spec fn zstd_decoded(data: Seq<u8>) -> Option<Seq<u8>>;

/// Relies on `zstd::stream::encode_all` at level 0: the whole payload as one
/// frame, or an error. Zstandard is lossless: zstd's decoder gives the
/// payload back from that frame.
#[verifier::external_body]
fn zstd_compress(payload: &[u8]) -> (r: Option<Vec<u8>>)
    ensures
        match r {
            Some(v) => zstd_compressed(payload@) == Some(v@),
            None => zstd_compressed(payload@) is None,
        },
        r matches Some(v) ==> zstd_decoded(v@) == Some(payload@),
{
    zstd::stream::encode_all(payload, 0).ok()
}

/// Relies on `zstd::stream::decode_all`: the content of the frames in
/// `data`, or an error where they are not valid Zstandard frames.
#[verifier::external_body]
fn zstd_decompress(data: &[u8]) -> (r: Option<Vec<u8>>)
    ensures
        match r {
            Some(v) => zstd_decoded(data@) == Some(v@),
            None => zstd_decoded(data@) is None,
        },
{
    zstd::stream::decode_all(data).ok()
}

/// The state of a session's unreliable channel, as the delivery task sees it.
#[derive(Clone, Copy, Debug, PartialEq, Eq)]
pub enum ChannelState {
    /// No channel has been negotiated.
    Absent,
    Connecting,
    Open,
    Closing,
    Closed,
}

/// Where a frame goes.
#[derive(Debug)]
pub enum Delivery {
    /// Send the compressed frame over the unreliable channel.
    Unreliable(Vec<u8>),
    /// Queue the compressed frame on the reliable fallback.
    Reliable(Vec<u8>),
    /// Compression failed; the frame is dropped.
    Drop,
}

/// The route of a frame, given the result of compressing it: dropped when
/// compression failed, over the unreliable channel when that channel is open,
/// else over the reliable fallback.
pub open spec fn routed(compressed: Option<Seq<u8>>, channel: ChannelState) -> (Option<Seq<u8>>, bool) {
    match compressed {
        Some(v) => (Some(v), channel is Open),
        None => (None, false),
    }
}

pub open spec fn delivery_view(d: Delivery) -> (Option<Seq<u8>>, bool) {
    match d {
        Delivery::Unreliable(v) => (Some(v@), true),
        Delivery::Reliable(v) => (Some(v@), false),
        Delivery::Drop => (None, false),
    }
}

/// Routes a frame whose compression gave `compressed`.
pub fn route_frame(compressed: Option<Vec<u8>>, channel: ChannelState) -> (r: Delivery)
    ensures
        delivery_view(r) == routed(
            match compressed {
                Some(v) => Some(v@),
                None => None,
            },
            channel,
        ),
{
    match compressed {
        Some(v) => if matches!(channel, ChannelState::Open) {
            Delivery::Unreliable(v)
        } else {
            Delivery::Reliable(v)
        },
        None => Delivery::Drop,
    }
}

/// Compresses a frame payload and routes it: the Zstandard frame of the
/// payload goes over the unreliable channel when that is open, else over the
/// reliable fallback; only a compression failure drops it. Decompressing the
/// frame gives the payload back.
pub fn plan_delivery(payload: &[u8], channel: ChannelState) -> (r: Delivery)
    ensures
        delivery_view(r) == routed(zstd_compressed(payload@), channel),
        delivery_view(r).0 matches Some(v) ==> zstd_decoded(v) == Some(payload@),
{
    route_frame(zstd_compress(payload), channel)
}

/// After an attempt on the unreliable channel: nothing more to do when it was
/// sent, else the same bytes go to the reliable fallback.
pub fn after_unreliable_attempt(frame: Vec<u8>, sent: bool) -> (r: Option<Vec<u8>>)
    ensures
        sent ==> r is None,
        !sent ==> (r matches Some(v) && v@ == frame@),
{
    if sent {
        None
    } else {
        Some(frame)
    }
}

/// Decodes a delivered frame: decompresses it and reads its draw commands.
/// `None` when the data is not a valid Zstandard frame.
pub fn decode_frame(data: &[u8]) -> (r: Option<Vec<DrawCommand>>)
    ensures
        match zstd_decoded(data@) {
            Some(b) => r matches Some(cs) && commands_view(cs@) == parse(b),
            None => r is None,
        },
{
    match zstd_decompress(data) {
        Some(bytes) => Some(decode_commands(bytes.as_slice())),
        None => None,
    }
}

} // verus!
