use cleoselene::codec::{encode_commands, DrawCommand};
use cleoselene::delivery::{
    after_unreliable_attempt, decode_frame, plan_delivery, route_frame, ChannelState, Delivery,
};

fn s1_preamble() -> Vec<u8> {
    let mut bytes = vec![0x06, 0x05, 0x00];
    bytes.extend_from_slice(b"click");
    bytes.extend_from_slice(&[0x05, 0x00]);
    bytes.extend_from_slice(b"a.ogg");
    bytes
}

#[test]
fn compressed_frame_decompresses_to_itself() {
    let payload = s1_preamble();
    assert_eq!(payload.len(), 15);
    let frame = match plan_delivery(&payload, ChannelState::Absent) {
        Delivery::Reliable(v) => v,
        other => panic!("unexpected route {:?}", other),
    };
    assert_ne!(frame, payload);
    assert_eq!(zstd::stream::decode_all(frame.as_slice()).unwrap(), payload);
    let cmds = decode_frame(&frame).unwrap();
    assert_eq!(cmds.len(), 1);
    assert!(matches!(cmds[0], DrawCommand::LoadSound { .. }));
}

#[test]
fn larger_frame_round_trips_through_zstd() {
    let mut cmds = Vec::new();
    for i in 0..200u32 {
        cmds.push(DrawCommand::FillRect { x: i, y: i * 2, w: 7, h: 9 });
        cmds.push(DrawCommand::SetColor { r: i as u8, g: 1, b: 2, a: 255 });
    }
    let payload = encode_commands(&cmds);
    let frame = match plan_delivery(&payload, ChannelState::Open) {
        Delivery::Unreliable(v) => v,
        other => panic!("unexpected route {:?}", other),
    };
    assert!(frame.len() < payload.len());
    assert_eq!(zstd::stream::decode_all(frame.as_slice()).unwrap(), payload);
    assert_eq!(decode_frame(&frame).unwrap().len(), 400);
}

#[test]
fn empty_frame_round_trips() {
    let frame = match plan_delivery(&[], ChannelState::Connecting) {
        Delivery::Reliable(v) => v,
        other => panic!("unexpected route {:?}", other),
    };
    assert_eq!(decode_frame(&frame).unwrap().len(), 0);
}

#[test]
fn garbage_is_not_a_frame() {
    assert!(decode_frame(&[1, 2, 3, 4, 5, 6, 7, 8]).is_none());
}

#[test]
fn routes_follow_channel_state() {
    assert!(matches!(route_frame(Some(vec![1]), ChannelState::Open), Delivery::Unreliable(_)));
    assert!(matches!(route_frame(Some(vec![1]), ChannelState::Closed), Delivery::Reliable(_)));
    assert!(matches!(route_frame(Some(vec![1]), ChannelState::Absent), Delivery::Reliable(_)));
    assert!(matches!(route_frame(None, ChannelState::Open), Delivery::Drop));
}

#[test]
fn failed_unreliable_send_falls_back() {
    assert_eq!(after_unreliable_attempt(vec![1, 2], false), Some(vec![1, 2]));
    assert_eq!(after_unreliable_attempt(vec![1, 2], true), None);
}
