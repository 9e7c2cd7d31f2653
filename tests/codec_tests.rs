use cleoselene::codec::{decode_commands, encode_commands, read_record, DrawCommand, ImagePlacement};

fn f(v: f32) -> u32 {
    v.to_bits()
}

#[test]
fn clear_then_fill_rect_round_trips() {
    let cmds = vec![
        DrawCommand::Clear { r: 10, g: 20, b: 30 },
        DrawCommand::FillRect { x: f(1.5), y: f(2.0), w: f(30.0), h: f(40.25) },
    ];
    let bytes = encode_commands(&cmds);
    let mut expected = vec![0x01, 10, 20, 30, 0x03];
    for v in [1.5f32, 2.0, 30.0, 40.25] {
        expected.extend_from_slice(&v.to_le_bytes());
    }
    assert_eq!(bytes, expected);
    let back = decode_commands(&bytes);
    assert_eq!(back.len(), 2);
    assert!(matches!(back[0], DrawCommand::Clear { r: 10, g: 20, b: 30 }));
    match &back[1] {
        DrawCommand::FillRect { x, y, w, h } => {
            assert_eq!(f32::from_bits(*x), 1.5);
            assert_eq!(f32::from_bits(*y), 2.0);
            assert_eq!(f32::from_bits(*w), 30.0);
            assert_eq!(f32::from_bits(*h), 40.25);
        }
        other => panic!("unexpected record {:?}", other),
    }
    assert_eq!(encode_commands(&back), bytes);
}

#[test]
fn every_record_kind_round_trips() {
    let place = ImagePlacement {
        x: f(1.0),
        y: f(2.0),
        w: f(3.0),
        h: f(4.0),
        sx: f(5.0),
        sy: f(6.0),
        sw: f(7.0),
        sh: f(8.0),
        rotation: f(9.0),
        ox: f(10.0),
        oy: f(11.0),
    };
    let cmds = vec![
        DrawCommand::Clear { r: 1, g: 2, b: 3 },
        DrawCommand::SetColor { r: 4, g: 5, b: 6, a: 7 },
        DrawCommand::FillRect { x: f(1.0), y: f(2.0), w: f(3.0), h: f(4.0) },
        DrawCommand::DrawLine { x1: f(1.0), y1: f(2.0), x2: f(3.0), y2: f(4.0), width: f(2.5) },
        DrawCommand::DrawText { x: f(9.0), y: f(8.0), text: b"hello".to_vec() },
        DrawCommand::LoadSound { name: b"click".to_vec(), url: b"a.ogg".to_vec() },
        DrawCommand::PlaySound { name: b"click".to_vec(), looped: true, volume: f(0.5) },
        DrawCommand::StopSound { name: b"click".to_vec() },
        DrawCommand::SetVolume { name: b"click".to_vec(), volume: f(0.25) },
        DrawCommand::LoadImage { name: b"hero".to_vec(), url: b"hero.png".to_vec() },
        DrawCommand::DrawImage { name: b"hero".to_vec(), place },
    ];
    let bytes = encode_commands(&cmds);
    let back = decode_commands(&bytes);
    assert_eq!(back.len(), cmds.len());
    assert_eq!(format!("{:?}", back), format!("{:?}", cmds));
    assert_eq!(encode_commands(&back), bytes);
}

#[test]
fn load_sound_preamble_bytes() {
    let mut bytes = vec![0x06, 0x05, 0x00];
    bytes.extend_from_slice(b"click");
    bytes.extend_from_slice(&[0x05, 0x00]);
    bytes.extend_from_slice(b"a.ogg");
    let cmds = decode_commands(&bytes);
    assert_eq!(cmds.len(), 1);
    match &cmds[0] {
        DrawCommand::LoadSound { name, url } => {
            assert_eq!(name.as_slice(), b"click");
            assert_eq!(url.as_slice(), b"a.ogg");
        }
        other => panic!("unexpected record {:?}", other),
    }
}

#[test]
fn truncated_record_stops_cleanly() {
    let bytes = vec![0x01, 1, 2, 3, 0x03, 0, 0, 0];
    let cmds = decode_commands(&bytes);
    assert_eq!(cmds.len(), 1);
    assert!(read_record(&bytes, 4).is_none());
    let text = vec![0x05, 0, 0, 0, 0, 0, 0, 0, 0, 9, 0, b'a'];
    assert_eq!(decode_commands(&text).len(), 0);
}

#[test]
fn unknown_opcode_keeps_earlier_records() {
    let bytes = vec![0x02, 1, 2, 3, 4, 0x00, 0x01, 9, 9, 9];
    let cmds = decode_commands(&bytes);
    assert_eq!(cmds.len(), 1);
    assert!(matches!(cmds[0], DrawCommand::SetColor { r: 1, g: 2, b: 3, a: 4 }));
    assert_eq!(decode_commands(&[0x0c, 1, 2]).len(), 0);
}

#[test]
fn empty_stream_has_no_records() {
    assert_eq!(decode_commands(&[]).len(), 0);
    assert_eq!(encode_commands(&Vec::new()), Vec::<u8>::new());
}

#[test]
fn read_record_reports_next_offset() {
    let bytes = vec![0x08, 0x02, 0x00, b'h', b'i', 0x01, 0, 0, 0];
    let (cmd, next) = read_record(&bytes, 0).unwrap();
    assert_eq!(next, 5);
    assert!(matches!(cmd, DrawCommand::StopSound { .. }));
    let (cmd2, next2) = read_record(&bytes, 5).unwrap();
    assert_eq!(next2, 9);
    assert!(matches!(cmd2, DrawCommand::Clear { r: 0, g: 0, b: 0 }));
}
