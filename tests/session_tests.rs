use cleoselene::raster::{raster_plan, PaintOp, Rgb};
use cleoselene::sdk::get_sdk_docs;
use cleoselene::session::{
    choose_session_id, decode_input, session_id_well_formed, dispatch_keep, encode_input, handshake, inputs_keep,
    pacing_delay_micros, HandshakeStep, InputEvent, InputStatus, Registry, SendOutcome,
    FRAME_PERIOD_MICROS,
};

#[test]
fn input_messages_decode() {
    assert_eq!(decode_input(&[0x41, 0x01]), Some(InputEvent { keycode: 0x41, is_down: true }));
    assert_eq!(decode_input(&[0x41, 0x00]), Some(InputEvent { keycode: 0x41, is_down: false }));
    assert_eq!(decode_input(&[0x41, 0x07]), Some(InputEvent { keycode: 0x41, is_down: true }));
    assert_eq!(decode_input(&[0x41]), None);
    assert_eq!(decode_input(&[0x41, 0, 0]), None);
}

#[test]
fn input_messages_encode() {
    assert_eq!(encode_input(0x41, true), vec![0x41, 1]);
    assert_eq!(encode_input(0x141, false), vec![0x41, 0]);
}

#[test]
fn requested_session_id_wins() {
    assert_eq!(choose_session_id(Some("s1".to_string()), "fresh".to_string()), "s1");
    assert_eq!(choose_session_id(None, "fresh".to_string()), "fresh");
    assert_eq!(choose_session_id(Some(String::new()), "fresh".to_string()), "fresh");
    assert_eq!(choose_session_id(Some("bad id!".to_string()), "fresh".to_string()), "fresh");
    assert_eq!(choose_session_id(Some("x".repeat(65)), "fresh".to_string()), "fresh");
    let uuid = "3f2b8c1e-9d4a-4b7e-8f1a-0c2d3e4f5a6b".to_string();
    assert_eq!(choose_session_id(Some(uuid.clone()), "fresh".to_string()), uuid);
    assert!(session_id_well_formed("s1"));
    assert!(!session_id_well_formed("é"));
}

#[test]
fn welcome_comes_first() {
    let steps = handshake(Some("s1".to_string()), "x".to_string(), "i1".to_string());
    assert_eq!(steps.len(), 2);
    match &steps[0] {
        HandshakeStep::SendWelcome { session_id, server_instance_id } => {
            assert_eq!(session_id, "s1");
            assert_eq!(server_instance_id, "i1");
        }
        _ => panic!("WELCOME must come first"),
    }
    assert!(matches!(&steps[1], HandshakeStep::JoinTickLoop { session_id } if session_id == "s1"));
}

#[test]
fn pacing_fills_the_frame_period() {
    assert_eq!(FRAME_PERIOD_MICROS, 33333);
    assert_eq!(pacing_delay_micros(0), 33333);
    assert_eq!(pacing_delay_micros(10000), 23333);
    assert_eq!(pacing_delay_micros(33333), 0);
    assert_eq!(pacing_delay_micros(50000), 0);
}

#[test]
fn dispatch_removes_only_closed_sessions() {
    let mut reg: Registry<u32> = Registry::new();
    reg.join("a".to_string(), 1);
    reg.join("b".to_string(), 2);
    reg.join("c".to_string(), 3);
    reg.join("d".to_string(), 4);
    let outcomes = vec![SendOutcome::Sent, SendOutcome::Closed, SendOutcome::Full, SendOutcome::NoFrame];
    let keep = dispatch_keep(&outcomes);
    assert_eq!(keep, vec![true, false, true, true]);
    let removed = reg.retain_flagged(&keep);
    assert_eq!(removed.len(), 1);
    assert_eq!(removed[0].id, "b");
    assert_eq!(reg.len(), 3);
    assert_eq!(reg.session(0).id, "a");
    assert_eq!(reg.session(1).id, "c");
    assert_eq!(reg.session(2).link, 4);
}

#[test]
fn slow_client_keeps_its_session() {
    let mut reg: Registry<()> = Registry::new();
    reg.join("slow".to_string(), ());
    for _ in 0..60 {
        let keep = dispatch_keep(&vec![SendOutcome::Full]);
        assert!(reg.retain_flagged(&keep).is_empty());
    }
    assert_eq!(reg.len(), 1);
}

#[test]
fn disconnected_inputs_remove_session() {
    let mut reg: Registry<u8> = Registry::new();
    reg.join("a".to_string(), 0);
    reg.join("b".to_string(), 0);
    let keep = inputs_keep(&vec![InputStatus::Disconnected, InputStatus::Drained]);
    let removed = reg.retain_flagged(&keep);
    assert_eq!(removed[0].id, "a");
    assert_eq!(reg.session(0).id, "b");
    *reg.session_mut(0) = 9;
    assert_eq!(reg.session(0).link, 9);
}

#[test]
fn empty_frame_paints_black_canvas() {
    assert_eq!(raster_plan(&[]), vec![PaintOp::FillCanvas { rgb: Rgb { r: 0, g: 0, b: 0 } }]);
}

#[test]
fn raster_plan_tracks_colour() {
    let mut data = vec![0x01, 1, 2, 3, 0x03];
    for v in [1.0f32, 2.0, 3.0, 4.0] {
        data.extend_from_slice(&v.to_le_bytes());
    }
    data.extend_from_slice(&[0x02, 9, 8, 7, 6, 0x03]);
    for v in [5.0f32, 6.0, 7.0, 8.0] {
        data.extend_from_slice(&v.to_le_bytes());
    }
    data.extend_from_slice(&[0x05]);
    data.extend_from_slice(&0.0f32.to_le_bytes());
    data.extend_from_slice(&0.0f32.to_le_bytes());
    data.extend_from_slice(&[3, 0, b'a', b'b', b'c']);
    data.extend_from_slice(&[0x0b, 0, 0]);
    for v in [1.0f32, 2.0, -3.0, 4.0, 0.0, 0.0, 0.0, 0.0, 0.0, 0.0, 0.0] {
        data.extend_from_slice(&v.to_le_bytes());
    }
    let plan = raster_plan(&data);
    let white = Rgb { r: 255, g: 255, b: 255 };
    let set = Rgb { r: 9, g: 8, b: 7 };
    assert_eq!(plan.len(), 6);
    assert_eq!(plan[1], PaintOp::FillCanvas { rgb: Rgb { r: 1, g: 2, b: 3 } });
    assert_eq!(
        plan[2],
        PaintOp::FillRect { x: 1.0f32.to_bits(), y: 2.0f32.to_bits(), w: 3.0f32.to_bits(), h: 4.0f32.to_bits(), rgb: white }
    );
    assert_eq!(
        plan[3],
        PaintOp::FillRect { x: 5.0f32.to_bits(), y: 6.0f32.to_bits(), w: 7.0f32.to_bits(), h: 8.0f32.to_bits(), rgb: set }
    );
    assert_eq!(plan[4], PaintOp::TextBox { x: 0, y: 0, width: 24, rgb: set });
    assert_eq!(
        plan[5],
        PaintOp::ImageBox { x: 1.0f32.to_bits(), y: 2.0f32.to_bits(), w: None, h: Some(4.0f32.to_bits()) }
    );
}

#[test]
fn raster_plan_stops_at_truncation() {
    let plan = raster_plan(&[0x01, 5, 5, 5, 0x03, 0, 0]);
    assert_eq!(plan.len(), 2);
}

#[test]
fn sdk_lists_every_function() {
    let docs = get_sdk_docs();
    assert_eq!(docs.len(), 18);
    assert_eq!(docs[0].name, "api.clear_screen");
    assert_eq!(docs[0].params.len(), 3);
    assert_eq!(docs[17].name, "PhysicsWorld:step");
    let set_color = &docs[1];
    assert_eq!(set_color.params.len(), 4);
    assert!(!set_color.params[0].optional);
    assert!(set_color.params[3].optional);
    assert_eq!(set_color.params[3].param_type, "u8");
    assert!(set_color.returns.is_empty());
    let draw_image = &docs[10];
    assert_eq!(draw_image.params.len(), 12);
    assert_eq!(draw_image.params.iter().filter(|p| !p.optional).count(), 3);
    assert_eq!(docs[11].returns.len(), 1);
}
