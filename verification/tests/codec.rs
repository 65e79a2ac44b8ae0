use rect_session::session::{
    FullStateSentEvent, FullStateSentEventConnection, MoveRectangleCommand, Rectangle,
    RectangleMovedEvent, SessionCommand, SessionEvent,
};
use rect_session::transport::{
    encode_message, translate_command_to_ws, translate_event_to_ws, translate_ws_to_command,
};

#[test]
fn encode_message_joins_kind_and_payload() {
    assert_eq!(encode_message("Kind", "payload"), "Kind;payload");
    assert_eq!(encode_message("", ""), ";");
}

#[test]
fn round_trip_move_rectangle() {
    // 1500 and -2000 thousandths stand for the deltas 1.5 and -2.0.
    let command = MoveRectangleCommand::new("r1".to_string(), 1500, -2000);
    let frame = translate_command_to_ws(&command);
    assert_eq!(frame, "MoveRectangle;{\"uuid\":\"r1\",\"diff_x\":1.5,\"diff_y\":-2.0}");
    match translate_ws_to_command(&frame) {
        Ok(SessionCommand::MoveRectangle(back)) => {
            assert_eq!(back.uuid, "r1");
            assert_eq!(back.diff_x, 1500);
            assert_eq!(back.diff_y, -2000);
        }
        _ => panic!("the codec's own frame must decode"),
    }
}

#[test]
fn round_trip_whole_and_small_fractions() {
    let command = MoveRectangleCommand::new("a-b-c".to_string(), 50, 123456);
    let frame = translate_command_to_ws(&command);
    assert_eq!(frame, "MoveRectangle;{\"uuid\":\"a-b-c\",\"diff_x\":0.05,\"diff_y\":123.456}");
    match translate_ws_to_command(&frame) {
        Ok(SessionCommand::MoveRectangle(back)) => {
            assert_eq!(back.uuid, "a-b-c");
            assert_eq!(back.diff_x, 50);
            assert_eq!(back.diff_y, 123456);
        }
        _ => panic!("the codec's own frame must decode"),
    }
}

#[test]
fn decode_accepts_canonical_frame() {
    let frame = "MoveRectangle;{\"uuid\":\"r0\",\"diff_x\":10,\"diff_y\":-5}";
    match translate_ws_to_command(frame) {
        Ok(SessionCommand::MoveRectangle(c)) => {
            assert_eq!(c.uuid, "r0");
            assert_eq!(c.diff_x, 10_000);
            assert_eq!(c.diff_y, -5_000);
        }
        _ => panic!("canonical frame must decode"),
    }
}

#[test]
fn decode_rejects_unknown_kind() {
    assert!(translate_ws_to_command("Shout;{\"uuid\":\"r0\",\"diff_x\":1,\"diff_y\":2}").is_err());
    assert!(translate_ws_to_command("ClientConnected;{\"id\":3}").is_err());
}

#[test]
fn decode_rejects_malformed_payloads() {
    assert!(translate_ws_to_command("").is_err());
    assert!(translate_ws_to_command("MoveRectangle;").is_err());
    assert!(translate_ws_to_command("MoveRectangle;{}").is_err());
    assert!(translate_ws_to_command("MoveRectangle;{\"uuid\":\"r0\"}").is_err());
    // missing the closing brace
    assert!(translate_ws_to_command("MoveRectangle;{\"uuid\":\"r0\",\"diff_x\":1,\"diff_y\":2").is_err());
    // trailing junk after the frame
    assert!(
        translate_ws_to_command("MoveRectangle;{\"uuid\":\"r0\",\"diff_x\":1,\"diff_y\":2}x").is_err()
    );
    // numbers JSON itself refuses: a leading zero, a dot with no digits
    assert!(
        translate_ws_to_command("MoveRectangle;{\"uuid\":\"r0\",\"diff_x\":01,\"diff_y\":2}").is_err()
    );
    assert!(
        translate_ws_to_command("MoveRectangle;{\"uuid\":\"r0\",\"diff_x\":1.,\"diff_y\":2}").is_err()
    );
    // an escape inside the id
    assert!(
        translate_ws_to_command("MoveRectangle;{\"uuid\":\"a\\\\b\",\"diff_x\":1,\"diff_y\":2}").is_err()
    );
}

#[test]
fn decode_respects_the_digit_limits() {
    // twelve integer digits and three fraction digits are the most a frame
    // can carry
    let frame = "MoveRectangle;{\"uuid\":\"r0\",\"diff_x\":999999999999.999,\"diff_y\":-999999999999.999}";
    match translate_ws_to_command(frame) {
        Ok(SessionCommand::MoveRectangle(c)) => {
            assert_eq!(c.diff_x, 999_999_999_999_999);
            assert_eq!(c.diff_y, -999_999_999_999_999);
        }
        _ => panic!("the largest canonical deltas must decode"),
    }
    let too_long = "MoveRectangle;{\"uuid\":\"r0\",\"diff_x\":1000000000000,\"diff_y\":1}";
    assert!(translate_ws_to_command(too_long).is_err());
}

#[test]
fn decode_reads_every_float_spelling() {
    // the exact spelling a float encoder produces for whole deltas
    let frame = "MoveRectangle;{\"uuid\":\"r1\",\"diff_x\":1.5,\"diff_y\":-2.0}";
    match translate_ws_to_command(frame) {
        Ok(SessionCommand::MoveRectangle(c)) => {
            assert_eq!(c.uuid, "r1");
            assert_eq!(c.diff_x, 1_500);
            assert_eq!(c.diff_y, -2_000);
        }
        _ => panic!("a float-spelled frame must decode"),
    }
    let spellings: Vec<(&str, i64)> = vec![
        ("7", 7_000),
        ("1.50", 1_500),
        ("-0", 0),
        ("-0.0", 0),
        ("0.0005", 0),
        ("1.0001", 1_000),
        ("3.1415926", 3_141),
    ];
    for (text, milli) in spellings {
        let frame = format!(
            "MoveRectangle;{{\"uuid\":\"r0\",\"diff_x\":{},\"diff_y\":0}}",
            text
        );
        match translate_ws_to_command(&frame) {
            Ok(SessionCommand::MoveRectangle(c)) => {
                assert_eq!(c.diff_x, milli, "spelling {}", text);
                assert_eq!(c.diff_y, 0);
            }
            _ => panic!("spelling {} must decode", text),
        }
    }
}

#[test]
fn encode_client_events() {
    assert_eq!(
        translate_event_to_ws(SessionEvent::ClientConnected(7)),
        "ClientConnected;{\"id\":7}"
    );
    assert_eq!(
        translate_event_to_ws(SessionEvent::ClientDisconnected(12)),
        "ClientDisconnected;{\"id\":12}"
    );
    assert_eq!(
        translate_event_to_ws(SessionEvent::RectangleMoved(RectangleMovedEvent::new(
            "r9".to_string(),
            -1250,
            3000,
        ))),
        "RectangleMoved;{\"uuid\":\"r9\",\"diff_x\":-1.25,\"diff_y\":3.0}"
    );
}

#[test]
fn encode_full_state_snapshot() {
    let event = SessionEvent::FullStateSent(FullStateSentEvent::new(
        vec![
            FullStateSentEventConnection { id: 1 },
            FullStateSentEventConnection { id: 2 },
        ],
        vec![Rectangle::new("r0".to_string(), 100, 100, 110_000, 95_000)],
    ));
    assert_eq!(
        translate_event_to_ws(event),
        "StateSent;{\"connections\":{\"1\":{\"id\":1},\"2\":{\"id\":2}},\
         \"rectangles\":{\"r0\":{\"uuid\":\"r0\",\"width\":100,\"height\":100,\
         \"left\":110.0,\"top\":95.0}}}"
    );
}

#[test]
fn encoded_payloads_are_json() {
    let frames = vec![
        translate_event_to_ws(SessionEvent::ClientConnected(3)),
        translate_event_to_ws(SessionEvent::RectangleMoved(RectangleMovedEvent::new(
            "r0".to_string(),
            10_000,
            -5_000,
        ))),
        translate_event_to_ws(SessionEvent::FullStateSent(FullStateSentEvent::new(
            vec![FullStateSentEventConnection { id: 1 }],
            vec![Rectangle::new("r0".to_string(), 100, 100, 100_500, 100_000)],
        ))),
    ];
    for frame in frames {
        let semi = frame.find(';').expect("every frame has a kind tag");
        let payload = &frame[semi + 1..];
        let value: serde_json::Value =
            serde_json::from_str(payload).expect("every payload is well-formed JSON");
        assert!(value.is_object());
    }
    let moved = translate_event_to_ws(SessionEvent::RectangleMoved(RectangleMovedEvent::new(
        "r0".to_string(),
        10_500,
        -5_000,
    )));
    let payload: serde_json::Value = serde_json::from_str(&moved["RectangleMoved;".len()..]).unwrap();
    assert_eq!(payload["uuid"], "r0");
    assert_eq!(payload["diff_x"], 10.5);
    assert_eq!(payload["diff_y"], -5.0);
}
