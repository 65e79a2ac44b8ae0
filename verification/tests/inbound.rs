use rect_session::connection::{inbound_step, IncomingFrame, InboundAction};
use rect_session::session::SessionCommand;

#[test]
fn text_frame_with_canonical_command_is_forwarded() {
    let frame = "MoveRectangle;{\"uuid\":\"r0\",\"diff_x\":1.5,\"diff_y\":-2}".to_string();
    match inbound_step(IncomingFrame::Text(frame)) {
        InboundAction::Forward(SessionCommand::MoveRectangle(c)) => {
            assert_eq!(c.uuid, "r0");
            assert_eq!(c.diff_x, 1_500);
            assert_eq!(c.diff_y, -2_000);
        }
        _ => panic!("a decodable text frame is forwarded"),
    }
}

#[test]
fn unreadable_text_frame_is_ignored_not_fatal() {
    assert!(matches!(
        inbound_step(IncomingFrame::Text("garbage".to_string())),
        InboundAction::Ignore
    ));
    assert!(matches!(
        inbound_step(IncomingFrame::Text("Shout;{}".to_string())),
        InboundAction::Ignore
    ));
}

#[test]
fn binary_frames_are_ignored_and_close_stops() {
    assert!(matches!(inbound_step(IncomingFrame::Binary), InboundAction::Ignore));
    assert!(matches!(inbound_step(IncomingFrame::Close), InboundAction::Stop));
}
