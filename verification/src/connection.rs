//! Decisions of a connection's inbound half.
//!
//! The inbound half reads frames from the socket; this module decides, for
//! each frame, whether to forward a command to the session actor, ignore the
//! frame, or stop. The reading loop itself, and the rule that a stopped
//! inbound half always sends one final `Disconnect`, live with the socket
//! plumbing outside this crate.

use crate::session::{CmdModel, SessionCommand};
use crate::transport::{
    accepts_move_frame, lemma_canonical_frame_text, move_frame, translate_ws_to_command,
    uuid_safe, wire_milli,
};
use vstd::prelude::*;

verus! {

/// One received frame, reduced to what the inbound half inspects.
pub enum IncomingFrame {
    Text(String),
    Binary,
    Close,
}

/// What the inbound half does with one frame.
pub enum InboundAction {
    Forward(SessionCommand),
    Ignore,
    Stop,
}

/// Decides one inbound frame: a text frame the codec accepts is forwarded
/// as a `MoveRectangle` command; any other text frame is a protocol error
/// and is ignored, as is a binary frame; a close frame stops the inbound
/// half.
pub fn inbound_step(frame: IncomingFrame) -> (r: InboundAction)
    ensures
        match frame {
            IncomingFrame::Text(s) => (forall|u: Seq<char>, dx: i64, dy: i64|
                uuid_safe(u) && wire_milli(dx) && wire_milli(dy) && s@ == #[trigger] move_frame(
                    u,
                    dx,
                    dy,
                ) ==> (r matches InboundAction::Forward(c) && c@ == CmdModel::Move(u, dx, dy)))
                && (r is Forward <==> accepts_move_frame(s@)) && (r is Ignore
                <==> !accepts_move_frame(s@)),
            IncomingFrame::Binary => r is Ignore,
            IncomingFrame::Close => r is Stop,
        },
{
    match frame {
        IncomingFrame::Text(s) => {
            let decoded = translate_ws_to_command(&s);
            proof {
                assert forall|u: Seq<char>, dx: i64, dy: i64|
                    uuid_safe(u) && wire_milli(dx) && wire_milli(dy) && s@ == #[trigger] move_frame(
                        u,
                        dx,
                        dy,
                    ) implies (decoded matches Ok(c) && c@ == CmdModel::Move(u, dx, dy)) by {
                    lemma_canonical_frame_text(s@, u, dx, dy);
                }
            }
            match decoded {
                Ok(command) => InboundAction::Forward(command),
                Err(_) => InboundAction::Ignore,
            }
        },
        IncomingFrame::Binary => InboundAction::Ignore,
        IncomingFrame::Close => InboundAction::Stop,
    }
}

} // verus!
