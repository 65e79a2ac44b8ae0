//! The session actor's state and its serialized command processing.
//!
//! `SessionState` is the single authoritative owner of the shared scene: the
//! table of joined connections and the set of movable rectangles. Every
//! mutation goes through `handle_command`, whose effect is pinned to the
//! mathematical transition function `step`; the events it returns are also
//! fanned out, in order, to every connection joined after the transition.
//!
//! Coordinates are `i64` counts of thousandths of a canvas unit (see the
//! `num` module); moves add deltas with wrapping arithmetic.

use vstd::pervasive::VecAdditionalExecFns;
use vstd::prelude::*;

verus! {

#[verifier::external_type_specification]
#[verifier::external_body]
#[verifier::reject_recursive_types(T)]
pub struct ExUnboundedSender<T>(tokio::sync::mpsc::UnboundedSender<T>);

/// A joined connection: its identity and the sink that delivers events to
/// its outbound half.
pub struct SessionConnection {
    pub id: u32,
    pub sender: tokio::sync::mpsc::UnboundedSender<SessionEvent>,
}

impl SessionConnection {
    pub fn new(id: u32, sender: tokio::sync::mpsc::UnboundedSender<SessionEvent>) -> (r:
        SessionConnection)
        ensures
            r.id == id,
    {
        SessionConnection { id, sender }
    }
}

/// A client's intent to move one rectangle by a delta, in thousandths.
pub struct MoveRectangleCommand {
    pub uuid: String,
    pub diff_x: i64,
    pub diff_y: i64,
}

impl MoveRectangleCommand {
    pub fn new(uuid: String, diff_x: i64, diff_y: i64) -> (r: MoveRectangleCommand)
        ensures
            r.uuid@ == uuid@,
            r.diff_x == diff_x,
            r.diff_y == diff_y,
    {
        MoveRectangleCommand { uuid, diff_x, diff_y }
    }
}

/// The fact that one rectangle moved by a delta, in thousandths.
#[derive(Clone)]
pub struct RectangleMovedEvent {
    pub uuid: String,
    pub diff_x: i64,
    pub diff_y: i64,
}

impl RectangleMovedEvent {
    pub fn new(uuid: String, diff_x: i64, diff_y: i64) -> (r: RectangleMovedEvent)
        ensures
            r.uuid@ == uuid@,
            r.diff_x == diff_x,
            r.diff_y == diff_y,
    {
        RectangleMovedEvent { uuid, diff_x, diff_y }
    }
}

/// One joined connection as it appears in a full-state snapshot.
#[derive(Clone)]
pub struct FullStateSentEventConnection {
    pub id: u32,
}

/// A full snapshot of the session: joined connections and all rectangles.
#[derive(Clone)]
pub struct FullStateSentEvent {
    pub connections: Vec<FullStateSentEventConnection>,
    pub rectangles: Vec<Rectangle>,
}

impl FullStateSentEvent {
    pub fn new(connections: Vec<FullStateSentEventConnection>, rectangles: Vec<Rectangle>) -> (r:
        FullStateSentEvent)
        ensures
            r.connections@ == connections@,
            r.rectangles@ == rectangles@,
    {
        FullStateSentEvent { connections, rectangles }
    }
}

/// A movable rectangle; `left` and `top` are in thousandths of a unit.
pub struct Rectangle {
    pub uuid: String,
    pub width: u32,
    pub height: u32,
    pub left: i64,
    pub top: i64,
}

/// The mathematical value of a rectangle.
pub ghost struct RectModel {
    pub uuid: Seq<char>,
    pub width: u32,
    pub height: u32,
    pub left: i64,
    pub top: i64,
}

impl View for Rectangle {
    type V = RectModel;

    open spec fn view(&self) -> RectModel {
        RectModel {
            uuid: self.uuid@,
            width: self.width,
            height: self.height,
            left: self.left,
            top: self.top,
        }
    }
}

impl Clone for Rectangle {
    fn clone(&self) -> (r: Self)
        ensures
            r@ == self@,
    {
        Rectangle {
            uuid: self.uuid.clone(),
            width: self.width,
            height: self.height,
            left: self.left,
            top: self.top,
        }
    }
}

impl Rectangle {
    pub fn new(uuid: String, width: u32, height: u32, left: i64, top: i64) -> (r: Rectangle)
        ensures
            r@ == (RectModel { uuid: uuid@, width, height, left, top }),
    {
        Rectangle { uuid, width, height, left, top }
    }

    /// Translates the rectangle by a delta, wrapping on overflow.
    pub fn move_by(&mut self, dx: i64, dy: i64)
        ensures
            final(self)@ == (RectModel {
                left: vstd::wrapping::i64_specs::wrapping_add(old(self).left, dx),
                top: vstd::wrapping::i64_specs::wrapping_add(old(self).top, dy),
                ..old(self)@
            }),
    {
        self.left = self.left.wrapping_add(dx);
        self.top = self.top.wrapping_add(dy);
    }
}

/// A client-originated intent to change the session.
pub enum SessionCommand {
    Join(SessionConnection),
    Disconnect(u32),
    MoveRectangle(MoveRectangleCommand),
}

/// A server-originated fact, broadcast to every joined connection.
#[derive(Clone)]
pub enum SessionEvent {
    ClientConnected(u32),
    ClientDisconnected(u32),
    FullStateSent(FullStateSentEvent),
    RectangleMoved(RectangleMovedEvent),
}

/// The mathematical value of a command.
pub ghost enum CmdModel {
    Join(u32),
    Disconnect(u32),
    Move(Seq<char>, i64, i64),
}

/// The mathematical value of an event.
pub ghost enum EventModel {
    ClientConnected(u32),
    ClientDisconnected(u32),
    FullStateSent(Seq<u32>, Seq<RectModel>),
    RectangleMoved(Seq<char>, i64, i64),
}

impl View for SessionCommand {
    type V = CmdModel;

    open spec fn view(&self) -> CmdModel {
        match self {
            SessionCommand::Join(c) => CmdModel::Join(c.id),
            SessionCommand::Disconnect(id) => CmdModel::Disconnect(*id),
            SessionCommand::MoveRectangle(m) => CmdModel::Move(m.uuid@, m.diff_x, m.diff_y),
        }
    }
}

impl View for SessionEvent {
    type V = EventModel;

    open spec fn view(&self) -> EventModel {
        match self {
            SessionEvent::ClientConnected(id) => EventModel::ClientConnected(*id),
            SessionEvent::ClientDisconnected(id) => EventModel::ClientDisconnected(*id),
            SessionEvent::FullStateSent(f) => EventModel::FullStateSent(
                f.connections@.map(|i: int, c: FullStateSentEventConnection| c.id),
                f.rectangles@.map(|i: int, r: Rectangle| r@),
            ),
            SessionEvent::RectangleMoved(m) => EventModel::RectangleMoved(
                m.uuid@,
                m.diff_x,
                m.diff_y,
            ),
        }
    }
}

/// The mathematical value of the whole session state.
#[verifier::ext_equal]
pub ghost struct StateModel {
    pub conns: Seq<u32>,
    pub rects: Seq<RectModel>,
}

/// What one command does: the next state, the events broadcast for it, in
/// order, and whether the command was accepted.
pub ghost struct StepResult {
    pub state: StateModel,
    pub events: Seq<EventModel>,
    pub ok: bool,
}

/// The ids of a connection table, in table order.
pub open spec fn conn_ids(conns: Seq<SessionConnection>) -> Seq<u32> {
    conns.map(|i: int, c: SessionConnection| c.id)
}

/// The mathematical values of a rectangle table, in table order.
pub open spec fn rect_models(rects: Seq<Rectangle>) -> Seq<RectModel> {
    rects.map(|i: int, r: Rectangle| r@)
}

/// Index of the first rectangle with the given id, or -1.
pub open spec fn rect_index(rs: Seq<RectModel>, u: Seq<char>) -> int
    decreases rs.len(),
{
    if rs.len() == 0 {
        -1
    } else if rs[0].uuid == u {
        0
    } else {
        let t = rect_index(rs.drop_first(), u);
        if t < 0 {
            -1
        } else {
            1 + t
        }
    }
}

/// Index of the first connection with the given id, or -1.
pub open spec fn conn_index(cs: Seq<u32>, id: u32) -> int
    decreases cs.len(),
{
    if cs.len() == 0 {
        -1
    } else if cs[0] == id {
        0
    } else {
        let t = conn_index(cs.drop_first(), id);
        if t < 0 {
            -1
        } else {
            1 + t
        }
    }
}

pub open spec fn wrap_add(x: i64, y: i64) -> i64 {
    vstd::wrapping::i64_specs::wrapping_add(x, y)
}

/// The serialized transition of the session actor on one command.
///
/// Every event of a step is broadcast to exactly the connections of the
/// resulting state, in the order given here.
pub open spec fn step(s: StateModel, c: CmdModel) -> StepResult {
    match c {
        CmdModel::Join(id) => {
            let conns2 = if s.conns.contains(id) {
                s.conns
            } else {
                s.conns.push(id)
            };
            StepResult {
                state: StateModel { conns: conns2, rects: s.rects },
                events: seq![
                    EventModel::ClientConnected(id),
                    EventModel::FullStateSent(conns2, s.rects),
                ],
                ok: true,
            }
        },
        CmdModel::Disconnect(id) => {
            let j = conn_index(s.conns, id);
            if j < 0 {
                StepResult { state: s, events: seq![], ok: true }
            } else {
                StepResult {
                    state: StateModel { conns: s.conns.remove(j), rects: s.rects },
                    events: seq![EventModel::ClientDisconnected(id)],
                    ok: true,
                }
            }
        },
        CmdModel::Move(u, dx, dy) => {
            let j = rect_index(s.rects, u);
            if j < 0 {
                StepResult { state: s, events: seq![], ok: false }
            } else {
                let r0 = s.rects[j];
                let r1 = RectModel {
                    left: wrap_add(r0.left, dx),
                    top: wrap_add(r0.top, dy),
                    ..r0
                };
                StepResult {
                    state: StateModel { conns: s.conns, rects: s.rects.update(j, r1) },
                    events: seq![EventModel::RectangleMoved(u, dx, dy)],
                    ok: true,
                }
            }
        },
    }
}

/// Well-formedness: connection ids and rectangle ids are unique.
pub open spec fn wf(s: StateModel) -> bool {
    &&& forall|i: int, j: int|
        #![trigger s.conns[i], s.conns[j]]
        0 <= i < j < s.conns.len() ==> s.conns[i] != s.conns[j]
    &&& forall|i: int, j: int|
        #![trigger s.rects[i], s.rects[j]]
        0 <= i < j < s.rects.len() ==> s.rects[i].uuid != s.rects[j].uuid
}

pub proof fn lemma_rect_index(rs: Seq<RectModel>, u: Seq<char>)
    ensures
        -1 <= rect_index(rs, u) < rs.len(),
        rect_index(rs, u) >= 0 ==> rs[rect_index(rs, u)].uuid == u,
        rect_index(rs, u) == -1 <==> (forall|i: int|
            0 <= i < rs.len() ==> (#[trigger] rs[i]).uuid != u),
        forall|i: int| 0 <= i < rect_index(rs, u) ==> (#[trigger] rs[i]).uuid != u,
    decreases rs.len(),
{
    if rs.len() == 0 {
    } else if rs[0].uuid == u {
    } else {
        lemma_rect_index(rs.drop_first(), u);
        assert(forall|i: int|
            1 <= i < rs.len() ==> #[trigger] rs[i] == rs.drop_first()[i - 1]);
    }
}

pub proof fn lemma_conn_index(cs: Seq<u32>, id: u32)
    ensures
        -1 <= conn_index(cs, id) < cs.len(),
        conn_index(cs, id) >= 0 ==> cs[conn_index(cs, id)] == id,
        conn_index(cs, id) == -1 <==> !cs.contains(id),
        forall|i: int| 0 <= i < conn_index(cs, id) ==> #[trigger] cs[i] != id,
    decreases cs.len(),
{
    if cs.len() == 0 {
    } else if cs[0] == id {
    } else {
        lemma_conn_index(cs.drop_first(), id);
        assert(forall|i: int| 1 <= i < cs.len() ==> #[trigger] cs[i] == cs.drop_first()[i - 1]);
        if conn_index(cs.drop_first(), id) == -1 {
            assert(forall|i: int|
                0 <= i < cs.len() ==> #[trigger] cs[i] != id);
        } else {
            assert(cs.contains(cs[conn_index(cs, id)]));
        }
    }
}

/// Each step keeps connection ids and rectangle ids unique.
pub proof fn lemma_step_preserves_wf(s: StateModel, c: CmdModel)
    requires
        wf(s),
    ensures
        wf(step(s, c).state),
{
    match c {
        CmdModel::Join(id) => {
            if !s.conns.contains(id) {
                let cs = s.conns.push(id);
                assert forall|i: int, j: int|
                    #![trigger cs[i], cs[j]]
                    0 <= i < j < cs.len() implies cs[i] != cs[j] by {
                    if j == cs.len() - 1 {
                        assert(s.conns.contains(s.conns[i]));
                    }
                }
            }
        },
        CmdModel::Disconnect(id) => {
            let j = conn_index(s.conns, id);
            lemma_conn_index(s.conns, id);
            if j >= 0 {
                let cs = s.conns.remove(j);
                assert forall|p: int, q: int|
                    #![trigger cs[p], cs[q]]
                    0 <= p < q < cs.len() implies cs[p] != cs[q] by {
                    assert(cs[p] == if p < j {
                        s.conns[p]
                    } else {
                        s.conns[p + 1]
                    });
                    assert(cs[q] == if q < j {
                        s.conns[q]
                    } else {
                        s.conns[q + 1]
                    });
                }
            }
        },
        CmdModel::Move(u, dx, dy) => {
            lemma_rect_index(s.rects, u);
        },
    }
}

pub open spec fn is_uuid_char(c: char) -> bool {
    c == '-' || (48 <= c as u32 <= 57) || (97 <= c as u32 <= 102)
}

/// Relies on uuid::Uuid::new_v4 and the Display impl behind to_string: a
/// fresh random identifier rendered hyphenated, as 32 lowercase hex digits
/// and 4 hyphens.
#[verifier::external_body]
fn fresh_uuid() -> (r: String)
    ensures
        r@.len() == 36,
        forall|i: int| 0 <= i < r@.len() ==> is_uuid_char(#[trigger] r@[i]),
{
    uuid::Uuid::new_v4().to_string()
}

/// Relies on tokio::sync::mpsc::UnboundedSender::send: queues a copy of the
/// event for the connection's outbound half; if the receiving half is gone
/// the send fails and the event is dropped, which the fan-out ignores.
#[verifier::external_body]
fn sink_send(sender: &tokio::sync::mpsc::UnboundedSender<SessionEvent>, event: &SessionEvent) {
    let _ = sender.send(event.clone());
}

/// Why a command was rejected without any state change or event.
#[derive(Debug)]
pub enum SessionError {
    UnknownRectangle,
}

/// The session's shared scene: the table of joined connections and the
/// rectangles, owned and mutated only through `handle_command`.
pub struct SessionState {
    pub connections: Vec<SessionConnection>,
    pub rectangles: Vec<Rectangle>,
}

impl View for SessionState {
    type V = StateModel;

    open spec fn view(&self) -> StateModel {
        StateModel { conns: conn_ids(self.connections@), rects: rect_models(self.rectangles@) }
    }
}

fn find_connection(conns: &Vec<SessionConnection>, id: u32) -> (r: Option<usize>)
    ensures
        match r {
            Some(k) => k < conns@.len() && conn_index(conn_ids(conns@), id) == k,
            None => conn_index(conn_ids(conns@), id) == -1,
        },
{
    let ghost cs = conn_ids(conns@);
    proof {
        lemma_conn_index(cs, id);
    }
    let mut i: usize = 0;
    while i < conns.len()
        invariant
            i <= conns.len(),
            cs == conn_ids(conns@),
            forall|m: int| 0 <= m < i ==> #[trigger] cs[m] != id,
        decreases conns.len() - i,
    {
        if conns[i].id == id {
            proof {
                lemma_conn_index(cs, id);
                assert(cs[i as int] == conns@[i as int].id);
                assert(cs[i as int] == id);
                if conn_index(cs, id) < i {
                    assert(cs[conn_index(cs, id)] != id);
                }
            }
            return Some(i);
        }
        i += 1;
    }
    proof {
        if conn_index(cs, id) >= 0 {
            assert(cs[conn_index(cs, id)] != id);
        }
    }
    None
}

fn find_rectangle(rects: &Vec<Rectangle>, uuid: &String) -> (r: Option<usize>)
    ensures
        match r {
            Some(k) => k < rects@.len() && rect_index(rect_models(rects@), uuid@) == k,
            None => rect_index(rect_models(rects@), uuid@) == -1,
        },
{
    let ghost rs = rect_models(rects@);
    proof {
        lemma_rect_index(rs, uuid@);
    }
    let mut i: usize = 0;
    while i < rects.len()
        invariant
            i <= rects.len(),
            rs == rect_models(rects@),
            forall|m: int| 0 <= m < i ==> (#[trigger] rs[m]).uuid != uuid@,
        decreases rects.len() - i,
    {
        if rects[i].uuid == *uuid {
            proof {
                lemma_rect_index(rs, uuid@);
                assert(rs[i as int] == rects@[i as int]@);
                assert(rs[i as int].uuid == uuid@);
                if rect_index(rs, uuid@) < i {
                    assert(rs[rect_index(rs, uuid@)].uuid != uuid@);
                }
            }
            return Some(i);
        }
        i += 1;
    }
    proof {
        if rect_index(rs, uuid@) >= 0 {
            assert(rs[rect_index(rs, uuid@)].uuid != uuid@);
        }
    }
    None
}

/// Builds the connection half of a full-state snapshot.
fn snapshot_connections(conns: &Vec<SessionConnection>) -> (r: Vec<FullStateSentEventConnection>)
    ensures
        r@.map(|i: int, c: FullStateSentEventConnection| c.id) == conn_ids(conns@),
{
    let mut out: Vec<FullStateSentEventConnection> = Vec::new();
    let mut i: usize = 0;
    while i < conns.len()
        invariant
            i <= conns.len(),
            out@.len() == i,
            forall|m: int| 0 <= m < i ==> (#[trigger] out@[m]).id == conns@[m].id,
        decreases conns.len() - i,
    {
        out.push(FullStateSentEventConnection { id: conns[i].id });
        i += 1;
    }
    proof {
        assert(out@.map(|i: int, c: FullStateSentEventConnection| c.id) =~= conn_ids(conns@));
    }
    out
}

/// Copies the rectangles for a full-state snapshot.
fn clone_rectangles(rects: &Vec<Rectangle>) -> (r: Vec<Rectangle>)
    ensures
        rect_models(r@) == rect_models(rects@),
{
    let mut out: Vec<Rectangle> = Vec::new();
    let mut i: usize = 0;
    while i < rects.len()
        invariant
            i <= rects.len(),
            out@.len() == i,
            forall|m: int| 0 <= m < i ==> (#[trigger] out@[m])@ == rects@[m]@,
        decreases rects.len() - i,
    {
        out.push(rects[i].clone());
        i += 1;
    }
    proof {
        assert(rect_models(out@) =~= rect_models(rects@));
    }
    out
}

/// Delivers every event, in order, to every connection's sink.
fn dispatch_events(conns: &Vec<SessionConnection>, events: &Vec<SessionEvent>) {
    let mut i: usize = 0;
    while i < events.len()
        invariant
            i <= events.len(),
        decreases events.len() - i,
    {
        let mut j: usize = 0;
        while j < conns.len()
            invariant
                j <= conns.len(),
                i < events.len(),
            decreases conns.len() - j,
        {
            sink_send(&conns[j].sender, &events[i]);
            j += 1;
        }
        i += 1;
    }
}

impl SessionState {
    /// A fresh session: no connections, one seeded rectangle of size 100 by
    /// 100 at position (100, 100) — 100000 thousandths — under a fresh id.
    pub fn new() -> (r: SessionState)
        ensures
            wf(r@),
            r@.conns.len() == 0,
            r@.rects.len() == 1,
            r@.rects[0].width == 100,
            r@.rects[0].height == 100,
            r@.rects[0].left == 100000,
            r@.rects[0].top == 100000,
            r@.rects[0].uuid.len() == 36,
            forall|i: int| 0 <= i < 36 ==> is_uuid_char(#[trigger] r@.rects[0].uuid[i]),
    {
        let uuid = fresh_uuid();
        let seeded = Rectangle::new(uuid, 100, 100, 100000, 100000);
        let mut rectangles: Vec<Rectangle> = Vec::new();
        rectangles.push(seeded);
        let r = SessionState { connections: Vec::new(), rectangles };
        proof {
            assert(r@.rects =~= seq![seeded@]);
        }
        r
    }

    /// Applies one command: mutates the state as `step` says, broadcasts the
    /// step's events, in order, to every connection joined after the
    /// transition, and returns them; a move of an unknown rectangle changes
    /// nothing, sends nothing and reports the domain error.
    pub fn handle_command(&mut self, cmd: SessionCommand) -> (r: Result<
        Vec<SessionEvent>,
        SessionError,
    >)
        requires
            wf(old(self)@),
        ensures
            wf(final(self)@),
            final(self)@ == step(old(self)@, cmd@).state,
            r is Ok <==> step(old(self)@, cmd@).ok,
            (r matches Ok(evs) ==> evs@.map(|i: int, e: SessionEvent| e@) == step(
                old(self)@,
                cmd@,
            ).events),
    {
        proof {
            lemma_step_preserves_wf(old(self)@, cmd@);
        }
        let ghost pre = old(self)@;
        match cmd {
            SessionCommand::Join(conn) => {
                let id = conn.id;
                proof {
                    lemma_conn_index(pre.conns, id);
                }
                match find_connection(&self.connections, id) {
                    Some(k) => {
                        self.connections.set(k, conn);
                        proof {
                            assert(pre.conns.contains(pre.conns[k as int]));
                            assert(self@.conns =~= pre.conns);
                            assert(self@.rects =~= pre.rects);
                        }
                    },
                    None => {
                        self.connections.push(conn);
                        proof {
                            assert(self@.conns =~= pre.conns.push(id));
                            assert(self@.rects =~= pre.rects);
                        }
                    },
                }
                let snap_conns = snapshot_connections(&self.connections);
                let snap_rects = clone_rectangles(&self.rectangles);
                let mut events: Vec<SessionEvent> = Vec::new();
                events.push(SessionEvent::ClientConnected(id));
                events.push(
                    SessionEvent::FullStateSent(FullStateSentEvent::new(snap_conns, snap_rects)),
                );
                dispatch_events(&self.connections, &events);
                proof {
                    assert(events@.map(|i: int, e: SessionEvent| e@) =~= step(pre, CmdModel::Join(id)).events);
                }
                Ok(events)
            },
            SessionCommand::Disconnect(id) => {
                proof {
                    lemma_conn_index(pre.conns, id);
                }
                match find_connection(&self.connections, id) {
                    None => {
                        let events: Vec<SessionEvent> = Vec::new();
                        proof {
                            assert(events@.map(|i: int, e: SessionEvent| e@) =~= step(pre, CmdModel::Disconnect(id)).events);
                        }
                        Ok(events)
                    },
                    Some(k) => {
                        self.connections.remove(k);
                        proof {
                            assert(self@.conns =~= pre.conns.remove(k as int));
                            assert(self@.rects =~= pre.rects);
                        }
                        let mut events: Vec<SessionEvent> = Vec::new();
                        events.push(SessionEvent::ClientDisconnected(id));
                        dispatch_events(&self.connections, &events);
                        proof {
                            assert(events@.map(|i: int, e: SessionEvent| e@) =~= step(pre, CmdModel::Disconnect(id)).events);
                        }
                        Ok(events)
                    },
                }
            },
            SessionCommand::MoveRectangle(mcmd) => {
                proof {
                    lemma_rect_index(pre.rects, mcmd.uuid@);
                }
                match find_rectangle(&self.rectangles, &mcmd.uuid) {
                    None => Err(SessionError::UnknownRectangle),
                    Some(k) => {
                        let mut moved = self.rectangles[k].clone();
                        moved.move_by(mcmd.diff_x, mcmd.diff_y);
                        self.rectangles.set(k, moved);
                        proof {
                            assert(self@.conns =~= pre.conns);
                            assert(self@.rects =~= pre.rects.update(
                                k as int,
                                step(pre, CmdModel::Move(mcmd.uuid@, mcmd.diff_x, mcmd.diff_y)).state.rects[k as int],
                            ));
                        }
                        let mut events: Vec<SessionEvent> = Vec::new();
                        events.push(
                            SessionEvent::RectangleMoved(
                                RectangleMovedEvent::new(mcmd.uuid, mcmd.diff_x, mcmd.diff_y),
                            ),
                        );
                        dispatch_events(&self.connections, &events);
                        proof {
                            assert(events@.map(|i: int, e: SessionEvent| e@) =~= step(pre, cmd@).events);
                        }
                        Ok(events)
                    },
                }
            },
        }
    }
}


/// After any join, the snapshot broadcast with the `FullStateSent` that
/// follows the `ClientConnected` lists exactly the connections joined and
/// not yet disconnected at that point: the table after the join, with the
/// joiner included.
pub proof fn lemma_join_snapshot(s: StateModel, id: u32)
    ensures
        step(s, CmdModel::Join(id)).events == seq![
            EventModel::ClientConnected(id),
            EventModel::FullStateSent(step(s, CmdModel::Join(id)).state.conns, s.rects),
        ],
        step(s, CmdModel::Join(id)).state.rects == s.rects,
        forall|x: u32|
            step(s, CmdModel::Join(id)).state.conns.contains(x) <==> (s.conns.contains(x) || x
                == id),
{
    let c2 = step(s, CmdModel::Join(id)).state.conns;
    assert forall|x: u32| c2.contains(x) implies (s.conns.contains(x) || x == id) by {
        let w = choose|w: int| 0 <= w < c2.len() && c2[w] == x;
        if w < s.conns.len() {
            assert(s.conns[w] == x);
        }
    }
    assert forall|x: u32| s.conns.contains(x) || x == id implies c2.contains(x) by {
        if s.conns.contains(x) {
            let w = choose|w: int| 0 <= w < s.conns.len() && s.conns[w] == x;
            assert(c2[w] == x);
        } else {
            if !s.conns.contains(id) {
                assert(c2[c2.len() - 1] == id);
            }
        }
    }
}

/// Disconnecting an id that is not joined emits no event and leaves the
/// state untouched.
pub proof fn lemma_disconnect_unjoined(s: StateModel, id: u32)
    requires
        !s.conns.contains(id),
    ensures
        step(s, CmdModel::Disconnect(id)).state == s,
        step(s, CmdModel::Disconnect(id)).events.len() == 0,
        step(s, CmdModel::Disconnect(id)).ok,
{
    lemma_conn_index(s.conns, id);
}

/// A move of an id no rectangle has emits no event, reports failure, and
/// leaves the state untouched.
pub proof fn lemma_move_unknown(s: StateModel, u: Seq<char>, dx: i64, dy: i64)
    requires
        forall|i: int| 0 <= i < s.rects.len() ==> (#[trigger] s.rects[i]).uuid != u,
    ensures
        step(s, CmdModel::Move(u, dx, dy)).state == s,
        step(s, CmdModel::Move(u, dx, dy)).events.len() == 0,
        !step(s, CmdModel::Move(u, dx, dy)).ok,
{
    lemma_rect_index(s.rects, u);
}

/// Wrapping addition of deltas composes.
pub proof fn lemma_wrap_add_assoc(l: i64, a: i64, b: i64)
    ensures
        wrap_add(wrap_add(l, a), b) == wrap_add(l, wrap_add(a, b)),
{
}

/// The first rectangle of a given id stays first when it is replaced by one
/// with the same id.
proof fn lemma_rect_index_update(rs: Seq<RectModel>, u: Seq<char>, r2: RectModel)
    requires
        rect_index(rs, u) >= 0,
        r2.uuid == u,
    ensures
        rect_index(rs.update(rect_index(rs, u), r2), u) == rect_index(rs, u),
{
    let j = rect_index(rs, u);
    let rs2 = rs.update(j, r2);
    lemma_rect_index(rs, u);
    lemma_rect_index(rs2, u);
    let t = rect_index(rs2, u);
    assert(rs2[j].uuid == u);
    assert(t >= 0);
    if t < j {
        assert(rs2[t] == rs[t]);
        assert(rs[t].uuid != u);
    }
    if t > j {
        assert(rs2[j].uuid != u);
    }
}

/// Moving a rectangle by two deltas in sequence lands it where the one
/// combined move lands it: moves compose additively, with no clamping.
pub proof fn lemma_move_additive(
    s: StateModel,
    u: Seq<char>,
    dx1: i64,
    dy1: i64,
    dx2: i64,
    dy2: i64,
)
    ensures
        step(step(s, CmdModel::Move(u, dx1, dy1)).state, CmdModel::Move(u, dx2, dy2)).state
            == step(s, CmdModel::Move(u, wrap_add(dx1, dx2), wrap_add(dy1, dy2))).state,
{
    let j = rect_index(s.rects, u);
    lemma_rect_index(s.rects, u);
    if j < 0 {
    } else {
        let r0 = s.rects[j];
        let s1 = step(s, CmdModel::Move(u, dx1, dy1)).state;
        let r1 = s1.rects[j];
        lemma_rect_index_update(s.rects, u, r1);
        assert(rect_index(s1.rects, u) == j);
        let s12 = step(s1, CmdModel::Move(u, dx2, dy2)).state;
        let sc = step(s, CmdModel::Move(u, wrap_add(dx1, dx2), wrap_add(dy1, dy2))).state;
        lemma_wrap_add_assoc(r0.left, dx1, dx2);
        lemma_wrap_add_assoc(r0.top, dy1, dy2);
        assert(s12.rects =~= sc.rects);
        assert(s12 =~= sc);
    }
}


impl SessionState {
    /// The ids of the rectangles, in table order.
    pub fn rectangle_uuids(&self) -> (r: Vec<String>)
        ensures
            r@.len() == self@.rects.len(),
            forall|i: int| 0 <= i < r@.len() ==> (#[trigger] r@[i])@ == self@.rects[i].uuid,
    {
        let mut out: Vec<String> = Vec::new();
        let mut i: usize = 0;
        while i < self.rectangles.len()
            invariant
                i <= self.rectangles.len(),
                out@.len() == i,
                forall|m: int| 0 <= m < i ==> (#[trigger] out@[m])@ == rect_models(
                    self.rectangles@,
                )[m].uuid,
            decreases self.rectangles.len() - i,
        {
            out.push(self.rectangles[i].uuid.clone());
            i += 1;
        }
        out
    }

    /// The position of the rectangle with the given id, in thousandths.
    pub fn rectangle_position(&self, uuid: &String) -> (r: Option<(i64, i64)>)
        ensures
            ({
                let j = rect_index(self@.rects, uuid@);
                match r {
                    Some(p) => j >= 0 && p.0 == self@.rects[j].left && p.1 == self@.rects[j].top,
                    None => j == -1,
                }
            }),
    {
        match find_rectangle(&self.rectangles, uuid) {
            None => None,
            Some(k) => Some((self.rectangles[k].left, self.rectangles[k].top)),
        }
    }

    /// The ids of the joined connections, in table order.
    pub fn connection_ids(&self) -> (r: Vec<u32>)
        ensures
            r@ == self@.conns,
    {
        let mut out: Vec<u32> = Vec::new();
        let mut i: usize = 0;
        while i < self.connections.len()
            invariant
                i <= self.connections.len(),
                out@.len() == i,
                forall|m: int| 0 <= m < i ==> #[trigger] out@[m] == conn_ids(self.connections@)[m],
            decreases self.connections.len() - i,
        {
            out.push(self.connections[i].id);
            i += 1;
        }
        proof {
            assert(out@ =~= conn_ids(self.connections@));
        }
        out
    }
}


/// The state after a whole command sequence has been applied, in order.
pub open spec fn run(s: StateModel, cs: Seq<CmdModel>) -> StateModel
    decreases cs.len(),
{
    if cs.len() == 0 {
        s
    } else {
        step(run(s, cs.drop_last()), cs.last()).state
    }
}

/// Whether `x` is joined once `cs` has run: joined at the start or by some
/// later join, and not disconnected since.
pub open spec fn joined_after(init: Seq<u32>, cs: Seq<CmdModel>, x: u32) -> bool
    decreases cs.len(),
{
    if cs.len() == 0 {
        init.contains(x)
    } else {
        let prev = joined_after(init, cs.drop_last(), x);
        match cs.last() {
            CmdModel::Join(id) => prev || id == x,
            CmdModel::Disconnect(id) => prev && id != x,
            CmdModel::Move(u, dx, dy) => prev,
        }
    }
}

/// Removing the one entry of a given id removes exactly that id.
proof fn lemma_remove_membership(cs: Seq<u32>, id: u32, x: u32)
    requires
        forall|i: int, j: int|
            #![trigger cs[i], cs[j]]
            0 <= i < j < cs.len() ==> cs[i] != cs[j],
        conn_index(cs, id) >= 0,
    ensures
        cs.remove(conn_index(cs, id)).contains(x) <==> (cs.contains(x) && x != id),
{
    lemma_conn_index(cs, id);
    let j = conn_index(cs, id);
    let rem = cs.remove(j);
    if rem.contains(x) {
        let w = choose|w: int| 0 <= w < rem.len() && rem[w] == x;
        let orig = if w < j {
            w
        } else {
            w + 1
        };
        assert(cs[orig] == x);
        assert(cs.contains(cs[orig]));
        if x == id {
            assert(cs[orig] == cs[j]);
        }
    }
    if cs.contains(x) && x != id {
        let w = choose|w: int| 0 <= w < cs.len() && cs[w] == x;
        assert(w != j);
        if w < j {
            assert(rem[w] == x);
            assert(rem.contains(rem[w]));
        } else {
            assert(rem[w - 1] == x);
            assert(rem.contains(rem[w - 1]));
        }
    }
}

/// One step moves the joined set exactly as `joined_after` says, and keeps
/// the state well-formed.
proof fn lemma_step_membership(s: StateModel, c: CmdModel, x: u32)
    requires
        wf(s),
    ensures
        step(s, c).state.conns.contains(x) <==> match c {
            CmdModel::Join(id) => s.conns.contains(x) || id == x,
            CmdModel::Disconnect(id) => s.conns.contains(x) && id != x,
            CmdModel::Move(u, dx, dy) => s.conns.contains(x),
        },
{
    match c {
        CmdModel::Join(id) => {
            lemma_join_snapshot(s, id);
        },
        CmdModel::Disconnect(id) => {
            lemma_conn_index(s.conns, id);
            if conn_index(s.conns, id) >= 0 {
                lemma_remove_membership(s.conns, id, x);
            }
        },
        CmdModel::Move(u, dx, dy) => {
        },
    }
}

/// Replaying any command sequence keeps the state well-formed.
pub proof fn lemma_run_preserves_wf(s: StateModel, cs: Seq<CmdModel>)
    requires
        wf(s),
    ensures
        wf(run(s, cs)),
    decreases cs.len(),
{
    if cs.len() > 0 {
        lemma_run_preserves_wf(s, cs.drop_last());
        lemma_step_preserves_wf(run(s, cs.drop_last()), cs.last());
    }
}

/// Over any command history, the connection table holds exactly the ids
/// joined and not since disconnected.
pub proof fn lemma_run_tracks_membership(s: StateModel, cs: Seq<CmdModel>, x: u32)
    requires
        wf(s),
    ensures
        run(s, cs).conns.contains(x) <==> joined_after(s.conns, cs, x),
    decreases cs.len(),
{
    if cs.len() > 0 {
        lemma_run_tracks_membership(s, cs.drop_last(), x);
        lemma_run_preserves_wf(s, cs.drop_last());
        lemma_step_membership(run(s, cs.drop_last()), cs.last(), x);
    }
}

/// After any sequence of commands, the snapshot broadcast for the next join
/// lists exactly the connections joined and not yet disconnected at that
/// point, the joiner included.
pub proof fn lemma_join_snapshot_after_history(
    s: StateModel,
    cs: Seq<CmdModel>,
    id: u32,
    x: u32,
)
    requires
        wf(s),
    ensures
        ({
            let now = run(s, cs);
            let outcome = step(now, CmdModel::Join(id));
            &&& outcome.events[1] == EventModel::FullStateSent(outcome.state.conns, now.rects)
            &&& (outcome.state.conns.contains(x) <==> (joined_after(s.conns, cs, x) || x == id))
        }),
{
    let now = run(s, cs);
    lemma_run_preserves_wf(s, cs);
    lemma_run_tracks_membership(s, cs, x);
    lemma_join_snapshot(now, id);
}


/// An id that is out of the table stays out while no command joins it.
proof fn lemma_no_join_stays_out(init: Seq<u32>, cs: Seq<CmdModel>, id: u32)
    requires
        !init.contains(id),
        forall|k: int| 0 <= k < cs.len() ==> #[trigger] cs[k] != CmdModel::Join(id),
    ensures
        !joined_after(init, cs, id),
    decreases cs.len(),
{
    if cs.len() > 0 {
        assert(forall|k: int|
            0 <= k < cs.len() - 1 ==> #[trigger] cs.drop_last()[k] == cs[k]);
        lemma_no_join_stays_out(init, cs.drop_last(), id);
        assert(cs.last() == cs[cs.len() - 1]);
        assert(cs[cs.len() - 1] != CmdModel::Join(id));
    }
}

/// A disconnect of a joined id removes exactly that id, announces the fact
/// once — to the remaining connections only, since the broadcast set is the
/// resulting table — and touches no rectangle; and until some command joins
/// the id again, it stays out of the table, and so out of the snapshot of
/// every later `FullStateSent`.
pub proof fn lemma_disconnect_joined(s: StateModel, id: u32, cs: Seq<CmdModel>, x: u32)
    requires
        wf(s),
        s.conns.contains(id),
        forall|k: int| 0 <= k < cs.len() ==> #[trigger] cs[k] != CmdModel::Join(id),
    ensures
        step(s, CmdModel::Disconnect(id)).events == seq![EventModel::ClientDisconnected(id)],
        step(s, CmdModel::Disconnect(id)).state.rects == s.rects,
        step(s, CmdModel::Disconnect(id)).state.conns.contains(x) <==> (s.conns.contains(x) && x
            != id),
        !run(step(s, CmdModel::Disconnect(id)).state, cs).conns.contains(id),
{
    lemma_conn_index(s.conns, id);
    lemma_step_membership(s, CmdModel::Disconnect(id), x);
    lemma_step_membership(s, CmdModel::Disconnect(id), id);
    lemma_step_preserves_wf(s, CmdModel::Disconnect(id));
    let s1 = step(s, CmdModel::Disconnect(id)).state;
    lemma_run_tracks_membership(s1, cs, id);
    lemma_no_join_stays_out(s1.conns, cs, id);
}

} // verus!
