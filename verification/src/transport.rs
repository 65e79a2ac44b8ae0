//! The wire codec: `"<Kind>;<JSON payload>"` frames.
//!
//! Frames are UTF-8 text. The payload grammar is fixed per kind: object
//! keys in a fixed order, no whitespace, strings without escapes (so a
//! rectangle id may not carry `"` or `\`). Encoders write numbers in the
//! canonical decimal form of the `num` module; the decoder reads any
//! decimal spelling that grammar admits — integral, dotted, with trailing
//! zeros or surplus fraction digits alike, read to thousandths precision.
//! `translate_event_to_ws` is total over events; `translate_ws_to_command`
//! accepts exactly the frames of that grammar and reports every other frame
//! as a protocol error without crashing.

use crate::num::{
    append_milli, append_u64_dec, dec_digits, is_digit, is_num_text, milli_chars, num_shape,
    num_text_milli, num_val, MAX_COORD_MILLI,
};
use crate::session::{
    EventModel, MoveRectangleCommand, RectModel, SessionCommand, SessionEvent,
};
use vstd::prelude::*;

verus! {

/// A character a rectangle id may carry: anything but the two characters
/// that would need escaping inside a JSON string.
pub open spec fn is_uuid_safe(c: char) -> bool {
    c != '"' && c != '\\'
}

pub open spec fn uuid_safe(u: Seq<char>) -> bool {
    forall|i: int| 0 <= i < u.len() ==> is_uuid_safe(#[trigger] u[i])
}

/// A delta the wire grammar can carry.
pub open spec fn wire_milli(m: i64) -> bool {
    -MAX_COORD_MILLI <= m <= MAX_COORD_MILLI
}

/// The canonical `MoveRectangle` frame for the given fields.
pub open spec fn move_frame(u: Seq<char>, dx: i64, dy: i64) -> Seq<char> {
    "MoveRectangle;{\"uuid\":\""@ + u + "\",\"diff_x\":"@ + milli_chars(dx as int)
        + ",\"diff_y\":"@ + milli_chars(dy as int) + "}"@
}

pub open spec fn client_connected_frame(id: u32) -> Seq<char> {
    "ClientConnected;{\"id\":"@ + dec_digits(id as nat) + "}"@
}

pub open spec fn client_disconnected_frame(id: u32) -> Seq<char> {
    "ClientDisconnected;{\"id\":"@ + dec_digits(id as nat) + "}"@
}

pub open spec fn rectangle_moved_frame(u: Seq<char>, dx: i64, dy: i64) -> Seq<char> {
    "RectangleMoved;{\"uuid\":\""@ + u + "\",\"diff_x\":"@ + milli_chars(dx as int)
        + ",\"diff_y\":"@ + milli_chars(dy as int) + "}"@
}

/// One rectangle as a JSON object.
pub open spec fn rect_json(r: RectModel) -> Seq<char> {
    "{\"uuid\":\""@ + r.uuid + "\",\"width\":"@ + dec_digits(r.width as nat) + ",\"height\":"@
        + dec_digits(r.height as nat) + ",\"left\":"@ + milli_chars(r.left as int) + ",\"top\":"@
        + milli_chars(r.top as int) + "}"@
}

/// One joined connection as a JSON object entry, keyed by its id.
pub open spec fn conn_entry_json(id: u32) -> Seq<char> {
    "\""@ + dec_digits(id as nat) + "\":{\"id\":"@ + dec_digits(id as nat) + "}"@
}

/// One rectangle as a JSON object entry, keyed by its id.
pub open spec fn rect_entry_json(r: RectModel) -> Seq<char> {
    "\""@ + r.uuid + "\":"@ + rect_json(r)
}

/// The given texts joined with commas.
pub open spec fn comma_joined(entries: Seq<Seq<char>>) -> Seq<char>
    decreases entries.len(),
{
    if entries.len() == 0 {
        Seq::empty()
    } else if entries.len() == 1 {
        entries[0]
    } else {
        comma_joined(entries.drop_last()) + ","@ + entries.last()
    }
}

/// The canonical `StateSent` frame: the snapshot's connections and
/// rectangles, each as a JSON object keyed by id, in table order.
pub open spec fn state_sent_frame(ids: Seq<u32>, rects: Seq<RectModel>) -> Seq<char> {
    "StateSent;{\"connections\":{"@ + comma_joined(
        ids.map(|i: int, id: u32| conn_entry_json(id)),
    ) + "},\"rectangles\":{"@ + comma_joined(
        rects.map(|i: int, r: RectModel| rect_entry_json(r)),
    ) + "}}"@
}

/// The canonical frame of an event.
pub open spec fn event_frame(e: EventModel) -> Seq<char> {
    match e {
        EventModel::ClientConnected(id) => client_connected_frame(id),
        EventModel::ClientDisconnected(id) => client_disconnected_frame(id),
        EventModel::FullStateSent(ids, rects) => state_sent_frame(ids, rects),
        EventModel::RectangleMoved(u, dx, dy) => rectangle_moved_frame(u, dx, dy),
    }
}

/// Joins a wire kind tag and a payload body into one frame, separated by `;`.
pub fn encode_message(message_type: &str, message: &str) -> (r: String)
    ensures
        r@ == message_type@ + ";"@ + message@,
{
    let mut out = message_type.to_owned();
    out.append(";");
    out.append(message);
    out
}

fn append_uuid_field(out: &mut String, uuid: &String)
    ensures
        final(out)@ == old(out)@ + "{\"uuid\":\""@ + uuid@ + "\",\"diff_x\":"@,
{
    proof {
        reveal_strlit("{\"uuid\":\"");
        reveal_strlit("\",\"diff_x\":");
    }
    out.append("{\"uuid\":\"");
    out.append(uuid.as_str());
    out.append("\",\"diff_x\":");
}

fn append_deltas(out: &mut String, dx: i64, dy: i64)
    ensures
        final(out)@ == old(out)@ + milli_chars(dx as int) + ",\"diff_y\":"@ + milli_chars(
            dy as int,
        ) + "}"@,
{
    proof {
        reveal_strlit(",\"diff_y\":");
        reveal_strlit("}");
    }
    append_milli(out, dx);
    out.append(",\"diff_y\":");
    append_milli(out, dy);
    out.append("}");
}

/// Encodes a client command for the wire; the inverse of
/// `translate_ws_to_command` on the `MoveRectangle` kind.
pub fn translate_command_to_ws(command: &MoveRectangleCommand) -> (r: String)
    requires
        uuid_safe(command.uuid@),
    ensures
        r@ == move_frame(command.uuid@, command.diff_x, command.diff_y),
{
    proof {
        reveal_strlit("MoveRectangle;");
    }
    let mut out = String::new();
    out.append("MoveRectangle;");
    append_uuid_field(&mut out, &command.uuid);
    append_deltas(&mut out, command.diff_x, command.diff_y);
    proof {
        lemma_move_like_frame_shape();
        assert(out@ =~= move_frame(command.uuid@, command.diff_x, command.diff_y));
    }
    out
}

/// The two move-shaped frame spellings only differ in their kind tag.
proof fn lemma_move_like_frame_shape()
    ensures
        "MoveRectangle;{\"uuid\":\""@ =~= "MoveRectangle;"@ + "{\"uuid\":\""@,
        "RectangleMoved;{\"uuid\":\""@ =~= "RectangleMoved;"@ + "{\"uuid\":\""@,
{
    reveal_strlit("MoveRectangle;{\"uuid\":\"");
    reveal_strlit("RectangleMoved;{\"uuid\":\"");
    reveal_strlit("MoveRectangle;");
    reveal_strlit("RectangleMoved;");
    reveal_strlit("{\"uuid\":\"");
}

fn append_conn_entry(out: &mut String, id: u32)
    ensures
        final(out)@ == old(out)@ + conn_entry_json(id),
{
    proof {
        reveal_strlit("\"");
        reveal_strlit("\":{\"id\":");
        reveal_strlit("}");
    }
    out.append("\"");
    append_u64_dec(out, id as u64);
    out.append("\":{\"id\":");
    append_u64_dec(out, id as u64);
    out.append("}");
    proof {
        assert(out@ =~= old(out)@ + conn_entry_json(id));
    }
}

fn append_rect_entry(out: &mut String, rect: &crate::session::Rectangle)
    ensures
        final(out)@ == old(out)@ + rect_entry_json(rect@),
{
    proof {
        reveal_strlit("\"");
        reveal_strlit("\":");
        reveal_strlit("{\"uuid\":\"");
        reveal_strlit("\",\"width\":");
        reveal_strlit(",\"height\":");
        reveal_strlit(",\"left\":");
        reveal_strlit(",\"top\":");
        reveal_strlit("}");
    }
    out.append("\"");
    out.append(rect.uuid.as_str());
    out.append("\":");
    out.append("{\"uuid\":\"");
    out.append(rect.uuid.as_str());
    out.append("\",\"width\":");
    append_u64_dec(out, rect.width as u64);
    out.append(",\"height\":");
    append_u64_dec(out, rect.height as u64);
    out.append(",\"left\":");
    append_milli(out, rect.left);
    out.append(",\"top\":");
    append_milli(out, rect.top);
    out.append("}");
    proof {
        assert(out@ =~= old(out)@ + rect_entry_json(rect@));
    }
}

fn append_conn_entries(out: &mut String, conns: &Vec<crate::session::FullStateSentEventConnection>)
    ensures
        final(out)@ == old(out)@ + comma_joined(
            conns@.map(|i: int, c: crate::session::FullStateSentEventConnection| conn_entry_json(
                c.id,
            )),
        ),
{
    let ghost base = out@;
    let ghost entries = conns@.map(
        |i: int, c: crate::session::FullStateSentEventConnection| conn_entry_json(c.id),
    );
    let mut i: usize = 0;
    while i < conns.len()
        invariant
            i <= conns.len(),
            entries == conns@.map(
                |k: int, c: crate::session::FullStateSentEventConnection| conn_entry_json(c.id),
            ),
            out@ == base + comma_joined(entries.take(i as int)),
        decreases conns.len() - i,
    {
        if i > 0 {
            proof {
                reveal_strlit(",");
            }
            out.append(",");
        }
        append_conn_entry(out, conns[i].id);
        proof {
            let t2 = entries.take(i + 1 as int);
            assert(t2.drop_last() =~= entries.take(i as int));
            assert(t2.last() == entries[i as int]);
            if i == 0 {
                assert(comma_joined(t2) == entries[0]);
                assert(comma_joined(entries.take(0)) =~= Seq::<char>::empty());
            }
            assert(out@ =~= base + comma_joined(t2));
        }
        i += 1;
    }
    proof {
        assert(entries.take(conns@.len() as int) =~= entries);
    }
}

fn append_rect_entries(out: &mut String, rects: &Vec<crate::session::Rectangle>)
    ensures
        final(out)@ == old(out)@ + comma_joined(
            crate::session::rect_models(rects@).map(|i: int, r: RectModel| rect_entry_json(r)),
        ),
{
    let ghost base = out@;
    let ghost entries = crate::session::rect_models(rects@).map(
        |i: int, r: RectModel| rect_entry_json(r),
    );
    let mut i: usize = 0;
    while i < rects.len()
        invariant
            i <= rects.len(),
            entries == crate::session::rect_models(rects@).map(
                |k: int, r: RectModel| rect_entry_json(r),
            ),
            out@ == base + comma_joined(entries.take(i as int)),
        decreases rects.len() - i,
    {
        if i > 0 {
            proof {
                reveal_strlit(",");
            }
            out.append(",");
        }
        append_rect_entry(out, &rects[i]);
        proof {
            assert(entries[i as int] == rect_entry_json(rects@[i as int]@));
            let t2 = entries.take(i + 1 as int);
            assert(t2.drop_last() =~= entries.take(i as int));
            assert(t2.last() == entries[i as int]);
            if i == 0 {
                assert(comma_joined(t2) == entries[0]);
                assert(comma_joined(entries.take(0)) =~= Seq::<char>::empty());
            }
            assert(out@ =~= base + comma_joined(t2));
        }
        i += 1;
    }
    proof {
        assert(entries.take(rects@.len() as int) =~= entries);
    }
}

fn encode_client_connected(id: u32) -> (r: String)
    ensures
        r@ == client_connected_frame(id),
{
    proof {
        reveal_strlit("ClientConnected;{\"id\":");
        reveal_strlit("}");
    }
    let mut out = String::new();
    out.append("ClientConnected;{\"id\":");
    append_u64_dec(&mut out, id as u64);
    out.append("}");
    proof {
        assert(out@ =~= client_connected_frame(id));
    }
    out
}

fn encode_client_disconnected(id: u32) -> (r: String)
    ensures
        r@ == client_disconnected_frame(id),
{
    proof {
        reveal_strlit("ClientDisconnected;{\"id\":");
        reveal_strlit("}");
    }
    let mut out = String::new();
    out.append("ClientDisconnected;{\"id\":");
    append_u64_dec(&mut out, id as u64);
    out.append("}");
    proof {
        assert(out@ =~= client_disconnected_frame(id));
    }
    out
}

fn encode_rectangle_moved(m: &crate::session::RectangleMovedEvent) -> (r: String)
    ensures
        r@ == rectangle_moved_frame(m.uuid@, m.diff_x, m.diff_y),
{
    proof {
        reveal_strlit("RectangleMoved;");
    }
    let mut out = String::new();
    out.append("RectangleMoved;");
    append_uuid_field(&mut out, &m.uuid);
    append_deltas(&mut out, m.diff_x, m.diff_y);
    proof {
        lemma_move_like_frame_shape();
        assert(out@ =~= rectangle_moved_frame(m.uuid@, m.diff_x, m.diff_y));
    }
    out
}

fn encode_full_state(f: &crate::session::FullStateSentEvent) -> (r: String)
    ensures
        r@ == state_sent_frame(
            f.connections@.map(|i: int, c: crate::session::FullStateSentEventConnection| c.id),
            f.rectangles@.map(|i: int, x: crate::session::Rectangle| x@),
        ),
{
    proof {
        reveal_strlit("StateSent;{\"connections\":{");
        reveal_strlit("},\"rectangles\":{");
        reveal_strlit("}}");
    }
    let mut out = String::new();
    out.append("StateSent;{\"connections\":{");
    append_conn_entries(&mut out, &f.connections);
    out.append("},\"rectangles\":{");
    append_rect_entries(&mut out, &f.rectangles);
    out.append("}}");
    proof {
        let ids = f.connections@.map(
            |i: int, c: crate::session::FullStateSentEventConnection| c.id,
        );
        assert(ids.map(|i: int, id: u32| conn_entry_json(id)) =~= f.connections@.map(
            |i: int, c: crate::session::FullStateSentEventConnection| conn_entry_json(c.id),
        ));
        let rms = f.rectangles@.map(|i: int, x: crate::session::Rectangle| x@);
        assert(rms =~= crate::session::rect_models(f.rectangles@));
        assert(rms.map(|i: int, r: RectModel| rect_entry_json(r)) =~= crate::session::rect_models(
            f.rectangles@,
        ).map(|i: int, r: RectModel| rect_entry_json(r)));
        assert(out@ =~= state_sent_frame(ids, rms));
    }
    out
}

/// Encodes an event for the wire; total over all event variants.
pub fn translate_event_to_ws(event: SessionEvent) -> (r: String)
    ensures
        r@ == event_frame(event@),
{
    match event {
        SessionEvent::ClientConnected(id) => encode_client_connected(id),
        SessionEvent::ClientDisconnected(id) => encode_client_disconnected(id),
        SessionEvent::RectangleMoved(m) => encode_rectangle_moved(&m),
        SessionEvent::FullStateSent(f) => encode_full_state(&f),
    }
}

/// A frame the codec does not accept: wrong kind tag or malformed payload.
pub enum ProtocolError {
    InvalidFrame,
}

fn expect_at(s: &str, i: usize, n: usize, pat: &str) -> (r: Option<usize>)
    requires
        n == s@.len(),
        i <= n,
    ensures
        match r {
            Some(j) => j == i + pat@.len() && j <= n && s@.subrange(i as int, j as int) == pat@,
            None => !(i + pat@.len() <= n && s@.subrange(i as int, i + pat@.len()) == pat@),
        },
{
    let pl = pat.unicode_len();
    if pl > n - i {
        proof {
            if i + pat@.len() <= n {
                assert(false);
            }
        }
        return None;
    }
    let mut k: usize = 0;
    while k < pl
        invariant
            n == s@.len(),
            pl == pat@.len(),
            i + pl <= n,
            k <= pl,
            forall|m: int| 0 <= m < k ==> s@[i + m] == pat@[m],
        decreases pl - k,
    {
        let sc = s.get_char(i + k);
        let pc = pat.get_char(k);
        if sc != pc {
            proof {
                if s@.subrange(i as int, i + pat@.len()) == pat@ {
                    assert(s@.subrange(i as int, i + pat@.len())[k as int] == pat@[k as int]);
                }
            }
            return None;
        }
        k += 1;
    }
    proof {
        assert(s@.subrange(i as int, i + pat@.len()) =~= pat@);
    }
    Some(i + pl)
}

/// The body of a JSON string: everything up to the next quote, provided no
/// escape appears first.
fn scan_uuid(s: &str, start: usize, n: usize) -> (r: Option<(String, usize)>)
    requires
        n == s@.len(),
        start <= n,
    ensures
        (match r {
            Some(p) => {
                &&& start <= p.1 < n
                &&& p.0@ == s@.subrange(start as int, p.1 as int)
                &&& uuid_safe(p.0@)
                &&& s@[p.1 as int] == '"'
            },
            None => true,
        }),
        forall|endq: int|
            #![trigger s@.subrange(start as int, endq)]
            (start <= endq < n && s@[endq] == '"' && uuid_safe(s@.subrange(start as int, endq)))
                ==> (match r {
                Some(p) => p.1 == endq,
                None => false,
            }),
{
    let mut j: usize = start;
    while j < n
        invariant
            n == s@.len(),
            start <= j <= n,
            forall|m: int| start <= m < j ==> is_uuid_safe(#[trigger] s@[m]),
        decreases n - j,
    {
        let c = s.get_char(j);
        if c == '"' {
            let sub = s.substring_char(start, j);
            proof {
                assert(uuid_safe(s@.subrange(start as int, j as int)));
                assert forall|endq: int|
                    (start <= endq < n && s@[endq] == '"' && uuid_safe(
                        s@.subrange(start as int, endq),
                    )) implies endq == j by {
                    if endq < j {
                        assert(is_uuid_safe(s@[endq]));
                    }
                    if endq > j {
                        assert(s@.subrange(start as int, endq)[j - start] == s@[j as int]);
                        assert(is_uuid_safe(s@.subrange(start as int, endq)[j - start]));
                    }
                }
            }
            return Some((sub.to_owned(), j));
        }
        if c == '\\' {
            proof {
                assert forall|endq: int|
                    (start <= endq < n && s@[endq] == '"' && uuid_safe(
                        s@.subrange(start as int, endq),
                    )) implies false by {
                    if endq <= j {
                        assert(is_uuid_safe(s@[endq]));
                    } else {
                        assert(s@.subrange(start as int, endq)[j - start] == s@[j as int]);
                        assert(is_uuid_safe(s@.subrange(start as int, endq)[j - start]));
                    }
                }
            }
            return None;
        }
        j += 1;
    }
    proof {
        assert forall|endq: int|
            (start <= endq < n && s@[endq] == '"' && uuid_safe(s@.subrange(start as int, endq)))
            implies false by {
            assert(is_uuid_safe(s@[endq]));
        }
    }
    None
}

/// An accepted `MoveRectangle` frame: the fixed frame skeleton — kind tag,
/// key order, no whitespace, an unescaped id — around any number texts the
/// grammar reads.
pub open spec fn move_frame_text(sv: Seq<char>, u: Seq<char>, x: Seq<char>, y: Seq<char>) -> bool {
    &&& sv == "MoveRectangle;{\"uuid\":\""@ + u + "\",\"diff_x\":"@ + x + ",\"diff_y\":"@ + y
        + "}"@
    &&& uuid_safe(u)
    &&& is_num_text(x)
    &&& is_num_text(y)
}

/// Whether some accepted `MoveRectangle` frame spells this text.
pub open spec fn accepts_move_frame(sv: Seq<char>) -> bool {
    exists|u: Seq<char>, x: Seq<char>, y: Seq<char>| #[trigger] move_frame_text(sv, u, x, y)
}

/// Where each part of an accepted `MoveRectangle` frame sits.
proof fn lemma_frame_parts(sv: Seq<char>, u: Seq<char>, x: Seq<char>, y: Seq<char>)
    requires
        move_frame_text(sv, u, x, y),
    ensures
        ({
            let o1 = 23 + u.len() as int;
            let o2 = o1 + 11;
            let o3 = o2 + x.len() as int;
            let o4 = o3 + 10;
            let o5 = o4 + y.len() as int;
            &&& sv.len() == o5 + 1
            &&& sv.subrange(0, 23) == "MoveRectangle;{\"uuid\":\""@
            &&& sv.subrange(23, o1) == u
            &&& sv[o1] == '"'
            &&& sv.subrange(o1, o2) == "\",\"diff_x\":"@
            &&& sv.subrange(o2, o3) == x
            &&& sv[o3] == ','
            &&& sv.subrange(o3, o4) == ",\"diff_y\":"@
            &&& sv.subrange(o4, o5) == y
            &&& sv[o5] == '}'
        }),
{
    reveal_strlit("MoveRectangle;{\"uuid\":\"");
    reveal_strlit("\",\"diff_x\":");
    reveal_strlit(",\"diff_y\":");
    reveal_strlit("}");
    let p0 = "MoveRectangle;{\"uuid\":\""@;
    let p2 = "\",\"diff_x\":"@;
    let p4 = ",\"diff_y\":"@;
    let p6 = "}"@;
    assert(p0.len() == 23);
    assert(p2.len() == 11);
    assert(p4.len() == 10);
    assert(p6.len() == 1);
    let o1 = 23 + u.len() as int;
    let o2 = o1 + 11;
    let o3 = o2 + x.len() as int;
    let o4 = o3 + 10;
    let o5 = o4 + y.len() as int;
    assert(sv.subrange(0, 23) =~= p0);
    assert(sv.subrange(23, o1) =~= u);
    assert(sv.subrange(o1, o2) =~= p2);
    assert(sv.subrange(o2, o3) =~= x);
    assert(sv.subrange(o3, o4) =~= p4);
    assert(sv.subrange(o4, o5) =~= y);
    assert(sv[o1] == p2[0]);
    assert(sv[o3] == p4[0]);
    assert(sv[o5] == p6[0]);
}

/// The canonical frame of given fields is among the accepted frame texts,
/// and its number texts read back to the given deltas.
pub proof fn lemma_canonical_frame_text(sv: Seq<char>, u: Seq<char>, dx: i64, dy: i64)
    requires
        uuid_safe(u),
        wire_milli(dx),
        wire_milli(dy),
        sv == move_frame(u, dx, dy),
    ensures
        move_frame_text(sv, u, milli_chars(dx as int), milli_chars(dy as int)),
        num_text_milli(milli_chars(dx as int)) == dx as int,
        num_text_milli(milli_chars(dy as int)) == dy as int,
{
    crate::num::lemma_canonical_num_text(dx);
    crate::num::lemma_canonical_num_text(dy);
}

/// Decodes one wire frame into a command.
///
/// Returns `Ok` on a frame if and only if it is `move_frame_text`: the
/// `MoveRectangle` kind tag around a payload whose keys come in the fixed
/// order with no whitespace, whose id carries no escape, and whose deltas
/// are decimal numbers read to thousandths precision — integral, dotted,
/// with trailing zeros or surplus fraction digits alike. Every other frame
/// — unknown kind, malformed payload — is a protocol error, never a crash.
#[verifier::rlimit(100)]
pub fn translate_ws_to_command(message: &str) -> (r: Result<SessionCommand, ProtocolError>)
    ensures
        (match r {
            Ok(c) => {
                &&& c matches SessionCommand::MoveRectangle(mc)
                &&& uuid_safe(mc.uuid@)
                &&& wire_milli(mc.diff_x)
                &&& wire_milli(mc.diff_y)
                &&& accepts_move_frame(message@)
            },
            Err(_) => !accepts_move_frame(message@),
        }),
        forall|u: Seq<char>, x: Seq<char>, y: Seq<char>|
            #[trigger] move_frame_text(message@, u, x, y) ==> (match r {
                Ok(c) => c matches SessionCommand::MoveRectangle(mc) && mc.uuid@ == u
                    && mc.diff_x as int == num_text_milli(x) && mc.diff_y as int == num_text_milli(
                    y,
                ),
                Err(_) => false,
            }),
{
    proof {
        reveal_strlit("MoveRectangle;{\"uuid\":\"");
        reveal_strlit("\",\"diff_x\":");
        reveal_strlit(",\"diff_y\":");
        reveal_strlit("}");
        assert(('"' as u32) == 34);
        assert((',' as u32) == 44);
        assert(('}' as u32) == 125);
        assert(('.' as u32) == 46);
    }
    let n = message.unicode_len();
    let j1 = match expect_at(message, 0, n, "MoveRectangle;{\"uuid\":\"") {
        Some(j) => j,
        None => {
            proof {
                assert forall|u: Seq<char>, x: Seq<char>, y: Seq<char>|
                    #[trigger] move_frame_text(message@, u, x, y) implies false by {
                    lemma_frame_parts(message@, u, x, y);
                }
                assert(!accepts_move_frame(message@));
            }
            return Err(ProtocolError::InvalidFrame);
        },
    };
    let scanned = scan_uuid(message, j1, n);
    let (uuid, j2) = match scanned {
        Some(p) => p,
        None => {
            proof {
                assert forall|u: Seq<char>, x: Seq<char>, y: Seq<char>|
                    #[trigger] move_frame_text(message@, u, x, y) implies false by {
                    lemma_frame_parts(message@, u, x, y);
                    assert(message@.subrange(j1 as int, 23 + u.len() as int) == u);
                }
                assert(!accepts_move_frame(message@));
            }
            return Err(ProtocolError::InvalidFrame);
        },
    };
    let j3 = match expect_at(message, j2, n, "\",\"diff_x\":") {
        Some(j) => j,
        None => {
            proof {
                assert forall|u: Seq<char>, x: Seq<char>, y: Seq<char>|
                    #[trigger] move_frame_text(message@, u, x, y) implies false by {
                    lemma_frame_parts(message@, u, x, y);
                    assert(message@.subrange(j1 as int, 23 + u.len() as int) == u);
                    assert(j2 == 23 + u.len());
                }
                assert(!accepts_move_frame(message@));
            }
            return Err(ProtocolError::InvalidFrame);
        },
    };
    let parsed_dx = crate::num::parse_milli(message, j3, n);
    let (dx, j4) = match parsed_dx {
        Some(p) => p,
        None => {
            proof {
                assert forall|u: Seq<char>, x: Seq<char>, y: Seq<char>|
                    #[trigger] move_frame_text(message@, u, x, y) implies false by {
                    lemma_frame_parts(message@, u, x, y);
                    assert(message@.subrange(j1 as int, 23 + u.len() as int) == u);
                    assert(j2 == 23 + u.len());
                    let (nx, dsx, fsx, hx) = choose|nx: bool, dsx: Seq<char>, fsx: Seq<char>, hx: bool|
                        #[trigger] num_shape(x, nx, dsx, fsx, hx) && dsx.len() <= 12;
                    let o3 = j3 + x.len() as int;
                    assert(message@.subrange(j3 as int, o3) == x);
                    assert(num_shape(message@.subrange(j3 as int, o3), nx, dsx, fsx, hx));
                    assert(!is_digit(message@[o3]) && message@[o3] != '.');
                }
                assert(!accepts_move_frame(message@));
            }
            return Err(ProtocolError::InvalidFrame);
        },
    };
    let j5 = match expect_at(message, j4, n, ",\"diff_y\":") {
        Some(j) => j,
        None => {
            proof {
                assert forall|u: Seq<char>, x: Seq<char>, y: Seq<char>|
                    #[trigger] move_frame_text(message@, u, x, y) implies false by {
                    lemma_frame_parts(message@, u, x, y);
                    assert(message@.subrange(j1 as int, 23 + u.len() as int) == u);
                    assert(j2 == 23 + u.len());
                    let (nx, dsx, fsx, hx) = choose|nx: bool, dsx: Seq<char>, fsx: Seq<char>, hx: bool|
                        #[trigger] num_shape(x, nx, dsx, fsx, hx) && dsx.len() <= 12;
                    let o3 = j3 + x.len() as int;
                    assert(message@.subrange(j3 as int, o3) == x);
                    assert(num_shape(message@.subrange(j3 as int, o3), nx, dsx, fsx, hx));
                    assert(!is_digit(message@[o3]) && message@[o3] != '.');
                    assert(j4 == o3);
                }
                assert(!accepts_move_frame(message@));
            }
            return Err(ProtocolError::InvalidFrame);
        },
    };
    let parsed_dy = crate::num::parse_milli(message, j5, n);
    let (dy, j6) = match parsed_dy {
        Some(p) => p,
        None => {
            proof {
                assert forall|u: Seq<char>, x: Seq<char>, y: Seq<char>|
                    #[trigger] move_frame_text(message@, u, x, y) implies false by {
                    lemma_frame_parts(message@, u, x, y);
                    assert(message@.subrange(j1 as int, 23 + u.len() as int) == u);
                    assert(j2 == 23 + u.len());
                    let (nx, dsx, fsx, hx) = choose|nx: bool, dsx: Seq<char>, fsx: Seq<char>, hx: bool|
                        #[trigger] num_shape(x, nx, dsx, fsx, hx) && dsx.len() <= 12;
                    let o3 = j3 + x.len() as int;
                    assert(message@.subrange(j3 as int, o3) == x);
                    assert(num_shape(message@.subrange(j3 as int, o3), nx, dsx, fsx, hx));
                    assert(!is_digit(message@[o3]) && message@[o3] != '.');
                    assert(j4 == o3);
                    let (ny, dsy, fsy, hy) = choose|ny: bool, dsy: Seq<char>, fsy: Seq<char>, hy: bool|
                        #[trigger] num_shape(y, ny, dsy, fsy, hy) && dsy.len() <= 12;
                    let o5 = j5 + y.len() as int;
                    assert(message@.subrange(j5 as int, o5) == y);
                    assert(num_shape(message@.subrange(j5 as int, o5), ny, dsy, fsy, hy));
                    assert(!is_digit(message@[o5]) && message@[o5] != '.');
                }
                assert(!accepts_move_frame(message@));
            }
            return Err(ProtocolError::InvalidFrame);
        },
    };
    let j7 = match expect_at(message, j6, n, "}") {
        Some(j) => j,
        None => {
            proof {
                assert forall|u: Seq<char>, x: Seq<char>, y: Seq<char>|
                    #[trigger] move_frame_text(message@, u, x, y) implies false by {
                    lemma_frame_parts(message@, u, x, y);
                    assert(message@.subrange(j1 as int, 23 + u.len() as int) == u);
                    assert(j2 == 23 + u.len());
                    let (nx, dsx, fsx, hx) = choose|nx: bool, dsx: Seq<char>, fsx: Seq<char>, hx: bool|
                        #[trigger] num_shape(x, nx, dsx, fsx, hx) && dsx.len() <= 12;
                    let o3 = j3 + x.len() as int;
                    assert(message@.subrange(j3 as int, o3) == x);
                    assert(num_shape(message@.subrange(j3 as int, o3), nx, dsx, fsx, hx));
                    assert(!is_digit(message@[o3]) && message@[o3] != '.');
                    assert(j4 == o3);
                    let (ny, dsy, fsy, hy) = choose|ny: bool, dsy: Seq<char>, fsy: Seq<char>, hy: bool|
                        #[trigger] num_shape(y, ny, dsy, fsy, hy) && dsy.len() <= 12;
                    let o5 = j5 + y.len() as int;
                    assert(message@.subrange(j5 as int, o5) == y);
                    assert(num_shape(message@.subrange(j5 as int, o5), ny, dsy, fsy, hy));
                    assert(!is_digit(message@[o5]) && message@[o5] != '.');
                    assert(j6 == o5);
                    assert(message@.subrange(j6 as int, j6 + 1) =~= "}"@);
                }
                assert(!accepts_move_frame(message@));
            }
            return Err(ProtocolError::InvalidFrame);
        },
    };
    if j7 != n {
        proof {
            assert forall|u: Seq<char>, x: Seq<char>, y: Seq<char>|
                #[trigger] move_frame_text(message@, u, x, y) implies false by {
                lemma_frame_parts(message@, u, x, y);
                assert(message@.subrange(j1 as int, 23 + u.len() as int) == u);
                assert(j2 == 23 + u.len());
                let (nx, dsx, fsx, hx) = choose|nx: bool, dsx: Seq<char>, fsx: Seq<char>, hx: bool|
                    #[trigger] num_shape(x, nx, dsx, fsx, hx) && dsx.len() <= 12;
                let o3 = j3 + x.len() as int;
                assert(message@.subrange(j3 as int, o3) == x);
                assert(num_shape(message@.subrange(j3 as int, o3), nx, dsx, fsx, hx));
                assert(!is_digit(message@[o3]) && message@[o3] != '.');
                assert(j4 == o3);
                let (ny, dsy, fsy, hy) = choose|ny: bool, dsy: Seq<char>, fsy: Seq<char>, hy: bool|
                    #[trigger] num_shape(y, ny, dsy, fsy, hy) && dsy.len() <= 12;
                let o5 = j5 + y.len() as int;
                assert(message@.subrange(j5 as int, o5) == y);
                assert(num_shape(message@.subrange(j5 as int, o5), ny, dsy, fsy, hy));
                assert(!is_digit(message@[o5]) && message@[o5] != '.');
                assert(j6 == o5);
            }
            assert(!accepts_move_frame(message@));
        }
        return Err(ProtocolError::InvalidFrame);
    }
    proof {
        let xt = message@.subrange(j3 as int, j4 as int);
        let yt = message@.subrange(j5 as int, j6 as int);
        assert(message@ =~= "MoveRectangle;{\"uuid\":\""@ + uuid@ + "\",\"diff_x\":"@ + xt
            + ",\"diff_y\":"@ + yt + "}"@);
        assert(move_frame_text(message@, uuid@, xt, yt));
        assert(accepts_move_frame(message@));
        assert forall|u: Seq<char>, x: Seq<char>, y: Seq<char>|
            #[trigger] move_frame_text(message@, u, x, y) implies u == uuid@ && num_text_milli(x)
            == dx as int && num_text_milli(y) == dy as int by {
            lemma_frame_parts(message@, u, x, y);
            assert(message@.subrange(j1 as int, 23 + u.len() as int) == u);
            assert(j2 == 23 + u.len());
            assert(u =~= uuid@);
            let (nx, dsx, fsx, hx) = choose|nx: bool, dsx: Seq<char>, fsx: Seq<char>, hx: bool|
                #[trigger] num_shape(x, nx, dsx, fsx, hx) && dsx.len() <= 12;
            let o3 = j3 + x.len() as int;
            assert(message@.subrange(j3 as int, o3) == x);
            assert(num_shape(message@.subrange(j3 as int, o3), nx, dsx, fsx, hx));
            assert(!is_digit(message@[o3]) && message@[o3] != '.');
            assert(num_val(nx, dsx, fsx) == dx as int && j4 == o3);
            crate::num::lemma_num_text_val(x, nx, dsx, fsx, hx);
            let (ny, dsy, fsy, hy) = choose|ny: bool, dsy: Seq<char>, fsy: Seq<char>, hy: bool|
                #[trigger] num_shape(y, ny, dsy, fsy, hy) && dsy.len() <= 12;
            let o5 = j5 + y.len() as int;
            assert(message@.subrange(j5 as int, o5) == y);
            assert(num_shape(message@.subrange(j5 as int, o5), ny, dsy, fsy, hy));
            assert(!is_digit(message@[o5]) && message@[o5] != '.');
            assert(num_val(ny, dsy, fsy) == dy as int && j6 == o5);
            crate::num::lemma_num_text_val(y, ny, dsy, fsy, hy);
        }
    }
    Ok(SessionCommand::MoveRectangle(MoveRectangleCommand::new(uuid, dx, dy)))
}

} // verus!
