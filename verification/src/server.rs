//! The per-connection handler's decisions: what one loop iteration does
//! with whatever arrived first — a frame, a read failure, or the shutdown
//! signal. The surrounding select loop only performs the chosen action.

use vstd::prelude::*;

use crate::cmd::{spec_request, ReqView, Request};
use crate::connection;
use crate::database::Database;
use crate::frame::{Frame, FrameView};

verus! {

/// What one handler iteration woke up to.
pub enum Event {
    Received(Frame),
    ReadFailed(connection::Error),
    ShutdownRequested,
}

/// What the handler does about it: answer with one response frame and
/// keep serving, or stop serving this connection.
pub enum Action {
    Respond(Frame),
    Stop,
}

/// The response a request denotes against a given store, and the store it
/// leaves behind.
pub open spec fn spec_response(db: Map<Seq<char>, Seq<u8>>, req: ReqView) -> (
    FrameView,
    Map<Seq<char>, Seq<u8>>,
) {
    match req {
        ReqView::Get(key) => (
            if db.contains_key(key) {
                FrameView::Bulk(db[key])
            } else {
                FrameView::Null
            },
            db,
        ),
        ReqView::SetCommand(key, value) => (FrameView::Simple("OK"@), db.insert(key, value)),
    }
}

/// Decides one handler iteration. A shutdown signal, a read failure and a
/// peer close all stop the loop; a frame that is not a well-formed command
/// is a protocol violation and also stops it; a parsed command is applied
/// to the store and answered with exactly one response frame.
pub fn handle_event(db: &mut Database, ev: Event) -> (a: Action)
    requires
        old(db).distinct_keys(),
    ensures
        final(db).distinct_keys(),
        match ev {
            Event::Received(f) => match f@ {
                FrameView::Array(elems) => match spec_request(elems) {
                    Some(req) => a matches Action::Respond(resp) && resp@ == spec_response(
                        old(db)@,
                        req,
                    ).0 && final(db)@ == spec_response(old(db)@, req).1,
                    None => a is Stop && final(db)@ == old(db)@,
                },
                _ => a is Stop && final(db)@ == old(db)@,
            },
            Event::ReadFailed(_) => a is Stop && final(db)@ == old(db)@,
            Event::ShutdownRequested => a is Stop && final(db)@ == old(db)@,
        },
{
    match ev {
        Event::ShutdownRequested => Action::Stop,
        Event::ReadFailed(_) => Action::Stop,
        Event::Received(f) => {
            if !matches!(f, Frame::Array(_)) {
                return Action::Stop;
            }
            match Request::from_frame(f) {
                Ok(Request::Get(g)) => Action::Respond(g.apply(db)),
                Ok(Request::SetCommand(s)) => Action::Respond(s.apply(db)),
                Err(_) => Action::Stop,
            }
        },
    }
}

} // verus!
