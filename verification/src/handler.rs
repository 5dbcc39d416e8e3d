use crate::command::{spec_apply, spec_command_from_frame, Command};
use crate::connection::ReadError;
use crate::database::Database;
use crate::frame::{Frame, SpecFrame};
use crate::metrics::{spec_counted, Metrics};
use vstd::prelude::*;

verus! {

/// What a connection's loop learned while waiting.
pub enum HandlerEvent {
    /// A whole frame arrived.
    Received(Frame),
    /// The bytes could not be read as a frame.
    ReadFailed(ReadError),
    /// Reading from the peer failed, with this message.
    IoFailed(String),
    /// The peer closed the connection cleanly.
    Disconnected,
    /// Nothing arrived within the idle timeout.
    TimedOut,
    /// The server is shutting down.
    Shutdown,
}

/// What a connection's loop does next.
pub enum HandlerAction {
    /// Send the frame and keep serving.
    Reply(Frame),
    /// Send the frame if possible, then drop the connection with an error.
    ReplyAndClose(Frame),
    /// Drop the connection with this error.
    Fail(&'static str),
    /// Drop the connection.
    Close,
}

/// The reply to a request, and the store's contents after it: the
/// command's reply, or an error frame when the request is no command.
pub open spec fn spec_respond(db: Map<Seq<char>, Seq<u8>>, request: SpecFrame) -> (
    Map<Seq<char>, Seq<u8>>,
    SpecFrame,
) {
    match spec_command_from_frame(request) {
        Ok(c) => spec_apply(db, c),
        Err(_) => (db, SpecFrame::Error("Wrong message: not a valid command"@)),
    }
}

/// Answers one request frame against the store, counting it.
pub fn respond(database: &mut Database, metrics: &mut Metrics, request: Frame) -> (reply: Frame)
    ensures
        (final(database)@, reply@) == spec_respond(old(database)@, request@),
        final(metrics)@ == spec_counted(old(metrics)@),
{
    metrics.inc_total_requests();
    match Command::from_frame(request) {
        Ok(command) => command.apply(database),
        Err(_) => Frame::Error("Wrong message: not a valid command".to_owned()),
    }
}

/// Decides what a connection does after an event: a request is answered,
/// a read error, of the frame or of the transport, is reported to the peer
/// before the connection is dropped,
/// an idle timeout drops the connection with an error, and a clean close or
/// a shutdown drop it without one.
pub fn handle_event(database: &mut Database, metrics: &mut Metrics, event: HandlerEvent) -> (action: HandlerAction)
    ensures
        match event {
            HandlerEvent::Received(request) => {
                &&& action matches HandlerAction::Reply(reply)
                &&& (final(database)@, action->Reply_0@) == spec_respond(old(database)@, request@)
                &&& final(metrics)@ == spec_counted(old(metrics)@)
            },
            HandlerEvent::ReadFailed(e) => {
                &&& action matches HandlerAction::ReplyAndClose(reply)
                &&& action->ReplyAndClose_0@ == SpecFrame::Error(e.message()@)
                &&& final(database)@ == old(database)@
                &&& final(metrics)@ == old(metrics)@
            },
            HandlerEvent::IoFailed(message) => {
                &&& action matches HandlerAction::ReplyAndClose(reply)
                &&& action->ReplyAndClose_0@ == SpecFrame::Error(message@)
                &&& final(database)@ == old(database)@
                &&& final(metrics)@ == old(metrics)@
            },
            HandlerEvent::TimedOut => {
                &&& action == HandlerAction::Fail("Timeout error! Server idle for too long")
                &&& final(database)@ == old(database)@
                &&& final(metrics)@ == old(metrics)@
            },
            _ => {
                &&& action is Close
                &&& final(database)@ == old(database)@
                &&& final(metrics)@ == old(metrics)@
            },
        },
{
    match event {
        HandlerEvent::Received(request) => HandlerAction::Reply(respond(database, metrics, request)),
        HandlerEvent::ReadFailed(e) => HandlerAction::ReplyAndClose(Frame::Error(e.to_string())),
        HandlerEvent::IoFailed(message) => HandlerAction::ReplyAndClose(Frame::Error(message)),
        HandlerEvent::TimedOut => HandlerAction::Fail("Timeout error! Server idle for too long"),
        _ => HandlerAction::Close,
    }
}

} // verus!
