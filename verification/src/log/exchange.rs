//! One request to the log writer and its reply, recorded as it went.
use vstd::prelude::*;
use std::sync::mpsc::Sender;

use super::open_channel;
use super::receive_value;
use super::reply_for;
use super::send_value;
use super::writer_reply;
use super::LogCommand;
use super::LogError;
use super::LogRequest;

verus! {

/// One exchange between a handle and the writer: the command sent, whether the request
/// reached the writer's channel, and what came back on the request's reply channel. Its
/// fields are private to this module, so the only exchanges that exist are those that
/// `exchange` records from the request it sends.
pub struct Exchange {
    command: LogCommand,
    sent: bool,
    received: Option<Result<(), LogError>>,
}

impl Exchange {
    /// The command that was sent to the writer.
    pub closed spec fn command(self) -> LogCommand {
        self.command
    }

    /// Whether the request reached the writer's channel.
    pub closed spec fn sent(self) -> bool {
        self.sent
    }

    /// What came back on the request's reply channel, if anything.
    pub closed spec fn received(self) -> Option<Result<(), LogError>> {
        self.received
    }
}

/// Sends `command` on `sender` with a fresh reply channel and waits for the reply on it;
/// the reply is `reply_for` whether the request was sent and what came back, and the
/// exchange records the command that the request carried.
pub fn exchange(sender: &Sender<LogRequest>, command: LogCommand) -> (out: (
    Result<(), LogError>,
    Ghost<Exchange>,
))
    ensures
        out.1@.command() == command,
        out.1@.sent() || out.1@.received() is None,
        out.0 == reply_for(out.1@.sent(), out.1@.received()),
{
    let (reply, replies) = open_channel();
    let request = LogRequest { command, reply };
    let ghost carried = request.command;
    let sent = send_value(sender, request);
    let received = if sent {
        receive_value(&replies)
    } else {
        None
    };
    let ghost came_back = received;
    let outcome = writer_reply(sent, received);
    (outcome, Ghost(Exchange { command: carried, sent, received: came_back }))
}

} // verus!
