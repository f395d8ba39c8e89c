//! The connection handle: one live transport, seen as a state machine.
//!
//! The handle never touches a socket. Each of its operations says what has
//! to happen next as a [`Command`]; whoever owns the socket carries the
//! command out and reports back what the transport did.
//!
//! Replies carry no identifier. The broker answers the calls of one
//! connection in the order in which they were sent, so the handle keeps the
//! slots of the calls that are still open in that order, and every reply
//! belongs to the oldest of them.

use crate::decoder::{IncomingGsbMessage, MessageView};
use crate::encoder::{encode, frame_encoding};
use crate::error::{Error, ErrorView};
use crate::gsb_api::{
    CallReply, CallReplyView, CallRequest, CallRequestView, RegisterRequest, RegisterRequestView,
    ReplyBody, ReplyBodyView,
};
use std::collections::VecDeque;
use vstd::prelude::*;

verus! {

/// A call as the application hands it in.
#[derive(Clone, Debug, PartialEq, Eq)]
pub struct RpcRawCall {
    pub caller: String,
    pub addr: String,
    pub body: Vec<u8>,
}

impl View for RpcRawCall {
    type V = CallRequestView;

    open spec fn view(&self) -> CallRequestView {
        CallRequestView { caller: self.caller@, address: self.addr@, body: self.body@ }
    }
}

/// What has to be done next. `S` is the slot on which a caller waits for the
/// outcome of its call; the state machines only ever move slots around.
#[derive(Debug, PartialEq, Eq)]
pub enum Command<S> {
    /// Write these bytes, exactly one frame, to the transport.
    Write(Vec<u8>),
    /// Hand this outcome to the caller that waits on the slot.
    Resolve(S, Result<Vec<u8>, Error>),
    /// Hand this request to the local dispatcher; what it answers goes back
    /// over the wire as a reply.
    Dispatch(CallRequest),
}

/// The mathematical content of a [`Command`].
pub enum CommandView<S> {
    Write(Seq<u8>),
    Resolve(S, Result<Seq<u8>, ErrorView>),
    Dispatch(CallRequestView),
}

impl<S> View for Command<S> {
    type V = CommandView<S>;

    open spec fn view(&self) -> CommandView<S> {
        match self {
            Command::Write(frame) => CommandView::Write(frame@),
            Command::Resolve(slot, outcome) => CommandView::Resolve(
                *slot,
                match outcome {
                    Ok(body) => Ok(body@),
                    Err(e) => Err(e@),
                },
            ),
            Command::Dispatch(request) => CommandView::Dispatch(request@),
        }
    }
}

/// The views of a run of commands, in order.
pub open spec fn command_views<S>(commands: Seq<Command<S>>) -> Seq<CommandView<S>> {
    Seq::new(commands.len(), |i: int| commands[i]@)
}

/// The frame that registers `service_id` at the broker.
pub open spec fn register_frame(service_id: Seq<char>) -> Seq<u8> {
    frame_encoding(MessageView::RegisterRequest(RegisterRequestView { service_id }))
}

/// The frame that carries a call to the broker.
pub open spec fn call_frame(call: CallRequestView) -> Seq<u8> {
    frame_encoding(MessageView::ServiceCallRequest(call))
}

/// The frame that carries the answer to a call back to the broker.
pub open spec fn reply_frame(body: ReplyBodyView) -> Seq<u8> {
    frame_encoding(MessageView::CallReply(CallReplyView { body }))
}

/// What a reply means for the caller: the bytes the service returned, or the
/// failure it reported, word for word.
pub open spec fn reply_outcome(body: ReplyBodyView) -> Result<Seq<u8>, ErrorView> {
    match body {
        ReplyBodyView::Data(data) => Ok(data),
        ReplyBodyView::Failure(reason) => Err(ErrorView::RemoteError(reason)),
    }
}

/// The command that tells a caller that its connection is gone.
pub open spec fn lost<S>(slot: S) -> CommandView<S> {
    CommandView::Resolve(slot, Err(ErrorView::Closed))
}

/// One [`lost`] for every slot, in order.
pub open spec fn all_lost<S>(slots: Seq<S>) -> Seq<CommandView<S>> {
    Seq::new(slots.len(), |i: int| lost(slots[i]))
}

/// The mathematical content of a [`Connection`].
pub struct ConnectionView<S> {
    /// The slots of the calls that were sent and not answered yet, oldest
    /// first.
    pub awaiting: Seq<S>,
    /// Whether the transport is still up.
    pub alive: bool,
}

impl<S> ConnectionView<S> {
    /// A fresh connection: up, and nothing sent yet.
    pub open spec fn fresh() -> Self {
        ConnectionView { awaiting: Seq::empty(), alive: true }
    }

    /// The handle after a call was handed to it.
    pub open spec fn call(self, slot: S) -> Self {
        if self.alive {
            ConnectionView { awaiting: self.awaiting.push(slot), alive: true }
        } else {
            self
        }
    }

    /// What the handle asks for when a call is handed to it: the call's
    /// frame on the wire, or, without a transport, the caller's failure.
    pub open spec fn call_command(self, call: CallRequestView, slot: S) -> CommandView<S> {
        if self.alive {
            CommandView::Write(call_frame(call))
        } else {
            lost(slot)
        }
    }

    /// Whether an incoming message answers a call of this handle.
    pub open spec fn answers(self, msg: MessageView) -> bool {
        self.alive && msg is CallReply && self.awaiting.len() > 0
    }

    /// The handle after a message came in: a reply takes the oldest open
    /// call off the list; nothing else changes anything.
    pub open spec fn receive(self, msg: MessageView) -> Self {
        if self.answers(msg) {
            ConnectionView { awaiting: self.awaiting.skip(1), alive: true }
        } else {
            self
        }
    }

    /// What the handle asks for when a message came in: a reply resolves
    /// the oldest open call, a request goes to the local dispatcher, and
    /// everything else is dropped.
    pub open spec fn receive_command(self, msg: MessageView) -> Option<CommandView<S>> {
        if !self.alive {
            None
        } else {
            match msg {
                MessageView::CallReply(reply) => if self.awaiting.len() > 0 {
                    Some(CommandView::Resolve(self.awaiting[0], reply_outcome(reply.body)))
                } else {
                    None
                },
                MessageView::ServiceCallRequest(request) => Some(CommandView::Dispatch(request)),
                _ => None,
            }
        }
    }

    /// The handle after its transport failed.
    pub open spec fn failed() -> Self {
        ConnectionView { awaiting: Seq::empty(), alive: false }
    }
}

/// One live transport: the calls that wait for their replies, and whether
/// the transport is still up.
pub struct Connection<S> {
    awaiting: VecDeque<S>,
    alive: bool,
}

impl<S> View for Connection<S> {
    type V = ConnectionView<S>;

    closed spec fn view(&self) -> ConnectionView<S> {
        ConnectionView { awaiting: self.awaiting@, alive: self.alive }
    }
}

impl<S> Connection<S> {
    /// The handle for a transport that has just been established.
    pub fn new() -> (connection: Self)
        ensures
            connection@ == ConnectionView::<S>::fresh(),
    {
        let connection = Connection { awaiting: VecDeque::new(), alive: true };
        assert(connection@.awaiting =~= Seq::empty());
        connection
    }

    /// Whether the transport is still up: true from establishment until a
    /// failure is reported.
    pub fn connected(&self) -> (up: bool)
        ensures
            up == self@.alive,
    {
        self.alive
    }

    /// How many calls wait for their reply.
    pub fn outstanding(&self) -> (n: usize)
        ensures
            n == self@.awaiting.len(),
    {
        self.awaiting.len()
    }

    /// Registers a service at the broker. Returns the frame to write, or
    /// `Closed` when the transport is gone. The handle does not wait for the
    /// broker to acknowledge.
    pub fn bind(&self, service_id: String) -> (r: Result<Vec<u8>, Error>)
        ensures
            match r {
                Ok(frame) => self@.alive && frame@ == register_frame(service_id@),
                Err(e) => !self@.alive && e@ == ErrorView::Closed,
            },
    {
        if self.alive {
            Ok(encode(&IncomingGsbMessage::RegisterRequest(RegisterRequest { service_id })))
        } else {
            Err(Error::Closed)
        }
    }

    /// Sends a call. With the transport up, the call's frame is to be
    /// written and the slot joins the end of the list of open calls;
    /// without it, the caller is told at once that the connection is gone.
    pub fn call(&mut self, call: RpcRawCall, slot: S) -> (command: Command<S>)
        ensures
            final(self)@ == old(self)@.call(slot),
            command@ == old(self)@.call_command(call@, slot),
    {
        if self.alive {
            let RpcRawCall { caller, addr, body } = call;
            let request = CallRequest { caller, address: addr, body };
            let frame = encode(&IncomingGsbMessage::ServiceCallRequest(request));
            self.awaiting.push_back(slot);
            Command::Write(frame)
        } else {
            Command::Resolve(slot, Err(Error::Closed))
        }
    }

    /// Takes a message that came in on the transport. A reply resolves the
    /// oldest open call; a request is to be handed to the local dispatcher;
    /// anything else, and anything that arrives for a handle whose transport
    /// is gone, is dropped.
    pub fn handle_message(&mut self, msg: IncomingGsbMessage) -> (command: Option<Command<S>>)
        ensures
            final(self)@ == old(self)@.receive(msg@),
            match command {
                Some(c) => old(self)@.receive_command(msg@) == Some(c@),
                None => old(self)@.receive_command(msg@) is None,
            },
    {
        if !self.alive {
            return None;
        }
        match msg {
            IncomingGsbMessage::CallReply(reply) => {
                match self.awaiting.pop_front() {
                    Some(slot) => {
                        let outcome = match reply.body {
                            ReplyBody::Data(data) => Ok(data),
                            ReplyBody::Failure(reason) => Err(Error::RemoteError(reason)),
                        };
                        assert(self.awaiting@ =~= old(self).awaiting@.skip(1));
                        Some(Command::Resolve(slot, outcome))
                    },
                    None => None,
                }
            },
            IncomingGsbMessage::ServiceCallRequest(request) => Some(Command::Dispatch(request)),
            _ => None,
        }
    }

    /// Answers a request that the local dispatcher has worked on: its result
    /// or its failure becomes the body of the reply. Returns the frame to
    /// write, or `Closed` when the transport is gone.
    pub fn reply(&self, body: ReplyBody) -> (r: Result<Vec<u8>, Error>)
        ensures
            match r {
                Ok(frame) => self@.alive && frame@ == reply_frame(body@),
                Err(e) => !self@.alive && e@ == ErrorView::Closed,
            },
    {
        if self.alive {
            Ok(encode(&IncomingGsbMessage::CallReply(CallReply { body })))
        } else {
            Err(Error::Closed)
        }
    }

    /// Takes note that the transport failed. The handle is dead from now
    /// on, and every call that was waiting for its reply is to be told that
    /// the connection is gone, oldest first.
    pub fn fail(&mut self) -> (commands: Vec<Command<S>>)
        ensures
            final(self)@ == ConnectionView::<S>::failed(),
            command_views(commands@) == all_lost(old(self)@.awaiting),
    {
        let ghost slots = self.awaiting@;
        let mut commands: Vec<Command<S>> = Vec::new();
        assert(command_views(commands@) =~= all_lost(slots.take(0)));
        assert(slots.skip(0) =~= slots);
        while self.awaiting.len() > 0
            invariant
                command_views(commands@).len() <= slots.len(),
                command_views(commands@) == all_lost(slots.take(commands@.len() as int)),
                self.awaiting@ == slots.skip(commands@.len() as int),
            decreases self.awaiting@.len(),
        {
            let ghost done = commands@.len() as int;
            let ghost before = command_views(commands@);
            match self.awaiting.pop_front() {
                Some(slot) => {
                    commands.push(Command::Resolve(slot, Err(Error::Closed)));
                    proof {
                        assert(slot == slots[done]);
                        assert(command_views(commands@) =~= before.push(lost(slot)));
                        assert(all_lost(slots.take(done + 1)) =~= all_lost(slots.take(done)).push(
                            lost(slots[done]),
                        ));
                        assert(self.awaiting@ =~= slots.skip(done + 1));
                    }
                },
                None => {},
            }
        }
        assert(slots.take(commands@.len() as int) =~= slots);
        assert(self.awaiting@ =~= Seq::empty());
        self.alive = false;
        commands
    }
}

} // verus!
