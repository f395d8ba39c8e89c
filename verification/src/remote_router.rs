//! The router: bindings, queued calls and the one connection to the broker.
//!
//! The router is a state machine. It is told what happened (a service was
//! bound, a call was submitted, the transport came up, failed, delivered a
//! message) and answers with the [`Command`]s to carry out. It starts
//! disconnected; calls submitted without a connection wait in a queue, and
//! the moment a connection is established every binding is registered again
//! and the queue is sent, oldest call first.
//!
//! After a failure the router is disconnected and stays so until it is asked
//! to connect again. The queue has no bound.

use crate::connection::{
    Command, CommandView, Connection, ConnectionView, RpcRawCall, all_lost, call_frame,
    command_views, register_frame, reply_frame,
};
use crate::decoder::{IncomingGsbMessage, MessageView};
use crate::gsb_api::{CallRequestView, ReplyBody, ReplyBodyView};
use std::collections::VecDeque;
use vstd::prelude::*;

verus! {

/// Where the broker listens unless told otherwise.
pub const DEFAULT_URL: &'static str = "127.0.0.1:8245";

/// The address of the broker.
pub fn gsb_addr() -> (addr: &'static str)
    ensures
        addr@ == DEFAULT_URL@,
{
    DEFAULT_URL
}

/// A change to the set of services that this process offers.
#[derive(Clone, Debug, PartialEq, Eq)]
pub enum UpdateService {
    Add(String),
    Remove(String),
}

/// The mathematical content of an [`UpdateService`].
pub enum UpdateServiceView {
    Add(Seq<char>),
    Remove(Seq<char>),
}

impl View for UpdateService {
    type V = UpdateServiceView;

    open spec fn view(&self) -> UpdateServiceView {
        match self {
            UpdateService::Add(id) => UpdateServiceView::Add(id@),
            UpdateService::Remove(id) => UpdateServiceView::Remove(id@),
        }
    }
}

/// The state of the router's link to the broker.
pub enum LinkView<S> {
    /// No transport, and none being set up.
    Disconnected,
    /// A transport is being set up.
    Connecting,
    /// A transport is up; this is its handle.
    Connected(ConnectionView<S>),
}

/// The mathematical content of a [`RemoteRouter`].
pub struct RouterView<S> {
    /// The services to register on every connect, in the order in which
    /// they were first bound.
    pub bindings: Seq<Seq<char>>,
    /// The calls that wait for a connection, oldest first, each with the
    /// slot of its caller.
    pub pending: Seq<(CallRequestView, S)>,
    /// The link to the broker.
    pub link: LinkView<S>,
}

/// One frame per binding, in order: what registers them all.
pub open spec fn replay<S>(bindings: Seq<Seq<char>>) -> Seq<CommandView<S>> {
    Seq::new(bindings.len(), |i: int| CommandView::Write(register_frame(bindings[i])))
}

/// One frame per queued call, in order: what sends them all.
pub open spec fn dispatch<S>(pending: Seq<(CallRequestView, S)>) -> Seq<CommandView<S>> {
    Seq::new(pending.len(), |i: int| CommandView::Write(call_frame(pending[i].0)))
}

/// The slots of a run of queued calls, in order.
pub open spec fn slots_of<S>(pending: Seq<(CallRequestView, S)>) -> Seq<S> {
    Seq::new(pending.len(), |i: int| pending[i].1)
}

/// The bindings without any entry equal to `id`, the others in their order.
pub open spec fn without(bindings: Seq<Seq<char>>, id: Seq<char>) -> Seq<Seq<char>>
    decreases bindings.len(),
{
    if bindings.len() == 0 {
        Seq::empty()
    } else if bindings.last() == id {
        without(bindings.drop_last(), id)
    } else {
        without(bindings.drop_last(), id).push(bindings.last())
    }
}

/// What is left after unbinding `id` is exactly what was bound and is not
/// `id`, and nothing occurs twice that did not before.
pub proof fn lemma_without(bindings: Seq<Seq<char>>, id: Seq<char>)
    ensures
        forall|b: Seq<char>|
            #![trigger without(bindings, id).contains(b)]
            without(bindings, id).contains(b) <==> bindings.contains(b) && b != id,
        bindings.no_duplicates() ==> without(bindings, id).no_duplicates(),
    decreases bindings.len(),
{
    if bindings.len() > 0 {
        let front = bindings.drop_last();
        let last = bindings.last();
        let kept = without(front, id);
        lemma_without(front, id);
        assert forall|b: Seq<char>| #![trigger without(bindings, id).contains(b)]
            without(bindings, id).contains(b) <==> bindings.contains(b) && b != id by {
            if bindings.contains(b) {
                let j = choose|j: int| 0 <= j < bindings.len() && bindings[j] == b;
                if j < front.len() {
                    assert(front[j] == b);
                    assert(front.contains(b));
                }
            }
            if front.contains(b) {
                let j = choose|j: int| 0 <= j < front.len() && front[j] == b;
                assert(bindings[j] == b);
            }
            if last != id {
                if kept.contains(b) {
                    let j = choose|j: int| 0 <= j < kept.len() && kept[j] == b;
                    assert(kept.push(last)[j] == b);
                }
                if kept.push(last).contains(b) {
                    let j = choose|j: int| 0 <= j < kept.push(last).len() && kept.push(last)[j] == b;
                    if j < kept.len() {
                        assert(kept[j] == b);
                    }
                }
                assert(kept.push(last)[kept.len() as int] == last);
                assert(bindings[bindings.len() - 1] == last);
            }
        }
        if bindings.no_duplicates() && last != id {
            assert(front.no_duplicates());
            assert(!front.contains(last)) by {
                if front.contains(last) {
                    let j = choose|j: int| 0 <= j < front.len() && front[j] == last;
                    assert(bindings[j] == bindings[bindings.len() - 1]);
                }
            }
            assert(!kept.contains(last));
            assert forall|i: int, j: int|
                0 <= i < kept.push(last).len() && 0 <= j < kept.push(last).len() && i
                    != j implies kept.push(last)[i] != kept.push(last)[j] by {
                if i < kept.len() && j == kept.len() {
                    assert(kept.contains(kept[i]));
                }
                if j < kept.len() && i == kept.len() {
                    assert(kept.contains(kept[j]));
                }
            }
        }
    }
}

impl<S> RouterView<S> {
    /// A router that has just been created.
    pub open spec fn initial() -> Self {
        RouterView { bindings: Seq::empty(), pending: Seq::empty(), link: LinkView::Disconnected }
    }

    /// What every router that was built through its operations satisfies:
    /// no service is bound twice, and calls wait in the queue only while
    /// there is no connection.
    pub open spec fn well_formed(self) -> bool {
        &&& self.bindings.no_duplicates()
        &&& self.link is Connected ==> self.pending.len() == 0
    }

    /// Whether a service is bound.
    pub open spec fn is_bound(self, id: Seq<char>) -> bool {
        self.bindings.contains(id)
    }

    /// Asked to connect: a disconnected router starts connecting.
    pub open spec fn try_connect(self) -> Self {
        match self.link {
            LinkView::Disconnected => RouterView { link: LinkView::Connecting, ..self },
            _ => self,
        }
    }

    /// The transport came up: a connecting router installs a fresh handle
    /// and hands it the queue.
    pub open spec fn established(self) -> Self {
        match self.link {
            LinkView::Connecting => RouterView {
                bindings: self.bindings,
                pending: Seq::empty(),
                link: LinkView::Connected(
                    ConnectionView { awaiting: slots_of(self.pending), alive: true },
                ),
            },
            _ => self,
        }
    }

    /// What is to be written when the transport came up: first the
    /// registration of every binding, then every queued call, oldest first.
    pub open spec fn established_commands(self) -> Seq<CommandView<S>> {
        match self.link {
            LinkView::Connecting => replay(self.bindings) + dispatch(self.pending),
            _ => Seq::empty(),
        }
    }

    /// The transport could not be set up: a connecting router is
    /// disconnected again, with its bindings and its queue as they were.
    pub open spec fn connect_failed(self) -> Self {
        match self.link {
            LinkView::Connecting => RouterView { link: LinkView::Disconnected, ..self },
            _ => self,
        }
    }

    /// A service was bound or unbound.
    pub open spec fn update(self, msg: UpdateServiceView) -> Self {
        match msg {
            UpdateServiceView::Add(id) => if self.bindings.contains(id) {
                self
            } else {
                RouterView { bindings: self.bindings.push(id), ..self }
            },
            UpdateServiceView::Remove(id) => RouterView {
                bindings: without(self.bindings, id),
                ..self
            },
        }
    }

    /// What is to be written when a service was bound or unbound: with a
    /// live connection a binding is registered at once; unbinding tells the
    /// broker nothing.
    pub open spec fn update_commands(self, msg: UpdateServiceView) -> Seq<CommandView<S>> {
        match (msg, self.link) {
            (UpdateServiceView::Add(id), LinkView::Connected(c)) => if c.alive {
                seq![CommandView::Write(register_frame(id))]
            } else {
                Seq::empty()
            },
            _ => Seq::empty(),
        }
    }

    /// A call was submitted: with a connection it goes to the handle,
    /// without one it joins the end of the queue.
    pub open spec fn submit(self, call: CallRequestView, slot: S) -> Self {
        match self.link {
            LinkView::Connected(c) => RouterView { link: LinkView::Connected(c.call(slot)), ..self },
            _ => RouterView { pending: self.pending.push((call, slot)), ..self },
        }
    }

    /// What is to be done when a call was submitted: with a connection,
    /// what the handle asks for; without one, nothing yet.
    pub open spec fn submit_commands(self, call: CallRequestView, slot: S) -> Seq<CommandView<S>> {
        match self.link {
            LinkView::Connected(c) => seq![c.call_command(call, slot)],
            _ => Seq::empty(),
        }
    }

    /// What is to be written to answer a request: the reply, if there is a
    /// live connection to write it to.
    pub open spec fn answer_commands(self, body: ReplyBodyView) -> Seq<CommandView<S>> {
        match self.link {
            LinkView::Connected(c) => if c.alive {
                seq![CommandView::Write(reply_frame(body))]
            } else {
                Seq::empty()
            },
            _ => Seq::empty(),
        }
    }

    /// A message came in on the transport.
    pub open spec fn receive(self, msg: MessageView) -> Self {
        match self.link {
            LinkView::Connected(c) => RouterView {
                link: LinkView::Connected(c.receive(msg)),
                ..self
            },
            _ => self,
        }
    }

    /// What is to be done when a message came in: what the handle asks for.
    pub open spec fn receive_commands(self, msg: MessageView) -> Seq<CommandView<S>> {
        match self.link {
            LinkView::Connected(c) => match c.receive_command(msg) {
                Some(command) => seq![command],
                None => Seq::empty(),
            },
            _ => Seq::empty(),
        }
    }

    /// The transport failed: a connected router is disconnected.
    pub open spec fn connection_lost(self) -> Self {
        match self.link {
            LinkView::Connected(_) => RouterView { link: LinkView::Disconnected, ..self },
            _ => self,
        }
    }

    /// What is to be done when the transport failed: every call that was
    /// waiting for its reply is told that the connection is gone.
    pub open spec fn connection_lost_commands(self) -> Seq<CommandView<S>> {
        match self.link {
            LinkView::Connected(c) => all_lost(c.awaiting),
            _ => Seq::empty(),
        }
    }

    /// The router is restarted: a handle whose transport is gone is
    /// dropped; anything else stays.
    pub open spec fn restarting(self) -> Self {
        match self.link {
            LinkView::Connected(c) => if c.alive {
                self
            } else {
                RouterView { link: LinkView::Disconnected, ..self }
            },
            _ => self,
        }
    }

    /// What is to be done on a restart: whoever still waited on the handle
    /// that is dropped is told that the connection is gone.
    pub open spec fn restarting_commands(self) -> Seq<CommandView<S>> {
        match self.link {
            LinkView::Connected(c) => if c.alive {
                Seq::empty()
            } else {
                all_lost(c.awaiting)
            },
            _ => Seq::empty(),
        }
    }

    /// The router is torn down: no connection, nothing queued. The
    /// bindings stay.
    pub open spec fn stopped(self) -> Self {
        RouterView { bindings: self.bindings, pending: Seq::empty(), link: LinkView::Disconnected }
    }

    /// What is to be done when the router is torn down: every caller that
    /// still waits, on the handle or in the queue, is told that the
    /// connection is gone.
    pub open spec fn stopped_commands(self) -> Seq<CommandView<S>> {
        self.connection_lost_commands() + all_lost(slots_of(self.pending))
    }
}

/// The link to the broker.
enum Link<S> {
    Disconnected,
    Connecting,
    Connected(Connection<S>),
}

impl<S> View for Link<S> {
    type V = LinkView<S>;

    closed spec fn view(&self) -> LinkView<S> {
        match self {
            Link::Disconnected => LinkView::Disconnected,
            Link::Connecting => LinkView::Connecting,
            Link::Connected(c) => LinkView::Connected(c@),
        }
    }
}

/// The views of the bindings, in order.
pub open spec fn binding_views(bindings: Seq<String>) -> Seq<Seq<char>> {
    Seq::new(bindings.len(), |i: int| bindings[i]@)
}

/// The views of the queued calls, in order.
pub open spec fn pending_views<S>(pending: Seq<(RpcRawCall, S)>) -> Seq<(CallRequestView, S)> {
    Seq::new(pending.len(), |i: int| (pending[i].0@, pending[i].1))
}

/// Taking the oldest call off the queue takes its view off the views.
proof fn lemma_pending_views_rest<S>(queue: Seq<(RpcRawCall, S)>)
    requires
        queue.len() > 0,
    ensures
        pending_views(queue.subrange(1, queue.len() as int)) == pending_views(queue).skip(1),
{
    let rest = queue.subrange(1, queue.len() as int);
    assert forall|i: int| 0 <= i < rest.len() implies pending_views(rest)[i] == pending_views(
        queue,
    ).skip(1)[i] by {
        assert(rest[i] == queue[i + 1]);
    }
    assert(pending_views(rest) =~= pending_views(queue).skip(1));
}

/// The client's end of the bus.
pub struct RemoteRouter<S> {
    local_bindings: Vec<String>,
    pending_calls: VecDeque<(RpcRawCall, S)>,
    connection: Link<S>,
}

impl<S> View for RemoteRouter<S> {
    type V = RouterView<S>;

    closed spec fn view(&self) -> RouterView<S> {
        RouterView {
            bindings: binding_views(self.local_bindings@),
            pending: pending_views(self.pending_calls@),
            link: self.connection@,
        }
    }
}

impl<S> RemoteRouter<S> {
    /// A router with no binding, no queued call and no connection.
    pub fn new() -> (router: Self)
        ensures
            router@ == RouterView::<S>::initial(),
            router@.well_formed(),
    {
        let router = RemoteRouter {
            local_bindings: Vec::new(),
            pending_calls: VecDeque::new(),
            connection: Link::Disconnected,
        };
        assert(router@.bindings =~= Seq::empty());
        assert(router@.pending =~= Seq::empty());
        router
    }

    /// Whether the router holds a handle whose transport is up.
    pub fn connected(&self) -> (up: bool)
        ensures
            up == (self@.link matches LinkView::Connected(c) && c.alive),
    {
        match &self.connection {
            Link::Connected(c) => c.connected(),
            _ => false,
        }
    }

    /// Whether a transport is being set up.
    pub fn connecting(&self) -> (yes: bool)
        ensures
            yes == (self@.link is Connecting),
    {
        match &self.connection {
            Link::Connecting => true,
            _ => false,
        }
    }

    /// How many calls wait in the queue.
    pub fn queue_depth(&self) -> (n: usize)
        ensures
            n == self@.pending.len(),
    {
        self.pending_calls.len()
    }

    /// How many calls wait for their reply on the current connection.
    pub fn outstanding(&self) -> (n: usize)
        ensures
            n == match self@.link {
                LinkView::Connected(c) => c.awaiting.len(),
                _ => 0,
            },
    {
        match &self.connection {
            Link::Connected(c) => c.outstanding(),
            _ => 0,
        }
    }

    /// Whether a service is bound.
    pub fn is_bound(&self, service_id: &String) -> (found: bool)
        ensures
            found == self@.is_bound(service_id@),
    {
        let ghost all = binding_views(self.local_bindings@);
        let mut i: usize = 0;
        while i < self.local_bindings.len()
            invariant
                i <= self.local_bindings.len(),
                all == binding_views(self.local_bindings@),
                forall|j: int| 0 <= j < i ==> all[j] != service_id@,
            decreases self.local_bindings.len() - i,
        {
            if self.local_bindings[i] == *service_id {
                assert(all[i as int] == service_id@);
                return true;
            }
            i = i + 1;
        }
        false
    }

    /// The bound services, in the order in which they were first bound.
    pub fn bindings(&self) -> (list: Vec<String>)
        ensures
            binding_views(list@) == self@.bindings,
    {
        let mut list: Vec<String> = Vec::new();
        let mut i: usize = 0;
        while i < self.local_bindings.len()
            invariant
                i <= self.local_bindings.len(),
                binding_views(list@) == binding_views(self.local_bindings@).take(i as int),
            decreases self.local_bindings.len() - i,
        {
            let ghost before = binding_views(list@);
            list.push(self.local_bindings[i].clone());
            assert(binding_views(list@) =~= before.push(self.local_bindings@[i as int]@));
            assert(binding_views(self.local_bindings@).take(i + 1) =~= binding_views(
                self.local_bindings@,
            ).take(i as int).push(self.local_bindings@[i as int]@));
            i = i + 1;
        }
        assert(binding_views(self.local_bindings@).take(i as int) =~= binding_views(
            self.local_bindings@,
        ));
        list
    }

    /// The router comes to life: it asks for a connection.
    pub fn started(&mut self) -> (connect: bool)
        ensures
            final(self)@ == old(self)@.try_connect(),
            connect == (old(self)@.link is Disconnected),
            old(self)@.well_formed() ==> final(self)@.well_formed(),
    {
        self.try_connect()
    }

    /// Asks for a connection. Returns whether a transport is to be set up
    /// now: that is so when the router was disconnected. A router that is
    /// connecting or connected stays as it is.
    pub fn try_connect(&mut self) -> (connect: bool)
        ensures
            final(self)@ == old(self)@.try_connect(),
            connect == (old(self)@.link is Disconnected),
            old(self)@.well_formed() ==> final(self)@.well_formed(),
    {
        match &self.connection {
            Link::Disconnected => {
                self.connection = Link::Connecting;
                true
            },
            _ => false,
        }
    }

    /// The transport came up. A connecting router installs a fresh handle,
    /// registers every binding and then sends every queued call, oldest
    /// first; the callers' slots wait on the handle from now on. In any
    /// other state nothing happens.
    pub fn established(&mut self) -> (commands: Vec<Command<S>>)
        ensures
            final(self)@ == old(self)@.established(),
            command_views(commands@) == old(self)@.established_commands(),
            old(self)@.well_formed() ==> final(self)@.well_formed(),
    {
        let mut commands: Vec<Command<S>> = Vec::new();
        assert(command_views(commands@) =~= Seq::empty());
        match &self.connection {
            Link::Connecting => {},
            _ => {
                return commands;
            },
        }
        let ghost bindings = self@.bindings;
        let ghost pending = self@.pending;
        let mut connection: Connection<S> = Connection::new();
        let mut i: usize = 0;
        assert(replay::<S>(bindings.take(0)) =~= Seq::empty());
        while i < self.local_bindings.len()
            invariant
                i <= self.local_bindings.len(),
                bindings == binding_views(self.local_bindings@),
                connection@ == ConnectionView::<S>::fresh(),
                command_views(commands@) == replay::<S>(bindings.take(i as int)),
            decreases self.local_bindings.len() - i,
        {
            let ghost before = command_views(commands@);
            match connection.bind(self.local_bindings[i].clone()) {
                Ok(frame) => {
                    commands.push(Command::Write(frame));
                },
                Err(_) => {},
            }
            proof {
                let added = CommandView::<S>::Write(register_frame(bindings[i as int]));
                assert(command_views(commands@) =~= before.push(added));
                assert(replay::<S>(bindings.take(i + 1)) =~= replay::<S>(bindings.take(i as int)).push(
                    added,
                ));
            }
            i = i + 1;
        }
        assert(bindings.take(i as int) =~= bindings);
        let ghost sent = command_views(commands@);
        assert(sent + dispatch(pending.take(0)) =~= sent);
        assert(slots_of(pending.take(0)) =~= Seq::<S>::empty());
        assert(pending.skip(0) =~= pending);
        let ghost mut done: int = 0;
        while self.pending_calls.len() > 0
            invariant
                0 <= done <= pending.len(),
                pending_views(self.pending_calls@) == pending.skip(done),
                binding_views(self.local_bindings@) == bindings,
                connection@ == (ConnectionView { awaiting: slots_of(pending.take(done)), alive: true }),
                command_views(commands@) == sent + dispatch(pending.take(done)),
            decreases self.pending_calls@.len(),
        {
            let ghost before = command_views(commands@);
            let ghost queue = self.pending_calls@;
            match self.pending_calls.pop_front() {
                Some(entry) => {
                    let (call, slot) = entry;
                    proof {
                        assert(pending_views(queue).len() == queue.len());
                        assert(pending.skip(done).len() == pending.len() - done);
                        assert(pending_views(queue)[0] == pending.skip(done)[0]);
                        assert(pending_views(queue)[0] == (queue[0].0@, queue[0].1));
                        assert((call@, slot) == pending[done]);
                    }
                    let command = connection.call(call, slot);
                    commands.push(command);
                    proof {
                        let added = CommandView::<S>::Write(call_frame(pending[done].0));
                        assert(command_views(commands@) =~= before.push(added));
                        assert(dispatch(pending.take(done + 1)) =~= dispatch(pending.take(done)).push(
                            added,
                        ));
                        assert(slots_of(pending.take(done + 1)) =~= slots_of(pending.take(done)).push(
                            pending[done].1,
                        ));
                        lemma_pending_views_rest(queue);
                        assert(pending.skip(done).skip(1) =~= pending.skip(done + 1));
                        assert(sent + dispatch(pending.take(done)).push(added) =~= (sent + dispatch(
                            pending.take(done),
                        )).push(added));
                        done = done + 1;
                    }
                },
                None => {},
            }
        }
        assert(pending_views(self.pending_calls@).len() == 0);
        assert(pending.skip(done).len() == pending.len() - done);
        assert(pending.take(done) =~= pending);
        assert(pending_views(self.pending_calls@) =~= Seq::empty());
        self.connection = Link::Connected(connection);
        commands
    }

    /// The transport could not be set up. A connecting router is
    /// disconnected again; its bindings and its queue stay as they are. In
    /// any other state nothing happens.
    pub fn connect_failed(&mut self)
        ensures
            final(self)@ == old(self)@.connect_failed(),
            old(self)@.well_formed() ==> final(self)@.well_formed(),
    {
        match &self.connection {
            Link::Connecting => {
                self.connection = Link::Disconnected;
            },
            _ => {},
        }
    }

    /// Binds or unbinds a service: [`add_binding`](Self::add_binding) or
    /// [`remove_binding`](Self::remove_binding), as the message says.
    pub fn handle_update(&mut self, msg: UpdateService) -> (commands: Vec<Command<S>>)
        ensures
            final(self)@ == old(self)@.update(msg@),
            command_views(commands@) == old(self)@.update_commands(msg@),
            old(self)@.well_formed() ==> final(self)@.well_formed(),
    {
        match msg {
            UpdateService::Add(service_id) => self.add_binding(service_id),
            UpdateService::Remove(service_id) => {
                self.remove_binding(&service_id);
                let none: Vec<Command<S>> = Vec::new();
                assert(command_views(none@) =~= Seq::empty());
                none
            },
        }
    }

    /// Binds a service. The service joins the set of bindings unless it is
    /// there already, so that binding the same service twice has the effect
    /// of binding it once; with a live connection the service is registered
    /// at the broker at once, whether it was bound before or not.
    pub fn add_binding(&mut self, service_id: String) -> (commands: Vec<Command<S>>)
        ensures
            final(self)@ == old(self)@.update(UpdateServiceView::Add(service_id@)),
            command_views(commands@) == old(self)@.update_commands(
                UpdateServiceView::Add(service_id@),
            ),
            final(self)@.is_bound(service_id@),
            old(self)@.well_formed() ==> final(self)@.well_formed(),
    {
        let mut commands: Vec<Command<S>> = Vec::new();
        assert(command_views(commands@) =~= Seq::empty());
        match &self.connection {
            Link::Connected(c) => {
                match c.bind(service_id.clone()) {
                    Ok(frame) => {
                        commands.push(Command::Write(frame));
                        assert(command_views(commands@) =~= seq![
                            CommandView::<S>::Write(register_frame(service_id@)),
                        ]);
                    },
                    Err(_) => {},
                }
            },
            _ => {},
        }
        let ghost before = self@.bindings;
        if !self.is_bound(&service_id) {
            self.local_bindings.push(service_id);
            assert(self@.bindings =~= before.push(service_id@));
            assert(self@.bindings[before.len() as int] == service_id@);
            assert(before.no_duplicates() ==> before.push(service_id@).no_duplicates());
        }
        commands
    }

    /// Takes a service out of the set of bindings. The broker is not told.
    pub fn remove_binding(&mut self, service_id: &String)
        ensures
            final(self)@ == old(self)@.update(UpdateServiceView::Remove(service_id@)),
            !final(self)@.is_bound(service_id@),
            old(self)@.well_formed() ==> final(self)@.well_formed(),
    {
        let ghost before = self@.bindings;
        let mut kept: Vec<String> = Vec::new();
        let mut i: usize = 0;
        assert(binding_views(kept@) =~= without(before.take(0), service_id@));
        while i < self.local_bindings.len()
            invariant
                i <= self.local_bindings.len(),
                before == binding_views(self.local_bindings@),
                binding_views(kept@) == without(before.take(i as int), service_id@),
            decreases self.local_bindings.len() - i,
        {
            let ghost sofar = binding_views(kept@);
            assert(before.take(i + 1).drop_last() =~= before.take(i as int));
            if self.local_bindings[i] != *service_id {
                kept.push(self.local_bindings[i].clone());
                assert(binding_views(kept@) =~= sofar.push(before[i as int]));
            }
            i = i + 1;
        }
        assert(before.take(i as int) =~= before);
        self.local_bindings = kept;
        proof {
            lemma_without(before, service_id@);
        }
    }

    /// Takes a call. With a connection the call goes out at once and its
    /// slot waits on the handle; without one the call joins the end of the
    /// queue and nothing is to be done yet.
    pub fn handle_call(&mut self, msg: RpcRawCall, slot: S) -> (commands: Vec<Command<S>>)
        ensures
            final(self)@ == old(self)@.submit(msg@, slot),
            command_views(commands@) == old(self)@.submit_commands(msg@, slot),
            old(self)@.well_formed() ==> final(self)@.well_formed(),
    {
        let mut commands: Vec<Command<S>> = Vec::new();
        assert(command_views(commands@) =~= Seq::empty());
        let ghost before = self@.pending;
        match &mut self.connection {
            Link::Connected(c) => {
                let command = c.call(msg, slot);
                commands.push(command);
                assert(command_views(commands@) =~= seq![command@]);
            },
            _ => {
                self.pending_calls.push_back((msg, slot));
                assert(self@.pending =~= before.push((msg@, slot)));
            },
        }
        commands
    }

    /// Takes a call given by its parts; see [`handle_call`](Self::handle_call).
    pub fn call(&mut self, caller: String, address: String, body: Vec<u8>, slot: S) -> (commands:
        Vec<Command<S>>)
        ensures
            final(self)@ == old(self)@.submit(
                CallRequestView { caller: caller@, address: address@, body: body@ },
                slot,
            ),
            command_views(commands@) == old(self)@.submit_commands(
                CallRequestView { caller: caller@, address: address@, body: body@ },
                slot,
            ),
            old(self)@.well_formed() ==> final(self)@.well_formed(),
    {
        self.handle_call(RpcRawCall { caller, addr: address, body }, slot)
    }

    /// Answers a request that the local dispatcher has worked on. With a
    /// live connection the reply is to be written; without one there is
    /// nobody to answer, and nothing is to be done.
    pub fn answer(&self, body: ReplyBody) -> (commands: Vec<Command<S>>)
        ensures
            command_views(commands@) == self@.answer_commands(body@),
    {
        let mut commands: Vec<Command<S>> = Vec::new();
        assert(command_views(commands@) =~= Seq::empty());
        match &self.connection {
            Link::Connected(c) => {
                match c.reply(body) {
                    Ok(frame) => {
                        commands.push(Command::Write(frame));
                        assert(command_views(commands@) =~= seq![
                            CommandView::<S>::Write(reply_frame(body@)),
                        ]);
                    },
                    Err(_) => {},
                }
            },
            _ => {},
        }
        commands
    }

    /// Takes a message that came in on the transport and passes it to the
    /// handle. Without a connection the message is dropped.
    pub fn handle_message(&mut self, msg: IncomingGsbMessage) -> (commands: Vec<Command<S>>)
        ensures
            final(self)@ == old(self)@.receive(msg@),
            command_views(commands@) == old(self)@.receive_commands(msg@),
            old(self)@.well_formed() ==> final(self)@.well_formed(),
    {
        let mut commands: Vec<Command<S>> = Vec::new();
        assert(command_views(commands@) =~= Seq::empty());
        match &mut self.connection {
            Link::Connected(c) => {
                match c.handle_message(msg) {
                    Some(command) => {
                        commands.push(command);
                        assert(command_views(commands@) =~= seq![command@]);
                    },
                    None => {},
                }
            },
            _ => {},
        }
        commands
    }

    /// The transport failed. A connected router fails every call that
    /// waited for its reply, oldest first, and is disconnected; it does not
    /// connect again by itself. In any other state nothing happens.
    pub fn connection_lost(&mut self) -> (commands: Vec<Command<S>>)
        ensures
            final(self)@ == old(self)@.connection_lost(),
            command_views(commands@) == old(self)@.connection_lost_commands(),
            old(self)@.well_formed() ==> final(self)@.well_formed(),
    {
        let commands = match &mut self.connection {
            Link::Connected(c) => c.fail(),
            _ => {
                let none: Vec<Command<S>> = Vec::new();
                assert(command_views(none@) =~= Seq::empty());
                return none;
            },
        };
        self.connection = Link::Disconnected;
        commands
    }

    /// The router is restarted. A handle whose transport is gone is
    /// dropped, and whoever still waited on it is told so; a handle whose
    /// transport is up is kept.
    pub fn restarting(&mut self) -> (commands: Vec<Command<S>>)
        ensures
            final(self)@ == old(self)@.restarting(),
            command_views(commands@) == old(self)@.restarting_commands(),
            old(self)@.well_formed() ==> final(self)@.well_formed(),
    {
        if let Link::Connected(c) = &self.connection {
            if !c.connected() {
                return self.connection_lost();
            }
        }
        let none: Vec<Command<S>> = Vec::new();
        assert(command_views(none@) =~= Seq::empty());
        none
    }

    /// Tears the router down. Every caller that still waits, on the
    /// connection or in the queue, is told that the connection is gone:
    /// those on the connection first, oldest first, then those in the
    /// queue, oldest first. The bindings stay.
    pub fn stop(&mut self) -> (commands: Vec<Command<S>>)
        ensures
            final(self)@ == old(self)@.stopped(),
            command_views(commands@) == old(self)@.stopped_commands(),
            old(self)@.well_formed() ==> final(self)@.well_formed(),
    {
        let ghost pending = self@.pending;
        let ghost bindings = self@.bindings;
        let mut commands = self.connection_lost();
        self.connection = Link::Disconnected;
        let ghost first = command_views(commands@);
        assert(first + all_lost(slots_of(pending.take(0))) =~= first);
        assert(pending.skip(0) =~= pending);
        let ghost mut done: int = 0;
        while self.pending_calls.len() > 0
            invariant
                0 <= done <= pending.len(),
                pending_views(self.pending_calls@) == pending.skip(done),
                binding_views(self.local_bindings@) == bindings,
                self.connection@ is Disconnected,
                command_views(commands@) == first + all_lost(slots_of(pending.take(done))),
            decreases self.pending_calls@.len(),
        {
            let ghost before = command_views(commands@);
            let ghost queue = self.pending_calls@;
            match self.pending_calls.pop_front() {
                Some(entry) => {
                    let (_, slot) = entry;
                    proof {
                        assert(pending_views(queue).len() == queue.len());
                        assert(pending.skip(done).len() == pending.len() - done);
                        assert(pending_views(queue)[0] == pending.skip(done)[0]);
                        assert(pending_views(queue)[0] == (queue[0].0@, queue[0].1));
                        assert(slot == pending[done].1);
                    }
                    commands.push(Command::Resolve(slot, Err(crate::error::Error::Closed)));
                    proof {
                        let added = crate::connection::lost(pending[done].1);
                        assert(command_views(commands@) =~= before.push(added));
                        assert(all_lost(slots_of(pending.take(done + 1))) =~= all_lost(
                            slots_of(pending.take(done)),
                        ).push(added));
                        lemma_pending_views_rest(queue);
                        assert(pending.skip(done).skip(1) =~= pending.skip(done + 1));
                        done = done + 1;
                    }
                },
                None => {},
            }
        }
        assert(pending_views(self.pending_calls@).len() == 0);
        assert(pending.skip(done).len() == pending.len() - done);
        assert(pending.take(done) =~= pending);
        assert(pending_views(self.pending_calls@) =~= Seq::empty());
        commands
    }
}

} // verus!
