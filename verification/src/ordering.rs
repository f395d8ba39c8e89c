//! What the router guarantees over several steps: the order in which things
//! reach the transport, and that no caller is left waiting on a connection
//! that is gone.

use crate::connection::{
    CommandView, ConnectionView, all_lost, call_frame, lost, register_frame, reply_outcome,
};
use crate::decoder::MessageView;
use crate::gsb_api::{CallReplyView, CallRequestView, ReplyBodyView};
use crate::remote_router::{
    LinkView, RouterView, UpdateServiceView, dispatch, lemma_without, replay, slots_of,
};
use vstd::prelude::*;

verus! {

/// The router after a run of calls was submitted, one after the other.
pub open spec fn submit_all<S>(router: RouterView<S>, calls: Seq<(CallRequestView, S)>) -> RouterView<
    S,
>
    decreases calls.len(),
{
    if calls.len() == 0 {
        router
    } else {
        submit_all(router, calls.drop_last()).submit(calls.last().0, calls.last().1)
    }
}

/// Calls submitted without a connection join the queue in the order in
/// which they were submitted, behind what was queued already, and change
/// nothing else.
pub proof fn lemma_submit_all_queues<S>(router: RouterView<S>, calls: Seq<(CallRequestView, S)>)
    requires
        !(router.link is Connected),
    ensures
        submit_all(router, calls) == (RouterView { pending: router.pending + calls, ..router }),
    decreases calls.len(),
{
    if calls.len() == 0 {
        assert(router.pending + calls =~= router.pending);
    } else {
        lemma_submit_all_queues(router, calls.drop_last());
        assert((router.pending + calls.drop_last()).push(calls.last()) =~= router.pending + calls);
    }
}

/// Calls submitted while there is no connection are sent, once the
/// connection is established, in exactly the order in which they were
/// submitted: behind the registrations and behind what had been queued
/// before them. Their slots wait on the new handle in the same order, and
/// the queue is empty.
pub proof fn lemma_queued_calls_keep_order<S>(router: RouterView<S>, calls: Seq<(CallRequestView, S)>)
    requires
        !(router.link is Connected),
    ensures
        ({
            let ready = submit_all(router, calls).try_connect();
            &&& ready.established_commands() == replay::<S>(router.bindings) + dispatch(
                router.pending,
            ) + dispatch(calls)
            &&& ready.established() == (RouterView {
                bindings: router.bindings,
                pending: Seq::empty(),
                link: LinkView::Connected(
                    ConnectionView { awaiting: slots_of(router.pending) + slots_of(calls), alive: true },
                ),
            })
        }),
{
    lemma_submit_all_queues(router, calls);
    assert(dispatch(router.pending + calls) =~= dispatch(router.pending) + dispatch(calls));
    assert(slots_of(router.pending + calls) =~= slots_of(router.pending) + slots_of(calls));
    assert(replay::<S>(router.bindings) + (dispatch(router.pending) + dispatch(calls)) =~= replay::<S>(
        router.bindings,
    ) + dispatch(router.pending) + dispatch(calls));
}

/// When the connection is established, every bound service is registered,
/// and every registration is written before any queued call: the first
/// commands, one per binding, are the registrations, and the calls follow.
pub proof fn lemma_bindings_replayed_first<S>(router: RouterView<S>)
    requires
        router.link is Connecting,
    ensures
        ({
            let out = router.established_commands();
            let bound = router.bindings.len();
            &&& out.len() == bound + router.pending.len()
            &&& forall|i: int|
                0 <= i < bound ==> #[trigger] out[i] == CommandView::<S>::Write(
                    register_frame(router.bindings[i]),
                )
            &&& forall|j: int|
                bound <= j < out.len() ==> #[trigger] out[j] == CommandView::<S>::Write(
                    call_frame(router.pending[j - bound].0),
                )
            &&& forall|id: Seq<char>|
                router.is_bound(id) ==> exists|i: int|
                    0 <= i < bound && #[trigger] out[i] == CommandView::<S>::Write(register_frame(id))
        }),
{
    let out = router.established_commands();
    let bound = router.bindings.len() as int;
    assert forall|id: Seq<char>| router.is_bound(id) implies exists|i: int|
        0 <= i < bound && #[trigger] out[i] == CommandView::<S>::Write(register_frame(id)) by {
        let i = choose|i: int| 0 <= i < bound && router.bindings[i] == id;
        assert(out[i] == CommandView::<S>::Write(register_frame(id)));
    }
}

/// A service that was bound stays bound, through calls, connection
/// attempts, failures and the unbinding of other services, until it is
/// unbound itself; and binding it again changes nothing.
pub proof fn lemma_binding_lasts<S>(router: RouterView<S>, id: Seq<char>)
    ensures
        router.update(UpdateServiceView::Add(id)).is_bound(id),
        router.update(UpdateServiceView::Add(id)).update(UpdateServiceView::Add(id)) == router.update(
            UpdateServiceView::Add(id),
        ),
        !router.update(UpdateServiceView::Remove(id)).is_bound(id),
        router.is_bound(id) ==> {
            &&& router.try_connect().is_bound(id)
            &&& router.established().is_bound(id)
            &&& router.connect_failed().is_bound(id)
            &&& router.connection_lost().is_bound(id)
            &&& router.restarting().is_bound(id)
            &&& router.stopped().is_bound(id)
            &&& forall|call: CallRequestView, slot: S| #[trigger]
                router.submit(call, slot).is_bound(id)
            &&& forall|other: Seq<char>|
                other != id ==> #[trigger] router.update(UpdateServiceView::Remove(other)).is_bound(
                    id,
                )
            &&& forall|other: Seq<char>| #[trigger]
                router.update(UpdateServiceView::Add(other)).is_bound(id)
        },
{
    if !router.bindings.contains(id) {
        assert(router.bindings.push(id)[router.bindings.len() as int] == id);
    }
    lemma_without(router.bindings, id);
    if router.is_bound(id) {
        let at = choose|i: int| 0 <= i < router.bindings.len() && router.bindings[i] == id;
        assert forall|other: Seq<char>| other != id implies #[trigger] router.update(
            UpdateServiceView::Remove(other),
        ).is_bound(id) by {
            lemma_without(router.bindings, other);
        }
        assert forall|other: Seq<char>| #[trigger]
            router.update(UpdateServiceView::Add(other)).is_bound(id) by {
            if !router.bindings.contains(other) {
                assert(router.bindings.push(other)[at] == id);
            }
        }
    }
}

/// When the transport of a connected router fails, every call that was
/// waiting for its reply is failed with `Closed`, each exactly once and
/// oldest first; the router is disconnected, and its bindings and its queue
/// are as they were.
pub proof fn lemma_failure_reaches_every_caller<S>(router: RouterView<S>, handle: ConnectionView<S>)
    requires
        router.link == LinkView::Connected(handle),
    ensures
        ({
            let out = router.connection_lost_commands();
            &&& out.len() == handle.awaiting.len()
            &&& forall|i: int| 0 <= i < out.len() ==> #[trigger] out[i] == lost(handle.awaiting[i])
            &&& router.connection_lost() == (RouterView {
                bindings: router.bindings,
                pending: router.pending,
                link: LinkView::Disconnected,
            })
        }),
{
}

/// The router never loses its shape: whatever happens to a router in which
/// no service is bound twice and nothing is queued while connected leaves
/// such a router.
pub proof fn lemma_well_formed_is_kept<S>(router: RouterView<S>)
    requires
        router.well_formed(),
    ensures
        RouterView::<S>::initial().well_formed(),
        router.try_connect().well_formed(),
        router.established().well_formed(),
        router.connect_failed().well_formed(),
        router.connection_lost().well_formed(),
        router.restarting().well_formed(),
        router.stopped().well_formed(),
        forall|msg: UpdateServiceView| #[trigger] router.update(msg).well_formed(),
        forall|call: CallRequestView, slot: S| #[trigger] router.submit(call, slot).well_formed(),
        forall|msg: MessageView| #[trigger] router.receive(msg).well_formed(),
{
    assert forall|msg: UpdateServiceView| #[trigger] router.update(msg).well_formed() by {
        match msg {
            UpdateServiceView::Add(id) => {
                if !router.bindings.contains(id) {
                    let grown = router.bindings.push(id);
                    assert forall|i: int, j: int|
                        0 <= i < grown.len() && 0 <= j < grown.len() && i != j implies grown[i]
                        != grown[j] by {
                        if i < router.bindings.len() && j == router.bindings.len() {
                            assert(router.bindings.contains(router.bindings[i]));
                        }
                        if j < router.bindings.len() && i == router.bindings.len() {
                            assert(router.bindings.contains(router.bindings[j]));
                        }
                    }
                }
            },
            UpdateServiceView::Remove(id) => {
                lemma_without(router.bindings, id);
            },
        }
    }
}

/// The handle after a run of replies came in, one after the other.
pub open spec fn after_replies<S>(handle: ConnectionView<S>, replies: Seq<ReplyBodyView>) -> ConnectionView<
    S,
>
    decreases replies.len(),
{
    if replies.len() == 0 {
        handle
    } else {
        after_replies(handle, replies.drop_last()).receive(
            MessageView::CallReply(CallReplyView { body: replies.last() }),
        )
    }
}

/// Replies are matched to calls in the order in which the calls were sent:
/// after as many replies as there are open calls or fewer, the calls that
/// are still open are the ones sent last, and the next reply, whatever it
/// says, goes to the oldest of them.
pub proof fn lemma_replies_follow_send_order<S>(
    handle: ConnectionView<S>,
    replies: Seq<ReplyBodyView>,
    next: ReplyBodyView,
)
    requires
        handle.alive,
        replies.len() < handle.awaiting.len(),
    ensures
        after_replies(handle, replies) == (ConnectionView {
            awaiting: handle.awaiting.skip(replies.len() as int),
            alive: true,
        }),
        after_replies(handle, replies).receive_command(
            MessageView::CallReply(CallReplyView { body: next }),
        ) == Some(
            CommandView::Resolve(handle.awaiting[replies.len() as int], reply_outcome(next)),
        ),
    decreases replies.len(),
{
    if replies.len() == 0 {
        assert(handle.awaiting.skip(0) =~= handle.awaiting);
    } else {
        lemma_replies_follow_send_order(handle, replies.drop_last(), replies.last());
        assert(handle.awaiting.skip(replies.len() - 1).skip(1) =~= handle.awaiting.skip(
            replies.len() as int,
        ));
    }
}

/// The slots of everybody who waits for an outcome: first those whose calls
/// are on the wire, oldest first, then those whose calls are queued.
pub open spec fn waiting<S>(router: RouterView<S>) -> Seq<S> {
    match router.link {
        LinkView::Connected(c) => c.awaiting + slots_of(router.pending),
        _ => slots_of(router.pending),
    }
}

/// The slots that a run of commands hands an outcome to, in order.
pub open spec fn resolved<S>(commands: Seq<CommandView<S>>) -> Seq<S>
    decreases commands.len(),
{
    if commands.len() == 0 {
        Seq::empty()
    } else {
        match commands.last() {
            CommandView::Resolve(slot, _) => resolved(commands.drop_last()).push(slot),
            _ => resolved(commands.drop_last()),
        }
    }
}

/// Commands that only write resolve nobody.
pub proof fn lemma_writes_resolve_nobody<S>(commands: Seq<CommandView<S>>)
    requires
        forall|i: int| 0 <= i < commands.len() ==> (#[trigger] commands[i]) is Write,
    ensures
        resolved(commands) == Seq::<S>::empty(),
    decreases commands.len(),
{
    if commands.len() > 0 {
        lemma_writes_resolve_nobody(commands.drop_last());
    }
}

/// Telling every slot that the connection is gone resolves exactly those
/// slots, in order.
pub proof fn lemma_all_lost_resolves_all<S>(slots: Seq<S>)
    ensures
        resolved(all_lost(slots)) == slots,
    decreases slots.len(),
{
    if slots.len() > 0 {
        lemma_all_lost_resolves_all(slots.drop_last());
        assert(all_lost(slots).drop_last() =~= all_lost(slots.drop_last()));
        assert(slots.drop_last().push(slots.last()) =~= slots);
    } else {
        assert(resolved(all_lost(slots)) =~= slots);
    }
}

/// No caller is forgotten and none is answered twice. Whatever happens to
/// the router, everybody who waited before either still waits afterwards or
/// is handed an outcome by the commands of that very step, and nobody else
/// is: the slots resolved by the step, followed by the slots that still
/// wait, are the slots that waited before. A submitted call adds its slot:
/// behind everybody else, or, when the handle has lost its transport, among
/// the resolved.
pub proof fn lemma_no_caller_is_forgotten<S>(router: RouterView<S>)
    requires
        router.well_formed(),
    ensures
        waiting(router.try_connect()) == waiting(router),
        waiting(router.connect_failed()) == waiting(router),
        resolved(router.established_commands()) + waiting(router.established()) == waiting(router),
        resolved(router.connection_lost_commands()) + waiting(router.connection_lost()) == waiting(
            router,
        ),
        resolved(router.restarting_commands()) + waiting(router.restarting()) == waiting(router),
        resolved(router.stopped_commands()) == waiting(router),
        waiting(router.stopped()) == Seq::<S>::empty(),
        forall|msg: UpdateServiceView|
            resolved(#[trigger] router.update_commands(msg)) + waiting(router.update(msg))
                == waiting(router),
        forall|msg: MessageView|
            resolved(#[trigger] router.receive_commands(msg)) + waiting(router.receive(msg))
                == waiting(router),
        forall|call: CallRequestView, slot: S|
            resolved(#[trigger] router.submit_commands(call, slot)) + waiting(
                router.submit(call, slot),
            ) == if router.link matches LinkView::Connected(c) && !c.alive {
                seq![slot] + waiting(router)
            } else {
                waiting(router).push(slot)
            },
{
    let before = waiting(router);
    let queued = slots_of(router.pending);
    assert(slots_of(Seq::<(CallRequestView, S)>::empty()) =~= Seq::<S>::empty());
    assert(Seq::<S>::empty() + before =~= before);
    assert(resolved(Seq::<CommandView<S>>::empty()) =~= Seq::<S>::empty());
    // the transport came up
    lemma_writes_resolve_nobody(router.established_commands());
    assert(resolved(router.established_commands()) + waiting(router.established()) =~= before);
    // the transport failed, the router is restarted or torn down
    match router.link {
        LinkView::Connected(c) => {
            lemma_all_lost_resolves_all(c.awaiting);
            lemma_all_lost_resolves_all(c.awaiting + queued);
            assert(all_lost(c.awaiting) + all_lost(queued) =~= all_lost(c.awaiting + queued));
            assert(c.awaiting + Seq::<S>::empty() =~= c.awaiting);
        },
        _ => {
            lemma_all_lost_resolves_all(queued);
            assert(Seq::<CommandView<S>>::empty() + all_lost(queued) =~= all_lost(queued));
        },
    }
    assert(resolved(router.connection_lost_commands()) + waiting(router.connection_lost())
        =~= before);
    assert(resolved(router.restarting_commands()) + waiting(router.restarting()) =~= before);
    // a service is bound or unbound
    assert forall|msg: UpdateServiceView|
        resolved(#[trigger] router.update_commands(msg)) + waiting(router.update(msg))
            == before by {
        lemma_writes_resolve_nobody(router.update_commands(msg));
    }
    // a message came in
    assert forall|msg: MessageView|
        resolved(#[trigger] router.receive_commands(msg)) + waiting(router.receive(msg))
            == before by {
        let commands = router.receive_commands(msg);
        if commands.len() > 0 {
            assert(commands.drop_last() =~= Seq::<CommandView<S>>::empty());
            if let LinkView::Connected(c) = router.link {
                if commands[0] is Resolve {
                    assert(seq![c.awaiting[0]] + (c.awaiting.skip(1) + queued) =~= c.awaiting
                        + queued);
                    assert(resolved(commands) =~= seq![c.awaiting[0]]);
                }
            }
        }
        assert(resolved(commands) + waiting(router.receive(msg)) =~= before);
    }
    // a call is submitted
    assert forall|call: CallRequestView, slot: S|
        resolved(#[trigger] router.submit_commands(call, slot)) + waiting(
            router.submit(call, slot),
        ) == if router.link matches LinkView::Connected(c) && !c.alive {
            seq![slot] + before
        } else {
            before.push(slot)
        } by {
        let commands = router.submit_commands(call, slot);
        let after = waiting(router.submit(call, slot));
        match router.link {
            LinkView::Connected(c) => {
                assert(commands.drop_last() =~= Seq::<CommandView<S>>::empty());
                assert(queued =~= Seq::<S>::empty());
                if c.alive {
                    assert(resolved(commands) =~= Seq::<S>::empty());
                    assert(resolved(commands) + after =~= before.push(slot));
                } else {
                    assert(resolved(commands) =~= seq![slot]);
                }
            },
            _ => {
                assert(slots_of(router.pending.push((call, slot))) =~= queued.push(slot));
                assert(resolved(commands) + after =~= before.push(slot));
            },
        }
    }
}

} // verus!
