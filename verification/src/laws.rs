//! What holds of every registry, whatever is asked of it and whatever the
//! native side answers.

use crate::ledger::{allocations, allocations_of, insertions, releases, releases_of, Event};
use crate::model::{Model, PendingView, StepView};
use crate::native::Call;
use vstd::prelude::*;

verus! {

/// A request of the owner of a registry.
pub ghost enum Request<T, F> {
    /// Register `keystring` with `user_handler` and `user_data`.
    Bind { keystring: Seq<char>, user_handler: F, user_data: T },
    /// Unregister `keystring`.
    Unbind { keystring: Seq<char> },
}

/// The state and the step after up to `rounds` native calls have been made
/// and each has returned `reply`, starting from `step`.
pub open spec fn drive<T, F: Fn(String, &T)>(
    state: Model<T, F>,
    step: StepView<T, F>,
    reply: bool,
    rounds: nat,
) -> (Model<T, F>, StepView<T, F>)
    decreases rounds,
{
    if rounds == 0 {
        (state, step)
    } else {
        match step {
            StepView::Call { call, then } => {
                let next = state.resume(then, reply);
                drive(next.0, next.1, reply, (rounds - 1) as nat)
            },
            StepView::Done { accepted } => (state, step),
        }
    }
}

/// The state after `request` has been carried out to its end.
pub open spec fn served<T, F: Fn(String, &T)>(state: Model<T, F>, request: Request<T, F>) -> Model<
    T,
    F,
> {
    match request {
        Request::Bind { keystring, user_handler, user_data } => state.retire(keystring).claim(
            keystring,
            user_handler,
            user_data,
        ),
        Request::Unbind { keystring } => state.retire(keystring),
    }
}

/// The state after every request of `requests` has been carried out, in
/// order.
pub open spec fn served_all<T, F: Fn(String, &T)>(
    state: Model<T, F>,
    requests: Seq<Request<T, F>>,
) -> Model<T, F>
    decreases requests.len(),
{
    if requests.len() == 0 {
        state
    } else {
        served(served_all(state, requests.drop_last()), requests.last())
    }
}

/// Whether each callback that `requests` registers can be called with
/// every identifier and its context.
pub open spec fn callable_all<T, F: Fn(String, &T)>(requests: Seq<Request<T, F>>) -> bool {
    forall|i: int|
        0 <= i < requests.len() ==> match #[trigger] requests[i] {
            Request::Bind { keystring, user_handler, user_data } => Model::<T, F>::callable(
                user_handler,
                user_data,
            ),
            Request::Unbind { keystring } => true,
        }
}

/// A request to bind keeps the registry well formed, and so does what it
/// leaves pending.
pub proof fn lemma_bind_wf<T, F: Fn(String, &T)>(
    state: Model<T, F>,
    keystring: Seq<char>,
    user_handler: F,
    user_data: T,
)
    requires
        state.wf(),
        Model::<T, F>::callable(user_handler, user_data),
    ensures
        state.bind(keystring, user_handler, user_data).0.wf(),
        state.bind(keystring, user_handler, user_data).1.wf(),
{
    if !state.active.contains_key(keystring) {
        state.lemma_claim_wf(keystring, user_handler, user_data);
    }
}

/// The completion of a native call keeps the registry well formed, and so
/// does what is pending afterwards.
pub proof fn lemma_resume_wf<T, F: Fn(String, &T)>(
    state: Model<T, F>,
    pending: PendingView<T, F>,
    reply: bool,
)
    requires
        state.wf(),
        pending.wf(),
    ensures
        state.resume(pending, reply).0.wf(),
        state.resume(pending, reply).1.wf(),
{
    match pending {
        PendingView::Unbinding { keystring } => {
            state.lemma_retire_wf(keystring);
        },
        PendingView::Rebinding { keystring, user_handler, user_data } => {
            state.lemma_retire_wf(keystring);
            state.retire(keystring).lemma_claim_wf(keystring, user_handler, user_data);
        },
        PendingView::TearingDown { keystring } => {
            state.lemma_retire_wf(keystring);
        },
        PendingView::Binding => {},
    }
}

/// Whether the native call that `step` asks for, if it asks for one, is
/// about an identifier that is active in `state`, and, where it registers
/// the identifier, hands over the handle that the identifier has there.
pub open spec fn concerns_active<T, F: Fn(String, &T)>(
    state: Model<T, F>,
    step: StepView<T, F>,
) -> bool {
    match step {
        StepView::Call { call: Call::Bind { keystring, handle }, then } => state.is_bound(
            keystring,
        ) && state.active[keystring] == handle && state.storage.contains_key(handle),
        StepView::Call { call: Call::UnbindAll { keystring }, then } => state.is_bound(keystring)
            && state.storage.contains_key(state.active[keystring]),
        StepView::Call { call, then } => false,
        StepView::Done { accepted } => true,
    }
}

/// The native side is never handed a handle without storage behind it, and
/// while it is asked to drop an identifier the storage of that identifier
/// is still there.
pub proof fn lemma_calls_concern_active<T, F: Fn(String, &T)>(
    state: Model<T, F>,
    keystring: Seq<char>,
    user_handler: F,
    user_data: T,
    pending: PendingView<T, F>,
    reply: bool,
)
    requires
        state.wf(),
    ensures
        concerns_active(
            state.bind(keystring, user_handler, user_data).0,
            state.bind(keystring, user_handler, user_data).1,
        ),
        concerns_active(state, state.unbind(keystring)),
        concerns_active(state, state.teardown()),
        concerns_active(state.resume(pending, reply).0, state.resume(pending, reply).1),
{
    if !state.is_empty() {
        state.lemma_foremost_exists();
    }
    match pending {
        PendingView::Unbinding { keystring } => {},
        PendingView::Rebinding { keystring, user_handler, user_data } => {},
        PendingView::TearingDown { keystring } => {
            state.lemma_retire_wf(keystring);
            if !state.retire(keystring).is_empty() {
                state.retire(keystring).lemma_foremost_exists();
            }
        },
        PendingView::Binding => {},
    }
}

/// A bind ends, after one native call where the identifier was free and
/// after two where it was taken, with the native verdict as its outcome,
/// and with the earlier registration of the identifier retired and the new
/// one in its place.
pub proof fn lemma_bind_completes<T, F: Fn(String, &T)>(
    state: Model<T, F>,
    keystring: Seq<char>,
    user_handler: F,
    user_data: T,
    reply: bool,
)
    requires
        state.wf(),
    ensures
        ({
            let begun = state.bind(keystring, user_handler, user_data);
            let rounds: nat = if state.is_bound(keystring) {
                2
            } else {
                1
            };
            drive(begun.0, begun.1, reply, rounds) == (
                served(state, Request::Bind { keystring, user_handler, user_data }),
                StepView::<T, F>::Done { accepted: Some(reply) },
            )
        }),
{
    reveal_with_fuel(drive, 3);
}

/// An unbind of an identifier that is not active asks for no native call
/// and changes nothing; one of an active identifier ends after one native
/// call with the registration retired.
pub proof fn lemma_unbind_completes<T, F: Fn(String, &T)>(
    state: Model<T, F>,
    keystring: Seq<char>,
    reply: bool,
)
    requires
        state.wf(),
    ensures
        !state.is_bound(keystring) ==> state.unbind(keystring) == (StepView::<T, F>::Done {
            accepted: None,
        }) && served(state, Request::<T, F>::Unbind { keystring }) == state,
        state.is_bound(keystring) ==> drive(state, state.unbind(keystring), reply, 1) == (
            served(state, Request::<T, F>::Unbind { keystring }),
            StepView::<T, F>::Done { accepted: None },
        ),
{
    reveal_with_fuel(drive, 2);
}

/// When an active identifier is registered again, the storage of its
/// earlier registration is released, and the identifier leaves the active
/// ones, before the new registration is allocated and becomes active.
pub proof fn lemma_rebind_releases_first<T, F: Fn(String, &T)>(
    state: Model<T, F>,
    keystring: Seq<char>,
    user_handler: F,
    user_data: T,
)
    requires
        state.wf(),
        state.is_bound(keystring),
    ensures
        ({
            let between = state.retire(keystring);
            let after = served(state, Request::Bind { keystring, user_handler, user_data });
            &&& !between.is_bound(keystring)
            &&& !between.storage.contains_key(state.active[keystring])
            &&& after == between.claim(keystring, user_handler, user_data)
            &&& after.trace =~= state.trace + seq![
                Event::Dropped { keystring },
                Event::Released { keystring, handle: state.active[keystring] },
                Event::Removed { keystring },
                Event::Allocated { handle: between.vacancy() },
                Event::Inserted { keystring, handle: between.vacancy() },
            ]
        }),
{
}

/// Once an identifier has been retired it is not active, and no storage is
/// left under the handle it had.
pub proof fn lemma_retired_is_gone<T, F: Fn(String, &T)>(state: Model<T, F>, keystring: Seq<char>)
    requires
        state.wf(),
    ensures
        !state.retire(keystring).is_bound(keystring),
        state.is_bound(keystring) ==> !state.retire(keystring).storage.contains_key(
            state.active[keystring],
        ),
        state.retire(keystring).wf(),
{
    state.lemma_retire_wf(keystring);
}

/// No storage is released but directly after the native side has dropped
/// the identifier that it belonged to.
pub proof fn lemma_release_follows_drop<T, F: Fn(String, &T)>(state: Model<T, F>, at: int)
    requires
        state.wf(),
        0 <= at < state.trace.len(),
        state.trace[at] is Released,
    ensures
        at >= 1,
        state.trace[at - 1] == (Event::Dropped { keystring: state.trace[at]->Released_keystring }),
{
}

/// With no identifier active, the map of active identifiers is empty.
pub proof fn lemma_empty_len<T, F: Fn(String, &T)>(state: Model<T, F>)
    requires
        state.wf(),
    ensures
        state.is_empty() <==> state.active.len() == 0,
{
    if state.is_empty() {
        assert(state.active.dom() =~= Set::empty());
    } else {
        let keystring = choose|keystring: Seq<char>| state.active.contains_key(keystring);
        assert(state.active.dom().contains(keystring));
        if state.active.len() == 0 {
            state.active.dom().lemma_len0_is_empty();
        }
    }
}

/// In a registry with no active identifier every allocation has been
/// released, handle by handle: nothing has leaked and nothing was freed
/// twice.
pub proof fn lemma_idle_is_balanced<T, F: Fn(String, &T)>(state: Model<T, F>)
    requires
        state.wf(),
        state.is_empty(),
    ensures
        releases(state.trace) == allocations(state.trace),
        forall|handle: nat| #[trigger]
            releases_of(state.trace, handle) == allocations_of(state.trace, handle),
        forall|handle: nat| !state.storage.contains_key(handle),
{
    lemma_empty_len(state);
    assert forall|handle: nat| !state.storage.contains_key(handle) by {
        if state.storage.contains_key(handle) {
            assert(state.active.contains_key(state.storage[handle].keystring));
        }
    }
    assert forall|handle: nat| #[trigger]
        releases_of(state.trace, handle) == allocations_of(state.trace, handle) by {
        assert(!state.storage.contains_key(handle));
    }
}

/// A teardown of a registry with N active identifiers makes N native calls,
/// releases exactly N registrations, allocates none, and leaves no
/// identifier active.
pub proof fn lemma_teardown_completes<T, F: Fn(String, &T)>(state: Model<T, F>, reply: bool)
    requires
        state.wf(),
    ensures
        ({
            let end = drive(state, state.teardown(), reply, state.active.len());
            &&& end.1 == StepView::<T, F>::Done { accepted: None }
            &&& end.0.wf()
            &&& end.0.is_empty()
            &&& releases(end.0.trace) == releases(state.trace) + state.active.len()
            &&& allocations(end.0.trace) == allocations(state.trace)
        }),
    decreases state.active.len(),
{
    lemma_empty_len(state);
    if !state.is_empty() {
        state.lemma_foremost_exists();
        let next = state.retire(state.foremost());
        state.lemma_retire_wf(state.foremost());
        lemma_teardown_completes(next, reply);
        assert(drive(state, state.teardown(), reply, state.active.len()) == drive(
            next,
            next.teardown(),
            reply,
            next.active.len(),
        ));
    }
}

/// A teardown is not over before as many native calls have been made as
/// there were active identifiers.
pub proof fn lemma_teardown_takes_every_round<T, F: Fn(String, &T)>(
    state: Model<T, F>,
    reply: bool,
    rounds: nat,
)
    requires
        state.wf(),
        rounds < state.active.len(),
    ensures
        drive(state, state.teardown(), reply, rounds).1 is Call,
    decreases rounds,
{
    lemma_empty_len(state);
    state.lemma_foremost_exists();
    if rounds > 0 {
        let next = state.retire(state.foremost());
        state.lemma_retire_wf(state.foremost());
        lemma_teardown_takes_every_round(next, reply, (rounds - 1) as nat);
        assert(drive(state, state.teardown(), reply, rounds) == drive(
            next,
            next.teardown(),
            reply,
            (rounds - 1) as nat,
        ));
    }
}

/// Retiring the active identifiers one by one, in whatever order, releases
/// one registration for each of them, allocates none, and leaves no
/// identifier active.
pub proof fn lemma_retire_all_in_any_order<T, F: Fn(String, &T)>(
    state: Model<T, F>,
    order: Seq<Seq<char>>,
)
    requires
        state.wf(),
        order.no_duplicates(),
        forall|keystring: Seq<char>| order.contains(keystring) <==> state.is_bound(keystring),
    ensures
        order.len() == state.active.len(),
        state.retire_all(order).wf(),
        state.retire_all(order).is_empty(),
        releases(state.retire_all(order).trace) == releases(state.trace) + order.len(),
        allocations(state.retire_all(order).trace) == allocations(state.trace),
    decreases order.len(),
{
    if order.len() == 0 {
        assert forall|keystring: Seq<char>| !state.active.contains_key(keystring) by {
            assert(!order.contains(keystring));
        }
        lemma_empty_len(state);
    } else {
        let first = order[0];
        let rest = order.skip(1);
        let next = state.retire(first);
        assert(order.contains(first));
        state.lemma_retire_wf(first);
        assert forall|keystring: Seq<char>| rest.contains(keystring) <==> next.is_bound(
            keystring,
        ) by {
            if rest.contains(keystring) {
                let j = choose|j: int| 0 <= j < rest.len() && rest[j] == keystring;
                assert(order[j + 1] == keystring);
                assert(order.contains(keystring));
            }
            if next.is_bound(keystring) {
                assert(order.contains(keystring));
                let j = choose|j: int| 0 <= j < order.len() && order[j] == keystring;
                assert(rest[j - 1] == keystring);
            }
        }
        lemma_retire_all_in_any_order(next, rest);
    }
}

/// Whatever is asked of a registry that starts out empty, it stays well
/// formed: there are as many allocations as insertions into the map of
/// active identifiers, and each allocation is either still active or was
/// released once.
pub proof fn lemma_served_all_wf<T, F: Fn(String, &T)>(requests: Seq<Request<T, F>>)
    requires
        callable_all(requests),
    ensures
        served_all(Model::<T, F>::empty(), requests).wf(),
        allocations(served_all(Model::<T, F>::empty(), requests).trace) == insertions(
            served_all(Model::<T, F>::empty(), requests).trace,
        ),
        allocations(served_all(Model::<T, F>::empty(), requests).trace) == releases(
            served_all(Model::<T, F>::empty(), requests).trace,
        ) + served_all(Model::<T, F>::empty(), requests).active.len(),
    decreases requests.len(),
{
    if requests.len() == 0 {
        Model::<T, F>::lemma_empty_wf();
    } else {
        let earlier = requests.drop_last();
        assert(callable_all(earlier)) by {
            assert forall|i: int| 0 <= i < earlier.len() implies match #[trigger] earlier[i] {
                Request::Bind { keystring, user_handler, user_data } => Model::<T, F>::callable(
                    user_handler,
                    user_data,
                ),
                Request::Unbind { keystring } => true,
            } by {
                assert(earlier[i] == requests[i]);
            }
        }
        lemma_served_all_wf(earlier);
        let before = served_all(Model::<T, F>::empty(), earlier);
        match requests.last() {
            Request::Bind { keystring, user_handler, user_data } => {
                assert(requests[requests.len() - 1] == requests.last());
                before.lemma_retire_wf(keystring);
                before.retire(keystring).lemma_claim_wf(keystring, user_handler, user_data);
            },
            Request::Unbind { keystring } => {
                before.lemma_retire_wf(keystring);
            },
        }
    }
}

/// After any requests and a teardown, every allocation that was ever made
/// has been released, and released once.
pub proof fn lemma_no_leak_no_double_free<T, F: Fn(String, &T)>(
    requests: Seq<Request<T, F>>,
    reply: bool,
)
    requires
        callable_all(requests),
    ensures
        ({
            let used = served_all(Model::<T, F>::empty(), requests);
            let end = drive(used, used.teardown(), reply, used.active.len()).0;
            &&& end.is_empty()
            &&& allocations(end.trace) == allocations(used.trace)
            &&& allocations(end.trace) == insertions(end.trace)
            &&& releases(end.trace) == allocations(end.trace)
            &&& forall|handle: nat| #[trigger]
                releases_of(end.trace, handle) == allocations_of(end.trace, handle)
        }),
{
    lemma_served_all_wf(requests);
    let used = served_all(Model::<T, F>::empty(), requests);
    lemma_teardown_completes(used, reply);
    let end = drive(used, used.teardown(), reply, used.active.len()).0;
    lemma_idle_is_balanced(end);
}

} // verus!
