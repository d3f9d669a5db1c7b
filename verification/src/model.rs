//! The registry as a mathematical object: the map of active identifiers,
//! the storage behind each handle, and the history of both.

use crate::ledger::{
    allocations, allocations_of, insertions, lemma_counts_push, released_after_drop, releases,
    releases_of, Event,
};
use crate::native::Call;
use vstd::prelude::*;

verus! {

/// What the storage behind one handle holds.
pub ghost struct Stored<T, F> {
    /// The key combination that the registration belongs to.
    pub keystring: Seq<char>,
    /// The callback to run when the keys are pressed.
    pub user_handler: F,
    /// The context handed to the callback.
    pub user_data: T,
}

/// The abstract state of a registry.
pub ghost struct Model<T, F> {
    /// Each active identifier with the handle of its storage.
    pub active: Map<Seq<char>, nat>,
    /// The storage that is allocated and not yet released, by handle.
    pub storage: Map<nat, Stored<T, F>>,
    /// Everything that has happened so far, oldest first.
    pub trace: Seq<Event>,
}

/// What is left of an operation while the native side does its part.
pub ghost enum PendingView<T, F> {
    /// The native side drops `keystring`; then its registration is retired.
    Unbinding { keystring: Seq<char> },
    /// The native side drops `keystring`; then its registration is retired
    /// and a new one, with `user_handler` and `user_data`, takes its place.
    Rebinding { keystring: Seq<char>, user_handler: F, user_data: T },
    /// The native side drops `keystring`; then its registration is retired
    /// and the teardown goes on with the next active identifier.
    TearingDown { keystring: Seq<char> },
    /// The native side registers an identifier; its verdict is the outcome.
    Binding,
}

/// What a registry answers to a request or to the completion of a native
/// call.
pub ghost enum StepView<T, F> {
    /// `call` has to be made; `then` is handed back once it returned.
    Call { call: Call, then: PendingView<T, F> },
    /// The operation is complete. After a bind, `accepted` holds the native
    /// verdict.
    Done { accepted: Option<bool> },
}

impl<T, F: Fn(String, &T)> PendingView<T, F> {
    /// A callback that waits to be registered can be called with every
    /// identifier and its context.
    pub open spec fn wf(self) -> bool {
        match self {
            PendingView::Rebinding { keystring, user_handler, user_data } => Model::<
                T,
                F,
            >::callable(user_handler, user_data),
            _ => true,
        }
    }
}

impl<T, F: Fn(String, &T)> StepView<T, F> {
    /// What a step leaves pending is well formed.
    pub open spec fn wf(self) -> bool {
        match self {
            StepView::Call { call, then } => then.wf(),
            StepView::Done { accepted } => true,
        }
    }
}

/// Whether every handle of `handles` lies below `bound`.
pub open spec fn below(handles: Set<nat>, bound: nat) -> bool {
    forall|handle: nat| handles.contains(handle) ==> handle < bound
}

impl<T, F: Fn(String, &T)> Model<T, F> {
    /// The state of a registry that has never held a registration.
    pub open spec fn empty() -> Self {
        Model { active: Map::empty(), storage: Map::empty(), trace: Seq::empty() }
    }

    /// Whether `keystring` has an active registration.
    pub open spec fn is_bound(self, keystring: Seq<char>) -> bool {
        self.active.contains_key(keystring)
    }

    /// Whether `handle` is the lowest handle with no storage behind it.
    pub open spec fn is_vacancy(self, handle: nat) -> bool {
        &&& !self.storage.contains_key(handle)
        &&& forall|lower: nat| lower < handle ==> self.storage.contains_key(lower)
    }

    /// The handle that the next allocation gets.
    pub open spec fn vacancy(self) -> nat {
        choose|handle: nat| self.is_vacancy(handle)
    }

    /// Whether `keystring` is the active identifier with the lowest handle.
    pub open spec fn is_foremost(self, keystring: Seq<char>) -> bool {
        &&& self.active.contains_key(keystring)
        &&& forall|other: Seq<char>| #[trigger]
            self.active.contains_key(other) ==> self.active[keystring] <= self.active[other]
    }

    /// The active identifier with the lowest handle.
    pub open spec fn foremost(self) -> Seq<char> {
        choose|keystring: Seq<char>| self.is_foremost(keystring)
    }

    /// Whether `user_handler` may be called with every identifier and
    /// `user_data`.
    pub open spec fn callable(user_handler: F, user_data: T) -> bool {
        forall|keystring: String| #[trigger] call_requires(user_handler, (keystring, &user_data))
    }

    /// The state after a registration for `keystring` has been allocated
    /// under `handle` and made active.
    pub open spec fn install(
        self,
        keystring: Seq<char>,
        handle: nat,
        user_handler: F,
        user_data: T,
    ) -> Self {
        Model {
            active: self.active.insert(keystring, handle),
            storage: self.storage.insert(handle, Stored { keystring, user_handler, user_data }),
            trace: self.trace.push(Event::Allocated { handle }).push(
                Event::Inserted { keystring, handle },
            ),
        }
    }

    /// The state after the native side dropped `keystring` and its
    /// registration, if it had one, was reclaimed: the storage is released
    /// first, then the identifier leaves the map.
    pub open spec fn retire(self, keystring: Seq<char>) -> Self {
        if self.active.contains_key(keystring) {
            let handle = self.active[keystring];
            Model {
                active: self.active.remove(keystring),
                storage: self.storage.remove(handle),
                trace: self.trace.push(Event::Dropped { keystring }).push(
                    Event::Released { keystring, handle },
                ).push(Event::Removed { keystring }),
            }
        } else {
            self
        }
    }

    /// The state after every identifier of `order` was retired in turn.
    pub open spec fn retire_all(self, order: Seq<Seq<char>>) -> Self
        decreases order.len(),
    {
        if order.len() == 0 {
            self
        } else {
            self.retire(order[0]).retire_all(order.skip(1))
        }
    }

    /// Whether no identifier is active.
    pub open spec fn is_empty(self) -> bool {
        forall|keystring: Seq<char>| !self.active.contains_key(keystring)
    }

    /// The state after `keystring`, which is not active, was bound to
    /// `user_handler` and `user_data` under the next free handle.
    pub open spec fn claim(self, keystring: Seq<char>, user_handler: F, user_data: T) -> Self {
        self.install(keystring, self.vacancy(), user_handler, user_data)
    }

    /// The request to register `keystring`. An identifier that is active
    /// has to be dropped by the native side first, and nothing changes
    /// until it has been; otherwise the registration is made at once and
    /// the native side is told of it.
    pub open spec fn bind(self, keystring: Seq<char>, user_handler: F, user_data: T) -> (
        Self,
        StepView<T, F>,
    ) {
        if self.active.contains_key(keystring) {
            (
                self,
                StepView::Call {
                    call: Call::UnbindAll { keystring },
                    then: PendingView::Rebinding { keystring, user_handler, user_data },
                },
            )
        } else {
            (
                self.claim(keystring, user_handler, user_data),
                StepView::Call {
                    call: Call::Bind { keystring, handle: self.vacancy() },
                    then: PendingView::Binding,
                },
            )
        }
    }

    /// The request to unregister `keystring`: nothing to do where it is not
    /// active, and otherwise the native side has to drop it first.
    pub open spec fn unbind(self, keystring: Seq<char>) -> StepView<T, F> {
        if self.active.contains_key(keystring) {
            StepView::Call {
                call: Call::UnbindAll { keystring },
                then: PendingView::Unbinding { keystring },
            }
        } else {
            StepView::Done { accepted: None }
        }
    }

    /// The request to retire whatever is still active, starting with the
    /// identifier whose handle is lowest.
    pub open spec fn teardown(self) -> StepView<T, F> {
        if self.is_empty() {
            StepView::Done { accepted: None }
        } else {
            StepView::Call {
                call: Call::UnbindAll { keystring: self.foremost() },
                then: PendingView::TearingDown { keystring: self.foremost() },
            }
        }
    }

    /// The next state and step once the native call that `pending` waited
    /// for has returned, with `reply` as what it returned (of no account
    /// where the call returns nothing).
    pub open spec fn resume(self, pending: PendingView<T, F>, reply: bool) -> (
        Self,
        StepView<T, F>,
    ) {
        match pending {
            PendingView::Unbinding { keystring } => (
                self.retire(keystring),
                StepView::Done { accepted: None },
            ),
            PendingView::Rebinding { keystring, user_handler, user_data } => (
                self.retire(keystring).claim(keystring, user_handler, user_data),
                StepView::Call {
                    call: Call::Bind { keystring, handle: self.retire(keystring).vacancy() },
                    then: PendingView::Binding,
                },
            ),
            PendingView::TearingDown { keystring } => (
                self.retire(keystring),
                self.retire(keystring).teardown(),
            ),
            PendingView::Binding => (self, StepView::Done { accepted: Some(reply) }),
        }
    }

    /// The invariant of a registry.
    pub open spec fn wf(self) -> bool {
        &&& self.active.dom().finite()
        &&& self.storage.dom().finite()
        &&& forall|keystring: Seq<char>| #[trigger]
            self.active.contains_key(keystring) ==> self.storage.contains_key(
                self.active[keystring],
            ) && self.storage[self.active[keystring]].keystring == keystring
        &&& forall|handle: nat| #[trigger]
            self.storage.contains_key(handle) ==> self.active.contains_key(
                self.storage[handle].keystring,
            ) && self.active[self.storage[handle].keystring] == handle
        &&& forall|handle: nat| #[trigger]
            self.storage.contains_key(handle) ==> Self::callable(
                self.storage[handle].user_handler,
                self.storage[handle].user_data,
            )
        &&& allocations(self.trace) == insertions(self.trace)
        &&& allocations(self.trace) == releases(self.trace) + self.active.len()
        &&& forall|handle: nat| #[trigger]
            allocations_of(self.trace, handle) == releases_of(self.trace, handle)
                + if self.storage.contains_key(handle) {
                1nat
            } else {
                0nat
            }
        &&& released_after_drop(self.trace)
    }

    /// There is one lowest free handle at most.
    pub proof fn lemma_vacancy_unique(self, handle: nat)
        requires
            self.is_vacancy(handle),
        ensures
            self.vacancy() == handle,
    {
        let chosen = self.vacancy();
        assert(self.is_vacancy(chosen));
        if chosen < handle {
            assert(self.storage.contains_key(chosen));
        }
        if handle < chosen {
            assert(self.storage.contains_key(handle));
        }
    }

    /// There is one active identifier with the lowest handle at most.
    pub proof fn lemma_foremost_unique(self, keystring: Seq<char>)
        requires
            self.wf(),
            self.is_foremost(keystring),
        ensures
            self.foremost() == keystring,
    {
        let chosen = self.foremost();
        assert(self.is_foremost(chosen));
        assert(self.active.contains_key(chosen));
        assert(self.active.contains_key(keystring));
        assert(self.active[chosen] == self.active[keystring]);
        assert(self.storage[self.active[chosen]].keystring == chosen);
    }

    /// A finite set of handles leaves some handle out.
    proof fn lemma_some_handle_free(handles: Set<nat>)
        requires
            handles.finite(),
        ensures
            exists|bound: nat| below(handles, bound),
        decreases handles.len(),
    {
        if handles.len() == 0 {
            assert(below(handles, 0));
        } else {
            let one = handles.choose();
            Self::lemma_some_handle_free(handles.remove(one));
            let rest = choose|bound: nat| below(handles.remove(one), bound);
            let bound = if rest > one {
                rest
            } else {
                (one + 1) as nat
            };
            assert forall|handle: nat| handles.contains(handle) implies handle < bound by {
                if handle != one {
                    assert(handles.remove(one).contains(handle));
                }
            }
            assert(below(handles, bound));
        }
    }

    /// Below a handle that is free there is a lowest free one.
    proof fn lemma_lowest_free(self, free: nat)
        requires
            !self.storage.contains_key(free),
        ensures
            exists|handle: nat| self.is_vacancy(handle),
        decreases free,
    {
        if exists|lower: nat| lower < free && !self.storage.contains_key(lower) {
            let lower = choose|lower: nat| lower < free && !self.storage.contains_key(lower);
            self.lemma_lowest_free(lower);
        } else {
            assert(self.is_vacancy(free));
        }
    }

    /// Among the handles in use, from one of them down, there is a lowest.
    proof fn lemma_lowest_used(self, used: nat)
        requires
            self.storage.contains_key(used),
        ensures
            exists|handle: nat| #[trigger]
                self.storage.contains_key(handle) && forall|other: nat|
                    self.storage.contains_key(other) ==> handle <= other,
        decreases used,
    {
        if exists|lower: nat| lower < used && self.storage.contains_key(lower) {
            let lower = choose|lower: nat| lower < used && self.storage.contains_key(lower);
            self.lemma_lowest_used(lower);
        } else {
            assert(forall|other: nat| self.storage.contains_key(other) ==> used <= other);
        }
    }

    /// A registry with finitely many registrations has a next free handle.
    pub proof fn lemma_vacancy_exists(self)
        requires
            self.storage.dom().finite(),
        ensures
            self.is_vacancy(self.vacancy()),
    {
        Self::lemma_some_handle_free(self.storage.dom());
        let bound = choose|bound: nat| below(self.storage.dom(), bound);
        if self.storage.contains_key(bound) {
            assert(self.storage.dom().contains(bound));
        }
        self.lemma_lowest_free(bound);
    }

    /// A registry with an active identifier has a foremost one.
    pub proof fn lemma_foremost_exists(self)
        requires
            self.wf(),
            !self.is_empty(),
        ensures
            self.is_foremost(self.foremost()),
    {
        let some = choose|keystring: Seq<char>| self.active.contains_key(keystring);
        assert(self.storage.contains_key(self.active[some]));
        self.lemma_lowest_used(self.active[some]);
        let lowest = choose|handle: nat| #[trigger]
            self.storage.contains_key(handle) && forall|other: nat|
                self.storage.contains_key(other) ==> handle <= other;
        let keystring = self.storage[lowest].keystring;
        assert forall|other: Seq<char>| #[trigger]
            self.active.contains_key(other) implies self.active[keystring]
            <= self.active[other] by {
            assert(self.storage.contains_key(self.active[other]));
        }
        assert(self.is_foremost(keystring));
    }

    /// Binding an identifier that is not active keeps the registry well
    /// formed, and costs one allocation and no release.
    pub proof fn lemma_claim_wf(self, keystring: Seq<char>, user_handler: F, user_data: T)
        requires
            self.wf(),
            !self.active.contains_key(keystring),
            Self::callable(user_handler, user_data),
        ensures
            self.claim(keystring, user_handler, user_data).wf(),
            self.claim(keystring, user_handler, user_data).active.len() == self.active.len() + 1,
            allocations(self.claim(keystring, user_handler, user_data).trace) == allocations(
                self.trace,
            ) + 1,
            releases(self.claim(keystring, user_handler, user_data).trace) == releases(
                self.trace,
            ),
    {
        self.lemma_vacancy_exists();
        self.lemma_install_wf(keystring, self.vacancy(), user_handler, user_data);
    }

    /// A registry that has never held a registration is well formed.
    pub proof fn lemma_empty_wf()
        ensures
            Self::empty().wf(),
    {
        let m = Self::empty();
        assert(m.active.len() == 0);
        assert forall|handle: nat| #[trigger]
            allocations_of(m.trace, handle) == releases_of(m.trace, handle) + 0nat by {}
    }

    /// Installing a registration for an identifier that is not active,
    /// under a handle that is not in use, keeps the registry well formed.
    pub proof fn lemma_install_wf(
        self,
        keystring: Seq<char>,
        handle: nat,
        user_handler: F,
        user_data: T,
    )
        requires
            self.wf(),
            !self.active.contains_key(keystring),
            !self.storage.contains_key(handle),
            Self::callable(user_handler, user_data),
        ensures
            self.install(keystring, handle, user_handler, user_data).wf(),
            self.install(keystring, handle, user_handler, user_data).active.len()
                == self.active.len() + 1,
            allocations(self.install(keystring, handle, user_handler, user_data).trace)
                == allocations(self.trace) + 1,
            releases(self.install(keystring, handle, user_handler, user_data).trace) == releases(
                self.trace,
            ),
    {
        let next = self.install(keystring, handle, user_handler, user_data);
        let first = Event::Allocated { handle };
        let second = Event::Inserted { keystring, handle };
        let middle = self.trace.push(first);
        lemma_counts_push(self.trace, first);
        lemma_counts_push(middle, second);
        assert(next.trace == middle.push(second));
        assert forall|i: int| 0 <= i < next.trace.len() && (#[trigger] next.trace[i]) is Released
            implies i >= 1 && next.trace[i - 1] == (Event::Dropped {
            keystring: next.trace[i]->Released_keystring,
        }) by {
            assert(i < self.trace.len());
            assert(next.trace[i] == self.trace[i]);
            assert(next.trace[i - 1] == self.trace[i - 1]);
        }
        assert forall|other: Seq<char>| #[trigger]
            next.active.contains_key(other) implies next.storage.contains_key(next.active[other])
            && next.storage[next.active[other]].keystring == other by {
            if other != keystring {
                assert(self.active.contains_key(other));
            }
        }
        assert forall|other: nat| #[trigger]
            next.storage.contains_key(other) implies next.active.contains_key(
            next.storage[other].keystring,
        ) && next.active[next.storage[other].keystring] == other by {
            if other != handle {
                assert(self.storage.contains_key(other));
            }
        }
        assert forall|other: nat| #[trigger]
            next.storage.contains_key(other) implies Self::callable(
            next.storage[other].user_handler,
            next.storage[other].user_data,
        ) by {
            if other != handle {
                assert(self.storage.contains_key(other));
            }
        }
    }

    /// Retiring an identifier keeps the registry well formed.
    pub proof fn lemma_retire_wf(self, keystring: Seq<char>)
        requires
            self.wf(),
        ensures
            self.retire(keystring).wf(),
            allocations(self.retire(keystring).trace) == allocations(self.trace),
            self.active.contains_key(keystring) ==> self.retire(keystring).active.len() + 1
                == self.active.len() && releases(self.retire(keystring).trace) == releases(
                self.trace,
            ) + 1,
    {
        if self.active.contains_key(keystring) {
            let next = self.retire(keystring);
            let handle = self.active[keystring];
            let first = Event::Dropped { keystring };
            let second = Event::Released { keystring, handle };
            let third = Event::Removed { keystring };
            let one = self.trace.push(first);
            let two = one.push(second);
            lemma_counts_push(self.trace, first);
            lemma_counts_push(one, second);
            lemma_counts_push(two, third);
            assert(next.trace == two.push(third));
            assert forall|i: int|
                0 <= i < next.trace.len() && (#[trigger] next.trace[i]) is Released implies i >= 1
                && next.trace[i - 1] == (Event::Dropped {
                keystring: next.trace[i]->Released_keystring,
            }) by {
                if i < self.trace.len() {
                    assert(next.trace[i] == self.trace[i]);
                    assert(next.trace[i - 1] == self.trace[i - 1]);
                } else {
                    assert(i == self.trace.len() + 1);
                    assert(next.trace[i - 1] == first);
                }
            }
            assert forall|other: Seq<char>| #[trigger]
                next.active.contains_key(other) implies next.storage.contains_key(
                next.active[other],
            ) && next.storage[next.active[other]].keystring == other by {
                assert(self.active.contains_key(other));
            }
            assert forall|other: nat| #[trigger]
                next.storage.contains_key(other) implies next.active.contains_key(
                next.storage[other].keystring,
            ) && next.active[next.storage[other].keystring] == other by {
                assert(self.storage.contains_key(other));
            }
            assert forall|other: nat| #[trigger]
                next.storage.contains_key(other) implies Self::callable(
                next.storage[other].user_handler,
                next.storage[other].user_data,
            ) by {
                assert(self.storage.contains_key(other));
            }
        }
    }
}

} // verus!
