//! The binding registry: the handle table that owns every callback and its
//! context, and the steps by which registrations come and go.

use crate::init::InitFlag;
use crate::model::{Model, PendingView, StepView, Stored};
use crate::native::{NativeCall, Unsupported};
use vstd::prelude::*;
use vstd::string::StringExecFns;

verus! {

/// One registration: the callback and the context that belong to a key
/// combination.
struct Registration<T, F> {
    keystring: String,
    user_handler: F,
    user_data: T,
}

impl<T, F> View for Registration<T, F> {
    type V = Stored<T, F>;

    closed spec fn view(&self) -> Stored<T, F> {
        Stored {
            keystring: self.keystring@,
            user_handler: self.user_handler,
            user_data: self.user_data,
        }
    }
}

/// What is left of an operation while the native side does its part. The
/// embedding program hands it back to [`KeyBinder::resume`] once the native
/// call has returned.
///
/// Only the registry makes such a value, and only together with the native
/// call that it waits for; it can be handed back once.
pub struct Pending<T, F> {
    rest: Rest<T, F>,
}

/// The ways in which an operation can go on.
enum Rest<T, F> {
    /// The native side drops `keystring`; then its registration is retired.
    Unbinding { keystring: String },
    /// The native side drops `keystring`; then its registration is retired
    /// and a new one takes its place.
    Rebinding { keystring: String, user_handler: F, user_data: T },
    /// The native side drops `keystring`; then its registration is retired
    /// and the teardown goes on.
    TearingDown { keystring: String },
    /// The native side registers an identifier; its verdict is the outcome.
    Binding,
}

impl<T, F> View for Pending<T, F> {
    type V = PendingView<T, F>;

    closed spec fn view(&self) -> PendingView<T, F> {
        match self.rest {
            Rest::Unbinding { keystring } => PendingView::Unbinding { keystring: keystring@ },
            Rest::Rebinding { keystring, user_handler, user_data } => PendingView::Rebinding {
                keystring: keystring@,
                user_handler,
                user_data,
            },
            Rest::TearingDown { keystring } => PendingView::TearingDown { keystring: keystring@ },
            Rest::Binding => PendingView::Binding,
        }
    }
}

/// What the registry answers to a request or to the completion of a native
/// call.
pub enum Step<T, F> {
    /// The embedding program makes `call` and then hands `then` to
    /// [`KeyBinder::resume`], together with what the call returned.
    Call { call: NativeCall, then: Pending<T, F> },
    /// The operation is complete. After a bind, `accepted` holds the native
    /// verdict.
    Done { accepted: Option<bool> },
}

impl<T, F> View for Step<T, F> {
    type V = StepView<T, F>;

    open spec fn view(&self) -> StepView<T, F> {
        match self {
            Step::Call { call, then } => StepView::Call { call: call@, then: then@ },
            Step::Done { accepted } => StepView::Done { accepted: *accepted },
        }
    }
}

/// The registry of one user of the hotkey facility.
///
/// A handle is the index of a slot of the table. A slot holds a
/// registration from the moment it is made until the moment it is retired;
/// nothing else ever frees one.
pub struct KeyBinder<T, F> {
    slots: Vec<Option<Registration<T, F>>>,
    model: Ghost<Model<T, F>>,
}

impl<T, F: Fn(String, &T)> View for KeyBinder<T, F> {
    type V = Model<T, F>;

    closed spec fn view(&self) -> Model<T, F> {
        self.model@
    }
}

impl<T, F: Fn(String, &T)> KeyBinder<T, F> {
    /// The table holds exactly the storage of the abstract state.
    spec fn table_matches(&self) -> bool {
        &&& forall|handle: nat| #[trigger]
            self.model@.storage.contains_key(handle) ==> handle < self.slots.len()
        &&& forall|i: int|
            0 <= i < self.slots.len() ==> ((#[trigger] self.slots[i]) is Some
                <==> self.model@.storage.contains_key(i as nat))
        &&& forall|i: int|
            0 <= i < self.slots.len() && (#[trigger] self.slots[i]) is Some
                ==> self.slots[i].unwrap()@ == self.model@.storage[i as nat]
    }

    /// The invariant of the registry: the table and the abstract state
    /// agree, and the abstract state is well formed.
    pub closed spec fn wf(&self) -> bool {
        &&& self.table_matches()
        &&& self.model@.wf()
    }

    /// The abstract state of a well-formed registry is well formed.
    pub proof fn lemma_wf(&self)
        requires
            self.wf(),
        ensures
            self@.wf(),
    {
    }

    /// Makes a registry, provided the facility is there.
    ///
    /// `supported` is what the native side answered when asked whether the
    /// facility is available, and `init` the flag that all registries of the
    /// process share. Without support there is no registry and the flag is
    /// left alone. Otherwise the result holds an empty registry and the
    /// native calls to make, in this order: the one-time initialization, if
    /// no registry has claimed it before, and the cooked-accelerator switch.
    pub fn new(supported: bool, init: &mut InitFlag, use_cooked: bool) -> (made: Result<
        (KeyBinder<T, F>, Vec<NativeCall>),
        Unsupported,
    >)
        ensures
            !supported ==> made is Err && final(init).is_set() == old(init).is_set(),
            supported ==> made is Ok && final(init).is_set(),
            made matches Ok((binder, calls)) ==> {
                &&& binder.wf()
                &&& binder@ == Model::<T, F>::empty()
                &&& old(init).is_set() ==> calls@ == seq![
                    NativeCall::SetUseCookedAccelerators(use_cooked),
                ]
                &&& !old(init).is_set() ==> calls@ == seq![
                    NativeCall::Init,
                    NativeCall::SetUseCookedAccelerators(use_cooked),
                ]
            },
    {
        if !supported {
            return Err(Unsupported);
        }
        let mut calls: Vec<NativeCall> = Vec::new();
        if init.claim() {
            calls.push(NativeCall::Init);
        }
        calls.push(NativeCall::SetUseCookedAccelerators(use_cooked));
        let binder = KeyBinder { slots: Vec::new(), model: Ghost(Model::<T, F>::empty()) };
        proof {
            Model::<T, F>::lemma_empty_wf();
        }
        Ok((binder, calls))
    }

    /// The first slot that holds a registration for `keystring`.
    fn position(&self, keystring: &String) -> (found: Option<usize>)
        ensures
            found matches Some(i) ==> i < self.slots.len() && self.slots[i as int] is Some
                && self.slots[i as int].unwrap().keystring@ == keystring@,
            found is None ==> forall|j: int|
                0 <= j < self.slots.len() && (#[trigger] self.slots[j]) is Some
                    ==> self.slots[j].unwrap().keystring@ != keystring@,
    {
        let mut i: usize = 0;
        while i < self.slots.len()
            invariant
                i <= self.slots.len(),
                forall|j: int|
                    0 <= j < i && (#[trigger] self.slots[j]) is Some
                        ==> self.slots[j].unwrap().keystring@ != keystring@,
            decreases self.slots.len() - i,
        {
            if let Some(registration) = &self.slots[i] {
                if registration.keystring == *keystring {
                    return Some(i);
                }
            }
            i += 1;
        }
        None
    }

    /// What `position` finds, in terms of the abstract state.
    proof fn lemma_position(&self, keystring: Seq<char>)
        requires
            self.wf(),
        ensures
            forall|i: int|
                0 <= i < self.slots.len() && (#[trigger] self.slots[i]) is Some
                    && self.slots[i].unwrap().keystring@ == keystring
                    ==> self@.active.contains_key(keystring) && self@.active[keystring] == i,
            self@.active.contains_key(keystring) ==> self@.active[keystring] < self.slots.len()
                && self.slots[self@.active[keystring] as int] is Some
                && self.slots[self@.active[keystring] as int].unwrap().keystring@ == keystring,
    {
        assert forall|i: int|
            0 <= i < self.slots.len() && (#[trigger] self.slots[i]) is Some
                && self.slots[i].unwrap().keystring@ == keystring implies self@.active.contains_key(
            keystring,
        ) && self@.active[keystring] == i by {
            assert(self.model@.storage.contains_key(i as nat));
            assert(self.slots[i].unwrap()@ == self.model@.storage[i as nat]);
        }
        if self@.active.contains_key(keystring) {
            let handle = self@.active[keystring];
            assert(self.model@.storage.contains_key(handle));
            assert(self.slots[handle as int] is Some);
            assert(self.slots[handle as int].unwrap()@ == self.model@.storage[handle]);
        }
    }

    /// The handle under which `keystring` is registered, if it is.
    pub fn handle_of(&self, keystring: &str) -> (found: Option<usize>)
        requires
            self.wf(),
        ensures
            found is Some <==> self@.is_bound(keystring@),
            found matches Some(handle) ==> self@.active[keystring@] == handle,
    {
        let owned = String::from_str(keystring);
        let found = self.position(&owned);
        proof {
            self.lemma_position(keystring@);
        }
        found
    }

    /// Whether `keystring` has an active registration.
    pub fn is_bound(&self, keystring: &str) -> (bound: bool)
        requires
            self.wf(),
        ensures
            bound == self@.is_bound(keystring@),
    {
        self.handle_of(keystring).is_some()
    }

    /// Whether no identifier is active.
    pub fn is_empty(&self) -> (empty: bool)
        requires
            self.wf(),
        ensures
            empty == self@.is_empty(),
    {
        self.foremost().is_none()
    }

    /// The lowest handle with no registration behind it.
    fn vacant(&self) -> (handle: usize)
        requires
            self.wf(),
        ensures
            handle <= self.slots.len(),
            self@.is_vacancy(handle as nat),
    {
        let mut i: usize = 0;
        while i < self.slots.len() && self.slots[i].is_some()
            invariant
                i <= self.slots.len(),
                forall|j: int| 0 <= j < i ==> (#[trigger] self.slots[j]) is Some,
            decreases self.slots.len() - i,
        {
            i += 1;
        }
        proof {
            assert forall|lower: nat| lower < i implies self.model@.storage.contains_key(
                lower,
            ) by {
                assert(self.slots[lower as int] is Some);
            }
        }
        i
    }

    /// The active identifier with the lowest handle, if any is active.
    fn foremost(&self) -> (first: Option<String>)
        requires
            self.wf(),
        ensures
            first is None <==> self@.is_empty(),
            first matches Some(keystring) ==> keystring@ == self@.foremost(),
    {
        let mut i: usize = 0;
        while i < self.slots.len() && self.slots[i].is_none()
            invariant
                i <= self.slots.len(),
                forall|j: int| 0 <= j < i ==> (#[trigger] self.slots[j]) is None,
            decreases self.slots.len() - i,
        {
            i += 1;
        }
        if i < self.slots.len() {
            let keystring = match &self.slots[i] {
                Some(registration) => registration.keystring.clone(),
                None => String::new(),
            };
            proof {
                self.lemma_position(keystring@);
                assert forall|other: Seq<char>| #[trigger]
                    self@.active.contains_key(other) implies self@.active[keystring@]
                    <= self@.active[other] by {
                    self.lemma_position(other);
                    if self@.active[other] < i {
                        assert(self.slots[self@.active[other] as int] is None);
                    }
                }
                self@.lemma_foremost_unique(keystring@);
            }
            Some(keystring)
        } else {
            proof {
                assert forall|other: Seq<char>| !self@.active.contains_key(other) by {
                    self.lemma_position(other);
                    if self@.active.contains_key(other) {
                        assert(self.slots[self@.active[other] as int] is None);
                    }
                }
            }
            None
        }
    }

    /// Allocates a registration for `keystring`, which is not active, under
    /// the lowest free handle, and makes it active.
    fn claim(&mut self, keystring: String, user_handler: F, user_data: T) -> (handle: usize)
        requires
            old(self).wf(),
            !old(self)@.is_bound(keystring@),
            Model::<T, F>::callable(user_handler, user_data),
        ensures
            final(self).wf(),
            final(self)@ == old(self)@.claim(keystring@, user_handler, user_data),
            handle == old(self)@.vacancy(),
    {
        let handle = self.vacant();
        let ghost before = self.model@;
        let ghost after = before.install(keystring@, handle as nat, user_handler, user_data);
        proof {
            before.lemma_vacancy_unique(handle as nat);
            before.lemma_install_wf(keystring@, handle as nat, user_handler, user_data);
        }
        let registration = Registration { keystring, user_handler, user_data };
        if handle == self.slots.len() {
            self.slots.push(Some(registration));
        } else {
            self.slots.set(handle, Some(registration));
        }
        self.model = Ghost(after);
        handle
    }

    /// Frees the storage of `keystring`, if it is active, and takes the
    /// identifier out of the active ones.
    fn retire(&mut self, keystring: &String)
        requires
            old(self).wf(),
        ensures
            final(self).wf(),
            final(self)@ == old(self)@.retire(keystring@),
    {
        let found = self.position(keystring);
        proof {
            self.lemma_position(keystring@);
            self.model@.lemma_retire_wf(keystring@);
        }
        if let Some(handle) = found {
            let ghost after = self.model@.retire(keystring@);
            self.slots.set(handle, None);
            self.model = Ghost(after);
        }
    }

    /// Asks for `keystring` to be registered with `user_handler` and
    /// `user_data`.
    ///
    /// Where `keystring` is active, nothing changes yet: the step asks the
    /// native side to drop it, and the earlier registration is retired, and
    /// the new one made, once that call has returned. Otherwise the
    /// registration is made at once, under the lowest free handle, and the
    /// step asks the native side to register it. A registration that the
    /// native side then rejects stays active, and keeps its storage, until
    /// it is unbound or torn down.
    ///
    /// The callback has to accept every identifier together with
    /// `user_data`.
    pub fn bind(&mut self, keystring: &str, user_handler: F, user_data: T) -> (step: Step<T, F>)
        requires
            old(self).wf(),
            Model::<T, F>::callable(user_handler, user_data),
        ensures
            final(self).wf(),
            (final(self)@, step@) == old(self)@.bind(keystring@, user_handler, user_data),
            step@.wf(),
    {
        let owned = String::from_str(keystring);
        proof {
            self.lemma_position(keystring@);
        }
        if self.position(&owned).is_some() {
            Step::Call {
                call: NativeCall::UnbindAll { keystring: owned.clone() },
                then: Pending { rest: Rest::Rebinding { keystring: owned, user_handler, user_data } },
            }
        } else {
            let handle = self.claim(owned.clone(), user_handler, user_data);
            Step::Call {
                call: NativeCall::Bind { keystring: owned, handle },
                then: Pending { rest: Rest::Binding },
            }
        }
    }

    /// Asks for `keystring` to be unregistered.
    ///
    /// Where it is not active there is nothing to do and no native call to
    /// make. Otherwise the step asks the native side to drop it; the
    /// registration stays as it is until that call has returned.
    pub fn unbind(&self, keystring: &str) -> (step: Step<T, F>)
        requires
            self.wf(),
        ensures
            step@ == self@.unbind(keystring@),
            !self@.is_bound(keystring@) ==> step@ == (StepView::<T, F>::Done { accepted: None }),
            step@.wf(),
    {
        let owned = String::from_str(keystring);
        proof {
            self.lemma_position(keystring@);
        }
        if self.position(&owned).is_some() {
            Step::Call {
                call: NativeCall::UnbindAll { keystring: owned.clone() },
                then: Pending { rest: Rest::Unbinding { keystring: owned } },
            }
        } else {
            Step::Done { accepted: None }
        }
    }

    /// Asks for every registration that is left to be retired, as the owner
    /// of the registry does before it gives the registry up.
    ///
    /// The step asks the native side to drop the active identifier with the
    /// lowest handle; each completion retires one registration and asks for
    /// the next, until none is left.
    pub fn teardown(&self) -> (step: Step<T, F>)
        requires
            self.wf(),
        ensures
            step@ == self@.teardown(),
            step@.wf(),
    {
        match self.foremost() {
            Some(keystring) => Step::Call {
                call: NativeCall::UnbindAll { keystring: keystring.clone() },
                then: Pending { rest: Rest::TearingDown { keystring } },
            },
            None => Step::Done { accepted: None },
        }
    }

    /// Goes on with an operation after the native call that it waited for
    /// has returned `reply` (of no account where the call returns nothing).
    ///
    /// Storage is released here and nowhere else, and only for the
    /// identifier that the native side has just dropped.
    pub fn resume(&mut self, pending: Pending<T, F>, reply: bool) -> (step: Step<T, F>)
        requires
            old(self).wf(),
            pending@.wf(),
        ensures
            final(self).wf(),
            (final(self)@, step@) == old(self)@.resume(pending@, reply),
            step@.wf(),
    {
        match pending.rest {
            Rest::Unbinding { keystring } => {
                self.retire(&keystring);
                Step::Done { accepted: None }
            },
            Rest::Rebinding { keystring, user_handler, user_data } => {
                self.retire(&keystring);
                let handle = self.claim(keystring.clone(), user_handler, user_data);
                Step::Call {
                    call: NativeCall::Bind { keystring, handle },
                    then: Pending { rest: Rest::Binding },
                }
            },
            Rest::TearingDown { keystring } => {
                self.retire(&keystring);
                self.teardown()
            },
            Rest::Binding => Step::Done { accepted: Some(reply) },
        }
    }

    /// Runs the callback that the native side asks for: the one whose
    /// registration `handle` stands for.
    ///
    /// The registration is found by the handle alone. Its callback gets
    /// `keystring`, the identifier as the native side passed it in, and a
    /// reference to the context; the registration itself is left as it
    /// is, so that a second key press runs the callback again. Nothing
    /// runs where there is no storage behind `handle`.
    pub fn dispatch(&self, keystring: &str, handle: usize) -> (invoked: bool)
        requires
            self.wf(),
        ensures
            invoked == self@.storage.contains_key(handle as nat),
            invoked ==> exists|pressed: String|
                pressed@ == keystring@ && #[trigger] call_ensures(
                    self@.storage[handle as nat].user_handler,
                    (pressed, &self@.storage[handle as nat].user_data),
                    (),
                ),
    {
        if handle >= self.slots.len() {
            return false;
        }
        match &self.slots[handle] {
            Some(registration) => {
                assert(self.model@.storage.contains_key(handle as nat));
                assert(registration@ == self.model@.storage[handle as nat]);
                let pressed = String::from_str(keystring);
                (registration.user_handler)(pressed, &registration.user_data);
                true
            },
            None => false,
        }
    }
}

} // verus!
