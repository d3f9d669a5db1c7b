use keybinder::init::InitFlag;
use keybinder::native::{NativeCall, Unsupported};
use keybinder::registry::{KeyBinder, Pending, Step};
use std::cell::RefCell;
use std::collections::HashMap;
use std::rc::Rc;

/// What the test doubles write down, in the order in which it happened.
type Journal = Rc<RefCell<Vec<String>>>;

/// A context that reports when it is handed to a callback and when its
/// storage is freed.
struct Probe {
    value: u32,
    journal: Journal,
}

impl Drop for Probe {
    fn drop(&mut self) {
        self.journal.borrow_mut().push(format!("release {}", self.value));
    }
}

type Handler = fn(String, &Probe);

type Binder = KeyBinder<Probe, Handler>;

fn observe(keystring: String, probe: &Probe) {
    probe.journal.borrow_mut().push(format!("callback {} {}", keystring, probe.value));
}

/// A stand-in for the native facility: it accepts or rejects every
/// registration as told, and remembers what is registered.
struct MockNative {
    accept: bool,
    bound: HashMap<String, usize>,
    initialized: usize,
    cooked: Option<bool>,
    journal: Journal,
}

impl MockNative {
    fn new(accept: bool, journal: &Journal) -> MockNative {
        MockNative {
            accept,
            bound: HashMap::new(),
            initialized: 0,
            cooked: None,
            journal: journal.clone(),
        }
    }

    fn perform(&mut self, call: NativeCall) -> bool {
        match call {
            NativeCall::Init => {
                self.initialized += 1;
                self.journal.borrow_mut().push("native init".to_string());
                true
            }
            NativeCall::SetUseCookedAccelerators(on) => {
                self.cooked = Some(on);
                true
            }
            NativeCall::Bind { keystring, handle } => {
                self.journal.borrow_mut().push(format!("native bind {} {}", keystring, handle));
                if self.accept {
                    self.bound.insert(keystring, handle);
                }
                self.accept
            }
            NativeCall::UnbindAll { keystring } => {
                self.journal.borrow_mut().push(format!("native unbind {}", keystring));
                self.bound.remove(&keystring);
                true
            }
        }
    }

    /// A key press: the callback runs where the identifier is known.
    fn press(&self, binder: &Binder, keystring: &str) -> bool {
        match self.bound.get(keystring) {
            Some(handle) => binder.dispatch(keystring, *handle),
            None => false,
        }
    }
}

fn drive(binder: &mut Binder, native: &mut MockNative, first: Step<Probe, Handler>) -> Option<bool> {
    let mut step = first;
    loop {
        match step {
            Step::Call { call, then } => {
                let reply = native.perform(call);
                step = binder.resume(then, reply);
            }
            Step::Done { accepted } => return accepted,
        }
    }
}

fn journal() -> Journal {
    Rc::new(RefCell::new(Vec::new()))
}

fn probe(value: u32, journal: &Journal) -> Probe {
    Probe { value, journal: journal.clone() }
}

fn construct(native: &mut MockNative, flag: &mut InitFlag, use_cooked: bool) -> Binder {
    match Binder::new(true, flag, use_cooked) {
        Ok((binder, calls)) => {
            for call in calls {
                native.perform(call);
            }
            binder
        }
        Err(_) => panic!("the facility was reported as supported"),
    }
}

fn bind(binder: &mut Binder, native: &mut MockNative, keystring: &str, context: Probe) -> bool {
    let step = binder.bind(keystring, observe, context);
    match drive(binder, native, step) {
        Some(accepted) => accepted,
        None => panic!("a bind ends with the native verdict"),
    }
}

fn unbind(binder: &mut Binder, native: &mut MockNative, keystring: &str) {
    let step = binder.unbind(keystring);
    assert_eq!(drive(binder, native, step), None);
}

fn teardown(binder: &mut Binder, native: &mut MockNative) {
    let step = binder.teardown();
    assert_eq!(drive(binder, native, step), None);
}

fn count(journal: &Journal, prefix: &str) -> usize {
    journal.borrow().iter().filter(|line| line.starts_with(prefix)).count()
}

fn index_of(journal: &Journal, line: &str) -> usize {
    match journal.borrow().iter().position(|entry| entry == line) {
        Some(at) => at,
        None => panic!("{} is not in the journal", line),
    }
}

fn last_index_of(journal: &Journal, line: &str) -> usize {
    match journal.borrow().iter().rposition(|entry| entry == line) {
        Some(at) => at,
        None => panic!("{} is not in the journal", line),
    }
}

#[test]
fn unsupported_platform_yields_no_registry() {
    let mut flag = InitFlag::new();
    let made = Binder::new(false, &mut flag, true);
    assert!(matches!(made, Err(Unsupported)));
    assert!(!flag.get());
}

#[test]
fn first_construction_initializes_and_sets_mode() {
    let mut flag = InitFlag::new();
    match Binder::new(true, &mut flag, true) {
        Ok((binder, calls)) => {
            assert_eq!(calls.len(), 2);
            assert!(matches!(calls[0], NativeCall::Init));
            assert!(matches!(calls[1], NativeCall::SetUseCookedAccelerators(true)));
            assert!(binder.is_empty());
        }
        Err(_) => panic!("the facility was reported as supported"),
    }
    assert!(flag.get());
}

#[test]
fn later_constructions_skip_initialization() {
    let log = journal();
    let mut native = MockNative::new(true, &log);
    let mut flag = InitFlag::new();
    let _first = construct(&mut native, &mut flag, true);
    assert_eq!(native.cooked, Some(true));
    match Binder::new(true, &mut flag, false) {
        Ok((_, calls)) => {
            assert_eq!(calls.len(), 1);
            assert!(matches!(calls[0], NativeCall::SetUseCookedAccelerators(false)));
            for call in calls {
                native.perform(call);
            }
        }
        Err(_) => panic!("the facility was reported as supported"),
    }
    let _third = construct(&mut native, &mut flag, true);
    assert_eq!(native.initialized, 1);
    assert_eq!(native.cooked, Some(true));
}

#[test]
fn init_flag_is_claimed_once() {
    let mut flag = InitFlag::new();
    assert!(!flag.get());
    assert!(flag.claim());
    assert!(flag.get());
    assert!(!flag.claim());
    assert!(!flag.claim());
    flag.reset();
    assert!(!flag.get());
    assert!(flag.claim());
}

#[test]
fn bind_of_a_free_identifier_asks_for_native_bind() {
    let log = journal();
    let mut flag = InitFlag::new();
    let mut native = MockNative::new(true, &log);
    let mut binder = construct(&mut native, &mut flag, true);
    match binder.bind("<Shift>space", observe, probe(7, &log)) {
        Step::Call { call: NativeCall::Bind { keystring, handle }, .. } => {
            assert_eq!(keystring, "<Shift>space");
            assert_eq!(handle, 0);
        }
        _ => panic!("a free identifier is registered at once"),
    }
    assert!(binder.is_bound("<Shift>space"));
    assert_eq!(binder.handle_of("<Shift>space"), Some(0));
    assert!(!binder.is_empty());
    assert_eq!(count(&log, "release"), 0);
}

fn announced(step: Step<Probe, Handler>) -> Pending<Probe, Handler> {
    match step {
        Step::Call { call: NativeCall::Bind { .. }, then } => then,
        _ => panic!("the step asks the native side to register"),
    }
}

#[test]
fn bind_returns_the_native_verdict() {
    let log = journal();
    let mut flag = InitFlag::new();
    let mut accepting = MockNative::new(true, &log);
    let mut binder = construct(&mut accepting, &mut flag, true);
    assert!(bind(&mut binder, &mut accepting, "A", probe(1, &log)));
    let mut rejecting = MockNative::new(false, &log);
    assert!(!bind(&mut binder, &mut rejecting, "B", probe(2, &log)));
    let waiting = announced(binder.bind("C", observe, probe(3, &log)));
    assert!(matches!(binder.resume(waiting, true), Step::Done { accepted: Some(true) }));
    let waiting = announced(binder.bind("D", observe, probe(4, &log)));
    assert!(matches!(binder.resume(waiting, false), Step::Done { accepted: Some(false) }));
    assert!(binder.is_bound("C"));
    assert!(binder.is_bound("D"));
}

#[test]
fn rejected_registration_stays_until_unbound() {
    let log = journal();
    let mut flag = InitFlag::new();
    let mut native = MockNative::new(false, &log);
    let mut binder = construct(&mut native, &mut flag, true);
    assert!(!bind(&mut binder, &mut native, "A", probe(1, &log)));
    assert!(binder.is_bound("A"));
    assert_eq!(count(&log, "release"), 0);
    unbind(&mut binder, &mut native, "A");
    assert!(!binder.is_bound("A"));
    assert_eq!(count(&log, "release 1"), 1);
}

#[test]
fn handles_are_the_lowest_free_slots() {
    let log = journal();
    let mut flag = InitFlag::new();
    let mut native = MockNative::new(true, &log);
    let mut binder = construct(&mut native, &mut flag, true);
    bind(&mut binder, &mut native, "A", probe(1, &log));
    bind(&mut binder, &mut native, "B", probe(2, &log));
    bind(&mut binder, &mut native, "C", probe(3, &log));
    assert_eq!(binder.handle_of("A"), Some(0));
    assert_eq!(binder.handle_of("B"), Some(1));
    assert_eq!(binder.handle_of("C"), Some(2));
    unbind(&mut binder, &mut native, "B");
    assert_eq!(binder.handle_of("B"), None);
    bind(&mut binder, &mut native, "D", probe(4, &log));
    assert_eq!(binder.handle_of("D"), Some(1));
    assert_eq!(binder.handle_of("A"), Some(0));
    assert_eq!(binder.handle_of("C"), Some(2));
    unbind(&mut binder, &mut native, "A");
    unbind(&mut binder, &mut native, "D");
    bind(&mut binder, &mut native, "E", probe(5, &log));
    assert_eq!(binder.handle_of("E"), Some(0));
}

#[test]
fn every_allocation_is_released_once() {
    let log = journal();
    let mut flag = InitFlag::new();
    let mut native = MockNative::new(true, &log);
    let mut binder = construct(&mut native, &mut flag, true);
    bind(&mut binder, &mut native, "A", probe(1, &log));
    bind(&mut binder, &mut native, "B", probe(2, &log));
    unbind(&mut binder, &mut native, "A");
    bind(&mut binder, &mut native, "C", probe(3, &log));
    bind(&mut binder, &mut native, "D", probe(4, &log));
    unbind(&mut binder, &mut native, "D");
    bind(&mut binder, &mut native, "E", probe(5, &log));
    assert_eq!(count(&log, "native bind"), 5);
    assert_eq!(count(&log, "release"), 2);
    teardown(&mut binder, &mut native);
    assert!(binder.is_empty());
    assert_eq!(count(&log, "release"), 5);
    for value in 1..6 {
        assert_eq!(count(&log, &format!("release {}", value)), 1);
    }
    drop(binder);
    assert_eq!(count(&log, "release"), 5);
    assert!(native.bound.is_empty());
}

#[test]
fn rebinding_releases_the_first_registration_before_the_second_is_active() {
    let log = journal();
    let mut flag = InitFlag::new();
    let mut native = MockNative::new(true, &log);
    let mut binder = construct(&mut native, &mut flag, true);
    assert!(bind(&mut binder, &mut native, "X", probe(1, &log)));
    let pending = match binder.bind("X", observe, probe(2, &log)) {
        Step::Call { call: NativeCall::UnbindAll { keystring }, then } => {
            assert_eq!(keystring, "X");
            native.perform(NativeCall::UnbindAll { keystring });
            then
        }
        _ => panic!("an active identifier is dropped by the native side first"),
    };
    assert!(binder.is_bound("X"));
    assert_eq!(count(&log, "release"), 0);
    assert!(!native.press(&binder, "X"));
    match binder.resume(pending, true) {
        Step::Call { call: NativeCall::Bind { keystring, handle }, .. } => {
            assert_eq!(keystring, "X");
            assert_eq!(handle, 0);
            assert_eq!(count(&log, "release 1"), 1);
            assert_eq!(count(&log, "release 2"), 0);
            assert!(binder.is_bound("X"));
            assert!(native.perform(NativeCall::Bind { keystring, handle }));
        }
        _ => panic!("the new registration is announced to the native side"),
    }
    assert!(index_of(&log, "native unbind X") < index_of(&log, "release 1"));
    assert!(index_of(&log, "native bind X 0") < index_of(&log, "native unbind X"));
    assert!(index_of(&log, "release 1") < last_index_of(&log, "native bind X 0"));
    assert_eq!(count(&log, "native bind X 0"), 2);
    assert!(native.press(&binder, "X"));
    assert_eq!(count(&log, "callback X 2"), 1);
    assert_eq!(count(&log, "callback X 1"), 0);
}

#[test]
fn unbind_of_an_unknown_identifier_does_nothing() {
    let log = journal();
    let mut flag = InitFlag::new();
    let mut native = MockNative::new(true, &log);
    let mut binder = construct(&mut native, &mut flag, true);
    bind(&mut binder, &mut native, "A", probe(1, &log));
    let before = log.borrow().len();
    assert!(matches!(binder.unbind("never"), Step::Done { accepted: None }));
    unbind(&mut binder, &mut native, "never");
    assert_eq!(log.borrow().len(), before);
    assert!(binder.is_bound("A"));
    assert_eq!(binder.handle_of("A"), Some(0));
}

#[test]
fn unbind_waits_for_the_native_side() {
    let log = journal();
    let mut flag = InitFlag::new();
    let mut native = MockNative::new(true, &log);
    let mut binder = construct(&mut native, &mut flag, true);
    bind(&mut binder, &mut native, "A", probe(1, &log));
    let pending = match binder.unbind("A") {
        Step::Call { call: NativeCall::UnbindAll { keystring }, then } => {
            assert_eq!(keystring, "A");
            then
        }
        _ => panic!("an active identifier is dropped by the native side first"),
    };
    assert!(binder.is_bound("A"));
    assert_eq!(count(&log, "release"), 0);
    assert!(native.press(&binder, "A"));
    native.perform(NativeCall::UnbindAll { keystring: "A".to_string() });
    assert!(matches!(binder.resume(pending, true), Step::Done { accepted: None }));
    assert!(!binder.is_bound("A"));
    assert_eq!(count(&log, "release 1"), 1);
    assert!(index_of(&log, "native unbind A") < index_of(&log, "release 1"));
}

#[test]
fn two_unbinds_of_one_identifier_release_once() {
    let log = journal();
    let mut flag = InitFlag::new();
    let mut native = MockNative::new(true, &log);
    let mut binder = construct(&mut native, &mut flag, true);
    bind(&mut binder, &mut native, "A", probe(1, &log));
    bind(&mut binder, &mut native, "B", probe(2, &log));
    let first = binder.unbind("A");
    let second = binder.unbind("A");
    assert_eq!(drive(&mut binder, &mut native, first), None);
    assert_eq!(count(&log, "release"), 1);
    assert_eq!(drive(&mut binder, &mut native, second), None);
    assert_eq!(count(&log, "release"), 1);
    assert_eq!(count(&log, "release 1"), 1);
    assert!(!binder.is_bound("A"));
    assert!(binder.is_bound("B"));
    assert_eq!(binder.handle_of("B"), Some(1));
}

#[test]
fn teardown_releases_every_active_registration() {
    let log = journal();
    let mut flag = InitFlag::new();
    let mut native = MockNative::new(true, &log);
    let mut binder = construct(&mut native, &mut flag, true);
    bind(&mut binder, &mut native, "A", probe(1, &log));
    bind(&mut binder, &mut native, "B", probe(2, &log));
    bind(&mut binder, &mut native, "C", probe(3, &log));
    assert_eq!(count(&log, "release"), 0);
    teardown(&mut binder, &mut native);
    assert_eq!(count(&log, "release"), 3);
    assert_eq!(count(&log, "native unbind"), 3);
    assert!(binder.is_empty());
    assert!(native.bound.is_empty());
    for (keystring, value) in [("A", 1), ("B", 2), ("C", 3)] {
        assert!(!binder.is_bound(keystring));
        let dropped = index_of(&log, &format!("native unbind {}", keystring));
        let released = index_of(&log, &format!("release {}", value));
        assert_eq!(dropped + 1, released);
    }
}

#[test]
fn teardown_goes_by_handle() {
    let log = journal();
    let mut flag = InitFlag::new();
    let mut native = MockNative::new(true, &log);
    let mut binder = construct(&mut native, &mut flag, true);
    bind(&mut binder, &mut native, "A", probe(1, &log));
    bind(&mut binder, &mut native, "B", probe(2, &log));
    unbind(&mut binder, &mut native, "A");
    bind(&mut binder, &mut native, "C", probe(3, &log));
    match binder.teardown() {
        Step::Call { call: NativeCall::UnbindAll { keystring }, then } => {
            assert_eq!(keystring, "C");
            match binder.resume(then, true) {
                Step::Call { call: NativeCall::UnbindAll { keystring }, then } => {
                    assert_eq!(keystring, "B");
                    assert!(matches!(binder.resume(then, true), Step::Done { accepted: None }));
                }
                _ => panic!("one registration is left"),
            }
        }
        _ => panic!("two registrations are active"),
    }
    assert!(binder.is_empty());
}

#[test]
fn teardown_of_an_empty_registry_is_done_at_once() {
    let mut flag = InitFlag::new();
    let (binder, _) = match Binder::new(true, &mut flag, false) {
        Ok(made) => made,
        Err(_) => panic!("the facility was reported as supported"),
    };
    assert!(matches!(binder.teardown(), Step::Done { accepted: None }));
}

#[test]
fn dispatch_runs_the_callback_with_identifier_and_context() {
    let log = journal();
    let mut flag = InitFlag::new();
    let mut native = MockNative::new(true, &log);
    let mut binder = construct(&mut native, &mut flag, true);
    bind(&mut binder, &mut native, "A", probe(10, &log));
    bind(&mut binder, &mut native, "B", probe(20, &log));
    assert!(binder.dispatch("B", 1));
    assert!(binder.dispatch("A", 0));
    assert!(binder.dispatch("B", 1));
    assert_eq!(count(&log, "callback B 20"), 2);
    assert_eq!(count(&log, "callback A 10"), 1);
    assert_eq!(count(&log, "release"), 0);
    assert!(binder.is_bound("A"));
    assert!(binder.is_bound("B"));
}

#[test]
fn dispatch_ignores_a_handle_without_storage() {
    let log = journal();
    let mut flag = InitFlag::new();
    let mut native = MockNative::new(true, &log);
    let mut binder = construct(&mut native, &mut flag, true);
    assert!(!binder.dispatch("A", 0));
    bind(&mut binder, &mut native, "A", probe(10, &log));
    assert!(!binder.dispatch("A", 1));
    assert!(!binder.dispatch("A", 99));
    assert!(!binder.dispatch("A", usize::MAX));
    unbind(&mut binder, &mut native, "A");
    assert!(!binder.dispatch("A", 0));
    assert_eq!(count(&log, "callback"), 0);
}

#[test]
fn dispatch_forwards_the_identifier_that_came_in() {
    let log = journal();
    let mut flag = InitFlag::new();
    let mut native = MockNative::new(true, &log);
    let mut binder = construct(&mut native, &mut flag, true);
    bind(&mut binder, &mut native, "A", probe(10, &log));
    bind(&mut binder, &mut native, "B", probe(20, &log));
    assert!(binder.dispatch("B", 0));
    assert!(binder.dispatch("<Ctrl>q", 1));
    assert_eq!(count(&log, "callback B 10"), 1);
    assert_eq!(count(&log, "callback <Ctrl>q 20"), 1);
    assert_eq!(count(&log, "callback"), 2);
    assert_eq!(binder.handle_of("A"), Some(0));
    assert_eq!(binder.handle_of("B"), Some(1));
    assert!(!binder.is_bound("<Ctrl>q"));
    assert_eq!(count(&log, "release"), 0);
}

#[test]
fn dispatch_by_a_reused_handle_runs_the_registration_that_holds_it() {
    let log = journal();
    let mut flag = InitFlag::new();
    let mut native = MockNative::new(true, &log);
    let mut binder = construct(&mut native, &mut flag, true);
    bind(&mut binder, &mut native, "A", probe(10, &log));
    unbind(&mut binder, &mut native, "A");
    assert!(!binder.dispatch("A", 0));
    bind(&mut binder, &mut native, "B", probe(20, &log));
    assert!(binder.dispatch("B", 0));
    assert_eq!(count(&log, "callback B 20"), 1);
    assert_eq!(count(&log, "callback A 10"), 0);
}

#[test]
fn end_to_end_press_and_unbind() {
    let log = journal();
    let mut flag = InitFlag::new();
    let mut native = MockNative::new(true, &log);
    let mut binder = construct(&mut native, &mut flag, true);
    assert_eq!(native.initialized, 1);
    assert_eq!(native.cooked, Some(true));
    assert!(bind(&mut binder, &mut native, "X", probe(42, &log)));
    assert!(native.press(&binder, "X"));
    assert_eq!(count(&log, "callback X 42"), 1);
    unbind(&mut binder, &mut native, "X");
    assert!(!native.press(&binder, "X"));
    assert_eq!(count(&log, "callback X 42"), 1);
    assert_eq!(count(&log, "release 42"), 1);
    assert!(index_of(&log, "native unbind X") < index_of(&log, "release 42"));
}
