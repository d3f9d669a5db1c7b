//! The record of what a registry did to storage, to its map of active
//! identifiers, and what it learnt of the native side.

use vstd::prelude::*;

verus! {

/// One entry of a registry's history.
pub ghost enum Event {
    /// Storage was set aside for a registration under `handle`.
    Allocated { handle: nat },
    /// `keystring` became active, with `handle` as its storage.
    Inserted { keystring: Seq<char>, handle: nat },
    /// The native side has dropped `keystring`.
    Dropped { keystring: Seq<char> },
    /// The storage under `handle`, which belonged to `keystring`, was freed.
    Released { keystring: Seq<char>, handle: nat },
    /// `keystring` left the map of active identifiers.
    Removed { keystring: Seq<char> },
}

/// How many allocations `trace` records.
pub open spec fn allocations(trace: Seq<Event>) -> nat
    decreases trace.len(),
{
    if trace.len() == 0 {
        0
    } else {
        allocations(trace.drop_last()) + if trace.last() is Allocated {
            1nat
        } else {
            0nat
        }
    }
}

/// How many insertions into the map of active identifiers `trace` records.
pub open spec fn insertions(trace: Seq<Event>) -> nat
    decreases trace.len(),
{
    if trace.len() == 0 {
        0
    } else {
        insertions(trace.drop_last()) + if trace.last() is Inserted {
            1nat
        } else {
            0nat
        }
    }
}

/// How many releases of storage `trace` records.
pub open spec fn releases(trace: Seq<Event>) -> nat
    decreases trace.len(),
{
    if trace.len() == 0 {
        0
    } else {
        releases(trace.drop_last()) + if trace.last() is Released {
            1nat
        } else {
            0nat
        }
    }
}

/// How many times `trace` records an allocation under `handle`.
pub open spec fn allocations_of(trace: Seq<Event>, handle: nat) -> nat
    decreases trace.len(),
{
    if trace.len() == 0 {
        0
    } else {
        allocations_of(trace.drop_last(), handle) + if trace.last() == (Event::Allocated {
            handle,
        }) {
            1nat
        } else {
            0nat
        }
    }
}

/// How many times `trace` records a release of the storage under `handle`.
pub open spec fn releases_of(trace: Seq<Event>, handle: nat) -> nat
    decreases trace.len(),
{
    if trace.len() == 0 {
        0
    } else {
        releases_of(trace.drop_last(), handle) + if trace.last() is Released
            && trace.last()->Released_handle == handle {
            1nat
        } else {
            0nat
        }
    }
}

/// Every release in `trace` comes directly after the native side dropped the
/// identifier whose storage it frees.
pub open spec fn released_after_drop(trace: Seq<Event>) -> bool {
    forall|i: int|
        0 <= i < trace.len() && (#[trigger] trace[i]) is Released ==> i >= 1 && trace[i - 1] == (
        Event::Dropped { keystring: trace[i]->Released_keystring })
}

/// The counts of `trace` with one more event at its end.
pub proof fn lemma_counts_push(trace: Seq<Event>, event: Event)
    ensures
        allocations(trace.push(event)) == allocations(trace) + if event is Allocated {
            1nat
        } else {
            0nat
        },
        insertions(trace.push(event)) == insertions(trace) + if event is Inserted {
            1nat
        } else {
            0nat
        },
        releases(trace.push(event)) == releases(trace) + if event is Released {
            1nat
        } else {
            0nat
        },
        forall|handle: nat| #[trigger]
            allocations_of(trace.push(event), handle) == allocations_of(trace, handle) + if event
                == (Event::Allocated { handle }) {
                1nat
            } else {
                0nat
            },
        forall|handle: nat| #[trigger]
            releases_of(trace.push(event), handle) == releases_of(trace, handle) + if event
                is Released && event->Released_handle == handle {
                1nat
            } else {
                0nat
            },
{
    assert(trace.push(event).drop_last() =~= trace);
    assert(trace.push(event).last() == event);
}

} // verus!
