//! The calls into the native hotkey facility that the registry asks for.

use vstd::prelude::*;

verus! {

/// A call that the embedding program must make on the native facility.
pub enum NativeCall {
    /// One-time initialization of the facility for the whole process.
    Init,
    /// Switches the process-wide cooked-accelerator mode on or off.
    SetUseCookedAccelerators(bool),
    /// Registers `keystring`, with `handle` as the opaque data handed back
    /// on every key press.
    Bind { keystring: String, handle: usize },
    /// Drops every native binding of `keystring`.
    UnbindAll { keystring: String },
}

/// What a [`NativeCall`] says, with the key combination as a sequence of
/// characters.
pub ghost enum Call {
    Init,
    SetUseCookedAccelerators(bool),
    Bind { keystring: Seq<char>, handle: nat },
    UnbindAll { keystring: Seq<char> },
}

impl View for NativeCall {
    type V = Call;

    open spec fn view(&self) -> Call {
        match self {
            NativeCall::Init => Call::Init,
            NativeCall::SetUseCookedAccelerators(on) => Call::SetUseCookedAccelerators(*on),
            NativeCall::Bind { keystring, handle } => Call::Bind {
                keystring: keystring@,
                handle: *handle as nat,
            },
            NativeCall::UnbindAll { keystring } => Call::UnbindAll { keystring: keystring@ },
        }
    }
}

/// The platform or session lacks the hotkey facility.
#[derive(Debug, Clone, Copy, PartialEq, Eq)]
pub struct Unsupported;

} // verus!
