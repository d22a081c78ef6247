//! Callbacks that register with the execution engine on first use.
//!
//! A callback wraps a procedure. The engine gives a procedure an id when it
//! is registered, and runs it by that id. Registration is put off until the
//! callback is first called, so a callback that never fires costs nothing.

use vstd::prelude::*;

verus! {

/// A procedure of type `S`, registered lazily under an id of type `I`.
#[derive(Debug)]
pub enum MaybeRegistered<S, I> {
    /// Not registered yet: the procedure itself.
    System(S),
    /// Registered under this id.
    SystemId(I),
    /// Registered once and released since. The id is gone for good.
    Unregistered,
}

impl<S, I: Copy> MaybeRegistered<S, I> {
    /// Wraps `system`, unregistered.
    pub fn new(system: S) -> (callback: MaybeRegistered<S, I>)
        ensures
            callback == MaybeRegistered::<S, I>::System(system),
    {
        MaybeRegistered::System(system)
    }

    /// The id under which the callback is registered, if it is.
    pub fn registration(&self) -> (id: Option<I>)
        ensures
            id == match *self {
                MaybeRegistered::SystemId(id) => Some(id),
                _ => None,
            },
    {
        match self {
            MaybeRegistered::SystemId(id) => Some(*id),
            _ => None,
        }
    }

    /// The id to run the callback by.
    ///
    /// The first call hands the procedure to `register` and keeps the id
    /// that comes back; later calls return that id and leave `register`
    /// alone. A callback that was released has no id.
    pub fn id<F: FnOnce(S) -> I>(&mut self, register: F) -> (id: Option<I>)
        requires
            *old(self) matches MaybeRegistered::System(system) ==> call_requires(
                register,
                (system,),
            ),
        ensures
            match *old(self) {
                MaybeRegistered::System(system) => {
                    &&& id matches Some(fresh)
                    &&& call_ensures(register, (system,), fresh)
                    &&& *final(self) == MaybeRegistered::<S, I>::SystemId(fresh)
                },
                MaybeRegistered::SystemId(known) => {
                    &&& id == Some(known)
                    &&& *final(self) == *old(self)
                },
                MaybeRegistered::Unregistered => {
                    &&& id is None
                    &&& *final(self) == *old(self)
                },
            },
    {
        let mut state = MaybeRegistered::Unregistered;
        core::mem::swap(self, &mut state);
        match state {
            MaybeRegistered::System(system) => {
                let id = register(system);
                *self = MaybeRegistered::SystemId(id);
                Some(id)
            },
            MaybeRegistered::SystemId(id) => {
                *self = MaybeRegistered::SystemId(id);
                Some(id)
            },
            MaybeRegistered::Unregistered => None,
        }
    }

    /// Gives up the registration and returns the id to release.
    ///
    /// A callback that was never registered stays as it is and can still be
    /// called; one that was released already stays released. Either way
    /// nothing is returned.
    pub fn unregister(&mut self) -> (id: Option<I>)
        ensures
            match *old(self) {
                MaybeRegistered::SystemId(known) => {
                    &&& id == Some(known)
                    &&& *final(self) == MaybeRegistered::<S, I>::Unregistered
                },
                _ => {
                    &&& id is None
                    &&& *final(self) == *old(self)
                },
            },
    {
        match self.registration() {
            Some(id) => {
                *self = MaybeRegistered::Unregistered;
                Some(id)
            },
            None => None,
        }
    }
}

} // verus!
