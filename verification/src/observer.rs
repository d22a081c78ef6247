//! The condition bridge: observers that watch the world on behalf of
//! condition fragments.
//!
//! An observer listens only while its fragment is the active leaf. At all
//! other times it is parked: its registration data is kept as it is, so that
//! whatever the predicate has accumulated is still there when the fragment
//! becomes active again.

use crate::token::EndToken;
use vstd::prelude::*;

verus! {

/// An observer is either listening on behalf of an activation, or parked.
#[derive(Debug)]
pub enum ObserverState<H> {
    /// Registered and listening; `token` ends the activation it serves.
    Active { handle: H, token: EndToken },
    /// Parked, with its registration data intact.
    Dormant { handle: H },
}

/// The observer installed for one condition.
#[derive(Debug)]
pub struct Installed<H> {
    /// The key of the condition, as its fragment carries it.
    pub key: u64,
    pub state: ObserverState<H>,
}

/// What a predicate answered.
#[derive(Debug)]
pub enum Answer<E> {
    /// The condition holds.
    Satisfied,
    /// The condition does not hold yet.
    Unsatisfied,
    /// The predicate could not be evaluated.
    Failed(E),
}

/// A bridge operation met a fragment that was not in the state it expected.
#[derive(Clone, Copy, Debug, PartialEq, Eq, Structural)]
pub enum ObserverError {
    /// Expected an observer on the sequence item.
    ExpectedObserver,
    /// Expected a parked observer on the sequence item.
    ExpectedDisabledObserver,
}

impl<H> ObserverState<H> {
    /// The registration data, whichever state the observer is in.
    pub open spec fn handle(self) -> H {
        match self {
            ObserverState::Active { handle, .. } => handle,
            ObserverState::Dormant { handle } => handle,
        }
    }

    /// The observer, parked.
    pub open spec fn parked(self) -> ObserverState<H> {
        ObserverState::Dormant { handle: self.handle() }
    }

    /// The observer, listening on behalf of `token`.
    pub open spec fn enabled(self, token: EndToken) -> ObserverState<H> {
        ObserverState::Active { handle: self.handle(), token }
    }
}

impl<E> Answer<E> {
    /// From a predicate that says whether the condition holds.
    pub fn from_bool(complete: bool) -> (v: Answer<E>)
        ensures
            v == if complete {
                Answer::<E>::Satisfied
            } else {
                Answer::<E>::Unsatisfied
            },
    {
        if complete {
            Answer::Satisfied
        } else {
            Answer::Unsatisfied
        }
    }

    /// From a predicate for which being triggered is enough.
    pub fn triggered() -> (v: Answer<E>)
        ensures
            v == Answer::<E>::Satisfied,
    {
        Answer::Satisfied
    }

    /// From a predicate that says whether the condition holds, or fails.
    pub fn from_result(result: Result<bool, E>) -> (v: Answer<E>)
        ensures
            v == match result {
                Ok(true) => Answer::<E>::Satisfied,
                Ok(false) => Answer::<E>::Unsatisfied,
                Err(e) => Answer::<E>::Failed(e),
            },
    {
        match result {
            Ok(true) => Answer::Satisfied,
            Ok(false) => Answer::Unsatisfied,
            Err(e) => Answer::Failed(e),
        }
    }

    /// From a predicate for which being triggered is enough, but which may
    /// fail.
    pub fn from_trigger_result(result: Result<(), E>) -> (v: Answer<E>)
        ensures
            v == match result {
                Ok(_) => Answer::<E>::Satisfied,
                Err(e) => Answer::<E>::Failed(e),
            },
    {
        match result {
            Ok(_) => Answer::Satisfied,
            Err(e) => Answer::Failed(e),
        }
    }
}

/// No two observers are installed under one key.
pub open spec fn distinct_keys<H>(observers: Seq<Installed<H>>) -> bool {
    forall|i: int, j: int|
        0 <= i < observers.len() && 0 <= j < observers.len() && i != j ==> (
        #[trigger] observers[i]).key != (#[trigger] observers[j]).key
}

/// Whether an observer is installed under `key`.
pub open spec fn installed<H>(observers: Seq<Installed<H>>, key: u64) -> bool {
    exists|i: int| 0 <= i < observers.len() && (#[trigger] observers[i]).key == key
}

/// Where the observer installed under `key` stands.
pub open spec fn slot<H>(observers: Seq<Installed<H>>, key: u64) -> int {
    choose|i: int| 0 <= i < observers.len() && (#[trigger] observers[i]).key == key
}

/// Whether the observer installed under `key` is listening.
pub open spec fn listening<H>(observers: Seq<Installed<H>>, key: u64) -> bool {
    installed(observers, key) && observers[slot(observers, key)].state is Active
}

/// Whether the observer installed under `key` is parked.
pub open spec fn parked<H>(observers: Seq<Installed<H>>, key: u64) -> bool {
    installed(observers, key) && observers[slot(observers, key)].state is Dormant
}

/// The observers with the one under `key` put into `state`.
pub open spec fn with_state<H>(observers: Seq<Installed<H>>, key: u64, state: ObserverState<H>)
    -> Seq<Installed<H>> {
    observers.update(slot(observers, key), Installed { key, state })
}

/// The observers after the one under `key` began to listen on behalf of
/// `token`.
pub open spec fn after_enable<H>(observers: Seq<Installed<H>>, key: u64, token: EndToken) -> Seq<
    Installed<H>,
> {
    if parked(observers, key) {
        with_state(observers, key, observers[slot(observers, key)].state.enabled(token))
    } else {
        observers
    }
}

/// The observers after the one under `key` was parked.
pub open spec fn after_park<H>(observers: Seq<Installed<H>>, key: u64) -> Seq<Installed<H>> {
    if listening(observers, key) {
        with_state(observers, key, observers[slot(observers, key)].state.parked())
    } else {
        observers
    }
}

/// What disabling the observer under `key` returns: the token that a
/// listening observer served; nothing for one that is parked already; an
/// error where no observer is installed.
pub open spec fn disabled<H>(observers: Seq<Installed<H>>, key: u64) -> Result<
    Option<EndToken>,
    ObserverError,
> {
    if listening(observers, key) {
        Ok(Some(observers[slot(observers, key)].state->token))
    } else if parked(observers, key) {
        Ok(None)
    } else {
        Err(ObserverError::ExpectedObserver)
    }
}

/// The observers without the one under `key`.
pub open spec fn after_uninstall<H>(observers: Seq<Installed<H>>, key: u64) -> Seq<Installed<H>> {
    if installed(observers, key) {
        observers.remove(slot(observers, key))
    } else {
        observers
    }
}

/// The registration data of the observer under `key`, if one is installed.
pub open spec fn handle_under<H>(observers: Seq<Installed<H>>, key: u64) -> Option<H> {
    if installed(observers, key) {
        Some(observers[slot(observers, key)].state.handle())
    } else {
        None
    }
}

/// The observers without those under `keys`.
pub open spec fn after_uninstall_all<H>(observers: Seq<Installed<H>>, keys: Seq<u64>) -> Seq<
    Installed<H>,
>
    decreases keys.len(),
{
    if keys.len() == 0 {
        observers
    } else {
        after_uninstall(after_uninstall_all(observers, keys.drop_last()), keys.last())
    }
}

/// The registration data of the observers that are removed when those under
/// `keys` are uninstalled one after the other, in that order.
pub open spec fn uninstalled_handles<H>(observers: Seq<Installed<H>>, keys: Seq<u64>) -> Seq<H>
    decreases keys.len(),
{
    if keys.len() == 0 {
        Seq::empty()
    } else {
        let before = uninstalled_handles(observers, keys.drop_last());
        match handle_under(after_uninstall_all(observers, keys.drop_last()), keys.last()) {
            Some(handle) => before.push(handle),
            None => before,
        }
    }
}

/// Keeps the observers of all condition fragments.
#[derive(Debug)]
pub struct ConditionBridge<H> {
    observers: Vec<Installed<H>>,
}

impl<H> View for ConditionBridge<H> {
    type V = Seq<Installed<H>>;

    closed spec fn view(&self) -> Seq<Installed<H>> {
        self.observers@
    }
}

impl<H> ConditionBridge<H> {
    /// The invariant of every bridge.
    pub open spec fn wf(&self) -> bool {
        distinct_keys(self@)
    }

    /// A bridge without observers.
    pub fn new() -> (bridge: ConditionBridge<H>)
        ensures
            bridge.wf(),
            bridge@ == Seq::<Installed<H>>::empty(),
    {
        ConditionBridge { observers: Vec::new() }
    }

    /// Number of observers installed.
    pub fn len(&self) -> (n: usize)
        ensures
            n == self@.len(),
    {
        self.observers.len()
    }

    fn find(&self, key: u64) -> (index: Option<usize>)
        requires
            self.wf(),
        ensures
            match index {
                Some(i) => installed(self@, key) && i == slot(self@, key) && i < self@.len()
                    && self@[i as int].key == key,
                None => !installed(self@, key),
            },
    {
        let mut index: usize = 0;
        while index < self.observers.len()
            invariant
                self.wf(),
                index <= self.observers.len(),
                forall|i: int| 0 <= i < index ==> (#[trigger] self@[i]).key != key,
            decreases self.observers.len() - index,
        {
            if self.observers[index].key == key {
                proof {
                    assert(self@[index as int].key == key);
                }
                return Some(index);
            }
            index = index + 1;
        }
        None
    }

    /// Whether the observer under `key` is listening.
    pub fn is_listening(&self, key: u64) -> (b: bool)
        requires
            self.wf(),
        ensures
            b == listening(self@, key),
    {
        match self.find(key) {
            Some(i) => match &self.observers[i].state {
                ObserverState::Active { .. } => true,
                ObserverState::Dormant { .. } => false,
            },
            None => false,
        }
    }

    /// Whether the observer under `key` is parked.
    pub fn is_parked(&self, key: u64) -> (b: bool)
        requires
            self.wf(),
        ensures
            b == parked(self@, key),
    {
        match self.find(key) {
            Some(i) => match &self.observers[i].state {
                ObserverState::Active { .. } => false,
                ObserverState::Dormant { .. } => true,
            },
            None => false,
        }
    }

    /// The registration data of the observer under `key`.
    pub fn handle(&self, key: u64) -> (h: Option<&H>)
        requires
            self.wf(),
        ensures
            match h {
                Some(handle) => installed(self@, key) && *handle == self@[slot(
                    self@,
                    key,
                )].state.handle(),
                None => !installed(self@, key),
            },
    {
        match self.find(key) {
            Some(i) => match &self.observers[i].state {
                ObserverState::Active { handle, .. } => Some(handle),
                ObserverState::Dormant { handle } => Some(handle),
            },
            None => None,
        }
    }

    fn put(&mut self, index: usize, key: u64, state: ObserverState<H>)
        requires
            old(self).wf(),
            index < old(self)@.len(),
            old(self)@[index as int].key == key,
        ensures
            final(self).wf(),
            final(self)@ == old(self)@.update(index as int, Installed { key, state }),
    {
        let _ = self.observers.remove(index);
        self.observers.insert(index, Installed { key, state });
        proof {
            assert(self@ =~= old(self)@.update(index as int, Installed { key, state }));
            lemma_update_keeps_keys(old(self)@, index as int, state);
        }
    }

    fn take(&mut self, index: usize) -> (state: ObserverState<H>)
        requires
            index < old(self)@.len(),
        ensures
            state == old(self)@[index as int].state,
            final(self)@ == old(self)@.remove(index as int),
    {
        self.observers.remove(index).state
    }

    /// Installs an observer under `key`, parked. An observer that was
    /// installed under the same key before is replaced.
    pub fn install(&mut self, key: u64, handle: H)
        requires
            old(self).wf(),
        ensures
            final(self).wf(),
            final(self)@ == if installed(old(self)@, key) {
                with_state(old(self)@, key, ObserverState::Dormant { handle })
            } else {
                old(self)@.push(Installed { key, state: ObserverState::Dormant { handle } })
            },
    {
        match self.find(key) {
            Some(i) => {
                self.put(i, key, ObserverState::Dormant { handle });
            },
            None => {
                self.observers.push(Installed { key, state: ObserverState::Dormant { handle } });
                proof {
                    let now = self@;
                    assert forall|i: int, j: int|
                        0 <= i < now.len() && 0 <= j < now.len() && i != j implies (
                    #[trigger] now[i]).key != (#[trigger] now[j]).key by {
                        if i < old(self)@.len() {
                            assert(now[i] == old(self)@[i]);
                        }
                        if j < old(self)@.len() {
                            assert(now[j] == old(self)@[j]);
                        }
                    }
                }
            },
        }
    }

    /// Removes the observer under `key` and returns its registration data.
    /// Removing an observer that is not there does nothing.
    pub fn uninstall(&mut self, key: u64) -> (handle: Option<H>)
        requires
            old(self).wf(),
        ensures
            final(self).wf(),
            !installed(final(self)@, key),
            final(self)@ == after_uninstall(old(self)@, key),
            handle == handle_under(old(self)@, key),
    {
        match self.find(key) {
            Some(i) => {
                let state = self.take(i);
                proof {
                    let before = old(self)@;
                    let now = self@;
                    assert forall|a: int| 0 <= a < now.len() implies (#[trigger] now[a]).key
                        != key by {
                        if a < i {
                            assert(now[a] == before[a]);
                        } else {
                            assert(now[a] == before[a + 1]);
                        }
                    }
                    assert forall|a: int, b: int|
                        0 <= a < now.len() && 0 <= b < now.len() && a != b implies (
                    #[trigger] now[a]).key != (#[trigger] now[b]).key by {
                        let a0 = if a < i { a } else { a + 1 };
                        let b0 = if b < i { b } else { b + 1 };
                        assert(now[a] == before[a0]);
                        assert(now[b] == before[b0]);
                    }
                }
                match state {
                    ObserverState::Active { handle, .. } => Some(handle),
                    ObserverState::Dormant { handle } => Some(handle),
                }
            },
            None => None,
        }
    }

    /// The fragment under `key` became the active leaf: its observer begins
    /// to listen on behalf of `token`.
    ///
    /// Fails, and changes nothing, unless a parked observer is installed
    /// under `key`.
    pub fn enable(&mut self, key: u64, token: EndToken) -> (r: Result<(), ObserverError>)
        requires
            old(self).wf(),
        ensures
            final(self).wf(),
            final(self)@ == after_enable(old(self)@, key, token),
            r == if parked(old(self)@, key) {
                Ok::<(), ObserverError>(())
            } else {
                Err::<(), ObserverError>(ObserverError::ExpectedDisabledObserver)
            },
    {
        let i = match self.find(key) {
            Some(i) => i,
            None => {
                return Err(ObserverError::ExpectedDisabledObserver);
            },
        };
        if let ObserverState::Active { .. } = &self.observers[i].state {
            return Err(ObserverError::ExpectedDisabledObserver);
        }
        let ghost before = self@;
        let state = self.take(i);
        let handle = match state {
            ObserverState::Active { handle, .. } => handle,
            ObserverState::Dormant { handle } => handle,
        };
        self.observers.insert(i, Installed { key, state: ObserverState::Active { handle, token } });
        proof {
            assert(self@ =~= after_enable(before, key, token));
            lemma_update_keeps_keys(before, i as int, ObserverState::Active { handle, token });
        }
        Ok(())
    }

    /// Takes the observer under `key` out of service: it is parked, and the
    /// token of the activation it served is returned for delivery.
    ///
    /// An observer that is parked already stays as it is and nothing is
    /// returned, so a second removal is no error and delivers nothing twice.
    /// Only where no observer is installed under `key` is this an error.
    pub fn disable(&mut self, key: u64) -> (r: Result<Option<EndToken>, ObserverError>)
        requires
            old(self).wf(),
        ensures
            final(self).wf(),
            final(self)@ == after_park(old(self)@, key),
            r == disabled(old(self)@, key),
    {
        let i = match self.find(key) {
            Some(i) => i,
            None => {
                return Err(ObserverError::ExpectedObserver);
            },
        };
        if let ObserverState::Dormant { .. } = &self.observers[i].state {
            return Ok(None);
        }
        let ghost before = self@;
        let state = self.take(i);
        match state {
            ObserverState::Active { handle, token } => {
                self.observers.insert(i, Installed { key, state: ObserverState::Dormant { handle } });
                proof {
                    assert(self@ =~= after_park(before, key));
                    lemma_update_keeps_keys(before, i as int, ObserverState::Dormant { handle });
                }
                Ok(Some(token))
            },
            ObserverState::Dormant { handle } => {
                self.observers.insert(i, Installed { key, state: ObserverState::Dormant { handle } });
                Ok(None)
            },
        }
    }

    /// Parks the observer under `key` without delivering anything: its
    /// fragment was called off. Returns whether it had been listening.
    pub fn park(&mut self, key: u64) -> (was_listening: bool)
        requires
            old(self).wf(),
        ensures
            final(self).wf(),
            final(self)@ == after_park(old(self)@, key),
            was_listening == listening(old(self)@, key),
    {
        match self.disable(key) {
            Ok(Some(_)) => true,
            _ => false,
        }
    }

    /// The event that the condition under `key` watches has fired: runs
    /// `predicate` on the observer's registration data, if the observer is
    /// listening.
    ///
    /// A parked observer, or none, is left alone and the predicate is not
    /// run. Otherwise the predicate hands the data back together with its
    /// answer. If the condition is satisfied, the observer is parked and the
    /// token of its activation is returned, once. If it is not, the observer
    /// goes on listening. A failure is passed on, and the observer goes on
    /// listening.
    pub fn observe<E, F: FnOnce(H) -> (H, Answer<E>)>(&mut self, key: u64, predicate: F) -> (r:
        Result<Option<EndToken>, E>)
        requires
            old(self).wf(),
            listening(old(self)@, key) ==> call_requires(
                predicate,
                (old(self)@[slot(old(self)@, key)].state.handle(),),
            ),
        ensures
            final(self).wf(),
            !listening(old(self)@, key) ==> final(self)@ == old(self)@ && r == Ok::<
                Option<EndToken>,
                E,
            >(None),
            listening(old(self)@, key) ==> exists|handle: H, answer: Answer<E>|
                {
                    &&& call_ensures(
                        predicate,
                        (old(self)@[slot(old(self)@, key)].state.handle(),),
                        (handle, answer),
                    )
                    &&& #[trigger] observed(
                        old(self)@,
                        key,
                        handle,
                        answer,
                        final(self)@,
                        r,
                    )
                },
    {
        let i = match self.find(key) {
            Some(i) => i,
            None => {
                return Ok(None);
            },
        };
        if let ObserverState::Dormant { .. } = &self.observers[i].state {
            return Ok(None);
        }
        let ghost before = self@;
        let state = self.take(i);
        match state {
            ObserverState::Active { handle, token } => {
                let (handle, answer) = predicate(handle);
                let ghost seen = answer;
                match answer {
                    Answer::Satisfied => {
                        self.observers.insert(
                            i,
                            Installed { key, state: ObserverState::Dormant { handle } },
                        );
                        proof {
                            assert(self@ =~= with_state(
                                before,
                                key,
                                ObserverState::Dormant { handle },
                            ));
                            lemma_update_keeps_keys(
                                before,
                                i as int,
                                ObserverState::Dormant { handle },
                            );
                            assert(observed(
                                before,
                                key,
                                handle,
                                seen,
                                self@,
                                Ok::<Option<EndToken>, E>(Some(token)),
                            ));
                        }
                        Ok(Some(token))
                    },
                    Answer::Unsatisfied => {
                        self.observers.insert(
                            i,
                            Installed { key, state: ObserverState::Active { handle, token } },
                        );
                        proof {
                            assert(self@ =~= with_state(
                                before,
                                key,
                                ObserverState::Active { handle, token },
                            ));
                            lemma_update_keeps_keys(
                                before,
                                i as int,
                                ObserverState::Active { handle, token },
                            );
                            assert(observed(
                                before,
                                key,
                                handle,
                                seen,
                                self@,
                                Ok::<Option<EndToken>, E>(None),
                            ));
                        }
                        Ok(None)
                    },
                    Answer::Failed(e) => {
                        self.observers.insert(
                            i,
                            Installed { key, state: ObserverState::Active { handle, token } },
                        );
                        proof {
                            assert(self@ =~= with_state(
                                before,
                                key,
                                ObserverState::Active { handle, token },
                            ));
                            lemma_update_keeps_keys(
                                before,
                                i as int,
                                ObserverState::Active { handle, token },
                            );
                            assert(observed(
                                before,
                                key,
                                handle,
                                seen,
                                self@,
                                Err::<Option<EndToken>, E>(e),
                            ));
                        }
                        Err(e)
                    },
                }
            },
            ObserverState::Dormant { handle } => {
                self.observers.insert(i, Installed { key, state: ObserverState::Dormant { handle } });
                proof {
                    assert(self@ =~= before);
                }
                Ok(None)
            },
        }
    }
}

/// What [`ConditionBridge::observe`] leaves behind and returns when the
/// predicate of the listening observer under `key` handed back `handle` with
/// `answer`.
pub open spec fn observed<H, E>(
    before: Seq<Installed<H>>,
    key: u64,
    handle: H,
    answer: Answer<E>,
    after: Seq<Installed<H>>,
    r: Result<Option<EndToken>, E>,
) -> bool {
    let token = before[slot(before, key)].state->token;
    match answer {
        Answer::Satisfied => {
            &&& after == with_state(before, key, ObserverState::Dormant { handle })
            &&& r == Ok::<Option<EndToken>, E>(Some(token))
        },
        Answer::Unsatisfied => {
            &&& after == with_state(before, key, ObserverState::Active { handle, token })
            &&& r == Ok::<Option<EndToken>, E>(None)
        },
        Answer::Failed(e) => {
            &&& after == with_state(before, key, ObserverState::Active { handle, token })
            &&& r == Err::<Option<EndToken>, E>(e)
        },
    }
}

/// Parking an observer and enabling it again leaves its registration data
/// exactly as it was: whatever the predicate has accumulated is still there,
/// and nothing but the token it serves has changed. No other observer is
/// touched.
pub proof fn lemma_parking_keeps_the_handle<H>(
    observers: Seq<Installed<H>>,
    key: u64,
    token: EndToken,
)
    requires
        distinct_keys(observers),
        listening(observers, key),
    ensures
        parked(after_park(observers, key), key),
        after_park(observers, key)[slot(observers, key)].state.handle() == observers[slot(
            observers,
            key,
        )].state.handle(),
        after_enable(after_park(observers, key), key, token) == with_state(
            observers,
            key,
            ObserverState::Active { handle: observers[slot(observers, key)].state.handle(), token },
        ),
        after_enable(
            after_park(observers, key),
            key,
            observers[slot(observers, key)].state->token,
        ) == observers,
{
    let i = slot(observers, key);
    let parked_all = after_park(observers, key);
    assert(parked_all[i].key == key);
    lemma_update_keeps_keys(observers, i, observers[i].state.parked());
    assert(slot(parked_all, key) == i) by {
        let j = slot(parked_all, key);
        if j != i {
            assert(parked_all[j].key == key);
        }
    }
    let back = after_enable(parked_all, key, token);
    assert(back =~= with_state(
        observers,
        key,
        ObserverState::Active { handle: observers[i].state.handle(), token },
    ));
    let same = after_enable(parked_all, key, observers[i].state->token);
    assert(same =~= observers);
}

/// Taking an observer out of service twice is the same as doing it once: the
/// second time nothing changes, nothing is delivered, and it is no error.
/// The same holds of uninstalling.
pub proof fn lemma_second_removal_changes_nothing<H>(observers: Seq<Installed<H>>, key: u64)
    requires
        distinct_keys(observers),
        installed(observers, key),
    ensures
        disabled(after_park(observers, key), key) == Ok::<Option<EndToken>, ObserverError>(None),
        after_park(after_park(observers, key), key) == after_park(observers, key),
        after_uninstall(after_uninstall(observers, key), key) == after_uninstall(observers, key),
{
    let i = slot(observers, key);
    let once = after_park(observers, key);
    assert(once[i].key == key);
    if listening(observers, key) {
        lemma_update_keeps_keys(observers, i, observers[i].state.parked());
    }
    assert(slot(once, key) == i) by {
        let j = slot(once, key);
        if j != i {
            assert(once[j].key == key);
        }
    }
    let gone = after_uninstall(observers, key);
    assert(!installed(gone, key)) by {
        if installed(gone, key) {
            let j = slot(gone, key);
            let j0 = if j < i { j } else { j + 1 };
            assert(gone[j] == observers[j0]);
            assert(observers[j0].key == key);
        }
    }
}

/// A parked observer is not listening: whatever fires at it delivers no
/// token, and parking it again changes nothing.
pub proof fn lemma_parked_observer_is_dormant<H>(observers: Seq<Installed<H>>, key: u64)
    requires
        parked(observers, key),
    ensures
        !listening(observers, key),
        after_park(observers, key) == observers,
{
}

/// Replacing the state of an observer leaves the keys as they are.
proof fn lemma_update_keeps_keys<H>(observers: Seq<Installed<H>>, i: int, state: ObserverState<H>)
    requires
        distinct_keys(observers),
        0 <= i < observers.len(),
    ensures
        distinct_keys(observers.update(i, Installed { key: observers[i].key, state })),
{
    let now = observers.update(i, Installed { key: observers[i].key, state });
    assert forall|a: int, b: int| 0 <= a < now.len() && 0 <= b < now.len() && a != b implies (
    #[trigger] now[a]).key != (#[trigger] now[b]).key by {
        assert(now[a].key == observers[a].key);
        assert(now[b].key == observers[b].key);
    }
}

} // verus!
