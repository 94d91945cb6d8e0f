//! The state machine: a registry of states, a global object-to-state index,
//! and an optional update rule per state.

use crate::store::ObjectStore;
use crate::update::UpdateRule;
use vstd::prelude::*;

verus! {

/// A unique identifier for an object. Unique per live object across the
/// whole machine; never reused while the object is registered.
#[derive(Clone, Copy, Debug, Hash, PartialEq, Eq, Structural)]
pub struct ObjectId(pub u64);

/// A unique identifier for a named state, assigned by the client and
/// unique among currently registered states.
#[derive(Clone, Copy, Debug, Hash, PartialEq, Eq, Structural)]
pub struct StateId(pub u64);

/// The recoverable failures of the machine's operations, and the one
/// internal-consistency failure that a well-formed machine never reports.
#[derive(Clone, Copy, Debug, PartialEq, Eq, Structural)]
pub enum MachineError {
    /// The object id is not registered in the machine.
    UnknownObject,
    /// The state id is not registered in the machine.
    UnknownState,
    /// The object id is already registered in the machine.
    DuplicateObject,
    /// The state id is already registered in the machine.
    DuplicateState,
    /// The object-to-state index points at a state that does not hold the
    /// object: a broken invariant inside the machine itself.
    InvariantViolation,
}

/// The machine's invariants, over its three tables: every indexed object
/// is held by the state the index names, every held object is indexed by
/// exactly its holder (so an object is in at most one state's store at any
/// time), and every update rule belongs to a registered state.
pub open spec fn tables_consistent<T, F>(
    current: Map<u64, u64>,
    states: Map<u64, Map<u64, T>>,
    rules: Map<u64, F>,
) -> bool {
    &&& forall|o: u64| #[trigger]
        current.contains_key(o) ==> states.contains_key(current[o])
            && states[current[o]].contains_key(o)
    &&& forall|s: u64, o: u64|
        states.contains_key(s) && #[trigger] states[s].contains_key(o) ==> current.contains_key(o)
            && current[o] == s
    &&& forall|s: u64| #[trigger] rules.contains_key(s) ==> states.contains_key(s)
}

/// Keeps track of the current state of objects, the objects each state
/// owns, and an optional update rule per state (a single shared rule would
/// force the same logic on every state).
///
/// `T` is the payload type of the objects; `F` is the update-rule type,
/// whose associated `Delta` type is the per-tick value.
pub struct StateMachine<T, F> {
    current: ObjectStore<u64>,
    states: ObjectStore<ObjectStore<T>>,
    update_functions: ObjectStore<F>,
}

impl<T, F> StateMachine<T, F> {
    /// The index: each live object id mapped to the id of the state that
    /// currently owns it.
    pub closed spec fn current_m(&self) -> Map<u64, u64> {
        self.current@
    }

    /// The states table: each registered state id mapped to the objects
    /// that state currently owns.
    pub closed spec fn states_m(&self) -> Map<u64, Map<u64, T>> {
        self.states@.map_values(|st: ObjectStore<T>| st@)
    }

    /// The rules table: each state id with a rule mapped to its rule.
    pub closed spec fn rules_m(&self) -> Map<u64, F> {
        self.update_functions@
    }

    /// The machine's invariants over its three tables.
    pub open spec fn consistent(&self) -> bool {
        tables_consistent(self.current_m(), self.states_m(), self.rules_m())
    }

    /// The three backing stores are well-formed.
    pub closed spec fn stores_wf(&self) -> bool {
        &&& self.current.wf()
        &&& self.states.wf()
        &&& self.update_functions.wf()
        &&& forall|s: u64| self.states@.contains_key(s) ==> (#[trigger] self.states@[s]).wf()
    }

    /// Well-formedness: the backing stores are well-formed and the
    /// machine's invariants hold. Every public operation preserves this.
    pub open spec fn wf(&self) -> bool {
        self.stores_wf() && self.consistent()
    }

    /// Creates an empty machine: no states, no objects, no rules.
    pub fn new() -> (r: Self)
        ensures
            r.wf(),
            r.current_m() == Map::<u64, u64>::empty(),
            r.states_m() == Map::<u64, Map<u64, T>>::empty(),
            r.rules_m() == Map::<u64, F>::empty(),
    {
        let r = StateMachine {
            current: ObjectStore::new(),
            states: ObjectStore::new(),
            update_functions: ObjectStore::new(),
        };
        proof {
            assert(r.states_m() =~= Map::<u64, Map<u64, T>>::empty());
        }
        r
    }

    /// Installs a new state holding `initial_objects`, with `update` as its
    /// optional rule. Rejects an already-registered state id, and rejects
    /// initial objects already live in the machine (either would break the
    /// machine's invariants); on rejection the machine is unchanged.
    pub fn register_state(
        &mut self,
        state_id: StateId,
        initial_objects: ObjectStore<T>,
        update: Option<F>,
    ) -> (r: Result<(), MachineError>)
        requires
            old(self).wf(),
            initial_objects.wf(),
        ensures
            final(self).wf(),
            r is Err ==> *final(self) == *old(self),
            r == Err::<(), MachineError>(MachineError::DuplicateState) <==> old(
                self,
            ).states_m().contains_key(state_id.0),
            r == Err::<(), MachineError>(MachineError::DuplicateObject) <==> !old(
                self,
            ).states_m().contains_key(state_id.0) && (exists|o: u64|
                #[trigger] initial_objects@.contains_key(o) && old(
                    self,
                ).current_m().contains_key(o)),
            r is Ok <==> !old(self).states_m().contains_key(state_id.0) && (forall|o: u64|
                #[trigger] initial_objects@.contains_key(o) ==> !old(
                    self,
                ).current_m().contains_key(o)),
            r is Ok ==> final(self).states_m() == old(self).states_m().insert(
                state_id.0,
                initial_objects@,
            ) && final(self).current_m() == old(self).current_m().union_prefer_right(
                Map::new(|o: u64| initial_objects@.contains_key(o), |o: u64| state_id.0),
            ) && final(self).rules_m() == (match update {
                Some(f) => old(self).rules_m().insert(state_id.0, f),
                None => old(self).rules_m(),
            }),
    {
        if self.states.contains(state_id.0) {
            return Err(MachineError::DuplicateState);
        }
        let member_ids = initial_objects.ids();
        let n = member_ids.len();
        let mut i: usize = 0;
        while i < n
            invariant
                i <= n,
                n == member_ids@.len(),
                member_ids@.no_duplicates(),
                forall|k: u64| member_ids@.contains(k) <==> initial_objects@.contains_key(k),
                forall|j: int| 0 <= j < i ==> !self.current_m().contains_key(member_ids@[j]),
                *self == *old(self),
                self.wf(),
                !old(self).states_m().contains_key(state_id.0),
            decreases n - i,
        {
            if self.current.contains(member_ids[i]) {
                proof {
                    assert(member_ids@.contains(member_ids@[i as int]));
                    assert(initial_objects@.contains_key(member_ids@[i as int]));
                }
                return Err(MachineError::DuplicateObject);
            }
            i = i + 1;
        }
        proof {
            assert forall|o: u64| initial_objects@.contains_key(o) implies !old(
                self,
            ).current_m().contains_key(o) by {
                assert(member_ids@.contains(o));
                let j = choose|j: int| 0 <= j < member_ids@.len() && member_ids@[j] == o;
                assert(!self.current_m().contains_key(member_ids@[j]));
            }
        }
        let mut i: usize = 0;
        while i < n
            invariant
                i <= n,
                n == member_ids@.len(),
                member_ids@.no_duplicates(),
                forall|k: u64| member_ids@.contains(k) <==> initial_objects@.contains_key(k),
                forall|j: int| 0 <= j < n ==> !old(self).current_m().contains_key(member_ids@[j]),
                !old(self).states_m().contains_key(state_id.0),
                self.current.wf(),
                self.states == old(self).states,
                self.update_functions == old(self).update_functions,
                forall|j: int|
                    0 <= j < i ==> self.current_m().contains_key(#[trigger] member_ids@[j])
                        && self.current_m()[member_ids@[j]] == state_id.0,
                forall|j: int| i <= j < n ==> !self.current_m().contains_key(#[trigger] member_ids@[j]),
                forall|o: u64| #[trigger]
                    old(self).current_m().contains_key(o) ==> self.current_m().contains_key(o)
                        && self.current_m()[o] == old(self).current_m()[o],
                forall|o: u64| #[trigger]
                    self.current_m().contains_key(o) ==> old(self).current_m().contains_key(o) || (
                    exists|j: int| 0 <= j < i && member_ids@[j] == o),
            decreases n - i,
        {
            self.current.insert(member_ids[i], state_id.0);
            i = i + 1;
        }
        let ghost new_index = old(self).current_m().union_prefer_right(
            Map::new(|o: u64| initial_objects@.contains_key(o), |o: u64| state_id.0),
        );
        proof {
            assert(self.current_m() =~= new_index) by {
                assert forall|o: u64| #[trigger]
                    self.current_m().contains_key(o) implies old(self).current_m().contains_key(o)
                    || initial_objects@.contains_key(o) by {
                    if !old(self).current_m().contains_key(o) {
                        let j = choose|j: int| 0 <= j < i && member_ids@[j] == o;
                        assert(0 <= j < member_ids@.len() && member_ids@[j] == o);
                        assert(member_ids@.contains(o));
                    }
                }
                assert forall|o: u64| #[trigger]
                    initial_objects@.contains_key(o) implies self.current_m().contains_key(o)
                    && self.current_m()[o] == state_id.0 by {
                    assert(member_ids@.contains(o));
                    let j = choose|j: int| 0 <= j < member_ids@.len() && member_ids@[j] == o;
                    assert(j < i);
                    assert(self.current_m().contains_key(member_ids@[j]));
                }
            }
        }
        self.states.insert(state_id.0, initial_objects);
        match update {
            Some(f) => {
                self.update_functions.insert(state_id.0, f);
            },
            None => {},
        }
        proof {
            assert(self.current_m() == new_index);
            assert(self.states_m() =~= old(self).states_m().insert(state_id.0, initial_objects@));
            assert(self.stores_wf()) by {
                assert forall|s: u64| self.states@.contains_key(s) implies (
                #[trigger] self.states@[s]).wf() by {
                    if s != state_id.0 {
                        assert(old(self).states@[s].wf());
                    }
                }
            }
            assert forall|o: u64| #[trigger]
                self.current_m().contains_key(o) implies self.states_m().contains_key(
                self.current_m()[o],
            ) && self.states_m()[self.current_m()[o]].contains_key(o) by {
                if initial_objects@.contains_key(o) {
                    assert(self.current_m()[o] == state_id.0);
                } else {
                    assert(old(self).current_m().contains_key(o));
                    assert(self.current_m()[o] == old(self).current_m()[o]);
                    assert(old(self).current_m()[o] != state_id.0);
                }
            }
            assert forall|s: u64, o: u64|
                self.states_m().contains_key(s) && #[trigger] self.states_m()[s].contains_key(o)
                implies self.current_m().contains_key(o) && self.current_m()[o] == s by {
                if s == state_id.0 {
                    assert(initial_objects@.contains_key(o));
                } else {
                    assert(old(self).states_m()[s].contains_key(o));
                    assert(old(self).current_m().contains_key(o) && old(self).current_m()[o] == s);
                    assert(!initial_objects@.contains_key(o));
                }
            }
            assert forall|s: u64| #[trigger]
                self.rules_m().contains_key(s) implies self.states_m().contains_key(s) by {
                if s != state_id.0 {
                    assert(old(self).rules_m().contains_key(s));
                }
            }
        }
        Ok(())
    }

    /// Detaches the store of a registered state for in-place work; the
    /// machine's invariants are suspended until it is put back.
    fn take_store(&mut self, s: u64) -> (st: ObjectStore<T>)
        requires
            old(self).stores_wf(),
            old(self).states_m().contains_key(s),
        ensures
            final(self).stores_wf(),
            st.wf(),
            st@ == old(self).states_m()[s],
            final(self).current_m() == old(self).current_m(),
            final(self).rules_m() == old(self).rules_m(),
            final(self).states_m() == old(self).states_m().remove(s),
    {
        match self.states.remove(s) {
            Some(st) => {
                proof {
                    assert(self.states_m() =~= old(self).states_m().remove(s));
                }
                st
            },
            None => {
                proof {
                    assert(false);
                }
                ObjectStore::new()
            },
        }
    }

    /// Installs `st` as the store of state `s`.
    fn put_store(&mut self, s: u64, st: ObjectStore<T>)
        requires
            old(self).stores_wf(),
            st.wf(),
        ensures
            final(self).stores_wf(),
            final(self).current_m() == old(self).current_m(),
            final(self).rules_m() == old(self).rules_m(),
            final(self).states_m() == old(self).states_m().insert(s, st@),
    {
        self.states.insert(s, st);
        proof {
            assert(self.states_m() =~= old(self).states_m().insert(s, st@));
            assert forall|t: u64| self.states@.contains_key(t) implies (
            #[trigger] self.states@[t]).wf() by {
                if t != s {
                    assert(old(self).states@[t].wf());
                }
            }
        }
    }

    /// Admits a new object into a state: inserts `value` into the store of `state_id`
    /// and indexes `object_id` there. Rejects an unregistered state id and
    /// an object id already live in the machine; on rejection the machine
    /// is unchanged.
    pub fn admit_object(&mut self, state_id: StateId, object_id: ObjectId, value: T) -> (r: Result<
        (),
        MachineError,
    >)
        requires
            old(self).wf(),
        ensures
            final(self).wf(),
            r is Err ==> *final(self) == *old(self),
            r == Err::<(), MachineError>(MachineError::UnknownState) <==> !old(
                self,
            ).states_m().contains_key(state_id.0),
            r == Err::<(), MachineError>(MachineError::DuplicateObject) <==> old(
                self,
            ).states_m().contains_key(state_id.0) && old(self).current_m().contains_key(
                object_id.0,
            ),
            r is Ok <==> old(self).states_m().contains_key(state_id.0) && !old(
                self,
            ).current_m().contains_key(object_id.0),
            r is Ok ==> final(self).current_m() == old(self).current_m().insert(
                object_id.0,
                state_id.0,
            ) && final(self).states_m() == old(self).states_m().insert(
                state_id.0,
                old(self).states_m()[state_id.0].insert(object_id.0, value),
            ) && final(self).rules_m() == old(self).rules_m(),
    {
        if !self.states.contains(state_id.0) {
            return Err(MachineError::UnknownState);
        }
        if self.current.contains(object_id.0) {
            return Err(MachineError::DuplicateObject);
        }
        let mut st = self.take_store(state_id.0);
        st.insert(object_id.0, value);
        self.put_store(state_id.0, st);
        self.current.insert(object_id.0, state_id.0);
        proof {
            assert(self.states_m() =~= old(self).states_m().insert(
                state_id.0,
                old(self).states_m()[state_id.0].insert(object_id.0, value),
            ));
            assert forall|o: u64| #[trigger]
                self.current_m().contains_key(o) implies self.states_m().contains_key(
                self.current_m()[o],
            ) && self.states_m()[self.current_m()[o]].contains_key(o) by {
                if o != object_id.0 {
                    assert(old(self).current_m().contains_key(o));
                }
            }
            assert forall|s: u64, o: u64|
                self.states_m().contains_key(s) && #[trigger] self.states_m()[s].contains_key(o)
                implies self.current_m().contains_key(o) && self.current_m()[o] == s by {
                if !(s == state_id.0 && o == object_id.0) {
                    assert(old(self).states_m()[s].contains_key(o));
                    assert(old(self).current_m().contains_key(o) && old(self).current_m()[o] == s);
                }
            }
        }
        Ok(())
    }

    /// A read-only reference to the payload of a live object, found through
    /// the index and its state's store.
    pub fn lookup(&self, object_id: ObjectId) -> (r: Result<&T, MachineError>)
        requires
            self.wf(),
        ensures
            r is Ok <==> self.current_m().contains_key(object_id.0),
            r == Err::<&T, MachineError>(MachineError::UnknownObject) <==> !self
                .current_m()
                .contains_key(object_id.0),
            r matches Ok(v) ==> *v == self.states_m()[self.current_m()[object_id.0]][object_id.0],
    {
        let s: u64 = match self.current.get(object_id.0) {
            Some(s) => *s,
            None => {
                return Err(MachineError::UnknownObject);
            },
        };
        let st = match self.states.get(s) {
            Some(st) => st,
            None => {
                proof {
                    assert(false);
                }
                return Err(MachineError::InvariantViolation);
            },
        };
        match st.get(object_id.0) {
            Some(v) => Ok(v),
            None => {
                proof {
                    assert(false);
                }
                Err(MachineError::InvariantViolation)
            },
        }
    }

    /// The id of the state that currently owns a live object.
    pub fn state_id_of(&self, object_id: ObjectId) -> (r: Result<StateId, MachineError>)
        requires
            self.wf(),
        ensures
            r is Ok <==> self.current_m().contains_key(object_id.0),
            r == Err::<StateId, MachineError>(MachineError::UnknownObject) <==> !self
                .current_m()
                .contains_key(object_id.0),
            r matches Ok(s) ==> s.0 == self.current_m()[object_id.0],
    {
        match self.current.get(object_id.0) {
            Some(s) => Ok(StateId(*s)),
            None => Err(MachineError::UnknownObject),
        }
    }

    /// The whole store of the state that currently owns a live object.
    pub fn state_of(&self, object_id: ObjectId) -> (r: Result<&ObjectStore<T>, MachineError>)
        requires
            self.wf(),
        ensures
            r is Ok <==> self.current_m().contains_key(object_id.0),
            r == Err::<&ObjectStore<T>, MachineError>(MachineError::UnknownObject) <==> !self
                .current_m()
                .contains_key(object_id.0),
            r matches Ok(st) ==> st.wf() && st@ == self.states_m()[self.current_m()[object_id.0]],
    {
        let s: u64 = match self.current.get(object_id.0) {
            Some(s) => *s,
            None => {
                return Err(MachineError::UnknownObject);
            },
        };
        match self.states.get(s) {
            Some(st) => Ok(st),
            None => {
                proof {
                    assert(false);
                }
                Err(MachineError::InvariantViolation)
            },
        }
    }

    /// A mutable reference to the store of a registered state; the caller
    /// re-establishes the machine's invariants for what it writes.
    fn store_mut(&mut self, s: u64) -> (st: &mut ObjectStore<T>)
        requires
            old(self).stores_wf(),
            old(self).states_m().contains_key(s),
        ensures
            *st == old(self).states@[s],
            (*st)@ == old(self).states_m()[s],
            (*st).wf(),
            final(self).current == old(self).current,
            final(self).update_functions == old(self).update_functions,
            final(self).states_m() == old(self).states_m().insert(s, final(st)@),
            final(st).wf() ==> final(self).stores_wf(),
    {
        match self.states.get_mut(s) {
            Some(st) => st,
            None => {
                proof {
                    assert(false);
                }
                vstd::pervasive::unreached()
            },
        }
    }

    /// A mutable reference to the payload of a live object, found through
    /// the index and its state's store. What the caller writes through the
    /// reference becomes the object's payload; the object stays in its
    /// state.
    pub fn lookup_mut(&mut self, object_id: ObjectId) -> (r: Result<&mut T, MachineError>)
        requires
            old(self).wf(),
        ensures
            r is Ok <==> old(self).current_m().contains_key(object_id.0),
            r == Err::<&mut T, MachineError>(MachineError::UnknownObject) <==> !old(
                self,
            ).current_m().contains_key(object_id.0),
            r is Err ==> *final(self) == *old(self),
            r matches Ok(v) ==> ({
                let s = old(self).current_m()[object_id.0];
                &&& *v == old(self).states_m()[s][object_id.0]
                &&& final(self).wf()
                &&& final(self).current_m() == old(self).current_m()
                &&& final(self).rules_m() == old(self).rules_m()
                &&& final(self).states_m() == old(self).states_m().insert(
                    s,
                    old(self).states_m()[s].insert(object_id.0, *final(v)),
                )
            }),
    {
        let s: u64 = match self.current.get(object_id.0) {
            Some(x) => *x,
            None => {
                return Err(MachineError::UnknownObject);
            },
        };
        proof {
            assert forall|val: T|
                tables_consistent(
                    old(self).current_m(),
                    old(self).states_m().insert(
                        s,
                        #[trigger] old(self).states_m()[s].insert(object_id.0, val),
                    ),
                    old(self).rules_m(),
                ) by {
                let st2 = old(self).states_m().insert(
                    s,
                    old(self).states_m()[s].insert(object_id.0, val),
                );
                assert forall|o: u64| #[trigger]
                    old(self).current_m().contains_key(o) implies st2.contains_key(
                    old(self).current_m()[o],
                ) && st2[old(self).current_m()[o]].contains_key(o) by {}
                assert forall|t: u64, o: u64|
                    st2.contains_key(t) && #[trigger] st2[t].contains_key(o) implies old(
                    self,
                ).current_m().contains_key(o) && old(self).current_m()[o] == t by {
                    assert(old(self).states_m()[t].contains_key(o));
                }
            }
        }
        let st = self.store_mut(s);
        match st.get_mut(object_id.0) {
            Some(v) => Ok(v),
            None => {
                proof {
                    assert(false);
                }
                Err(MachineError::InvariantViolation)
            },
        }
    }

    /// Moves a live object to a registered state: its payload leaves its
    /// current state's store, enters the target state's store, and the
    /// index is updated with the move — all observed together, or, on
    /// rejection, not at all.
    pub fn transition(&mut self, object_id: ObjectId, to: StateId) -> (r: Result<
        (),
        MachineError,
    >)
        requires
            old(self).wf(),
        ensures
            final(self).wf(),
            r is Err ==> *final(self) == *old(self),
            r == Err::<(), MachineError>(MachineError::UnknownObject) <==> !old(
                self,
            ).current_m().contains_key(object_id.0),
            r == Err::<(), MachineError>(MachineError::UnknownState) <==> old(
                self,
            ).current_m().contains_key(object_id.0) && !old(self).states_m().contains_key(to.0),
            r is Ok <==> old(self).current_m().contains_key(object_id.0) && old(
                self,
            ).states_m().contains_key(to.0),
            r is Ok ==> ({
                let s_from = old(self).current_m()[object_id.0];
                let payload = old(self).states_m()[s_from][object_id.0];
                &&& final(self).current_m() == old(self).current_m().insert(object_id.0, to.0)
                &&& final(self).states_m() == old(self).states_m().insert(
                    s_from,
                    old(self).states_m()[s_from].remove(object_id.0),
                ).insert(
                    to.0,
                    old(self).states_m()[to.0].remove(object_id.0).insert(object_id.0, payload),
                )
                &&& final(self).rules_m() == old(self).rules_m()
            }),
    {
        let s_from: u64 = match self.current.get(object_id.0) {
            Some(s) => *s,
            None => {
                return Err(MachineError::UnknownObject);
            },
        };
        if !self.states.contains(to.0) {
            return Err(MachineError::UnknownState);
        }
        let mut from_st = self.take_store(s_from);
        let payload = match from_st.remove(object_id.0) {
            Some(v) => v,
            None => {
                proof {
                    assert(false);
                }
                self.put_store(s_from, from_st);
                return Err(MachineError::InvariantViolation);
            },
        };
        self.put_store(s_from, from_st);
        let mut to_st = self.take_store(to.0);
        to_st.insert(object_id.0, payload);
        self.put_store(to.0, to_st);
        self.current.insert(object_id.0, to.0);
        proof {
            let s = s_from;
            let expected = old(self).states_m().insert(
                s,
                old(self).states_m()[s].remove(object_id.0),
            ).insert(
                to.0,
                old(self).states_m()[to.0].remove(object_id.0).insert(
                    object_id.0,
                    old(self).states_m()[s][object_id.0],
                ),
            );
            assert(self.states_m() =~~= expected);
            assert forall|o: u64| #[trigger]
                self.current_m().contains_key(o) implies self.states_m().contains_key(
                self.current_m()[o],
            ) && self.states_m()[self.current_m()[o]].contains_key(o) by {
                if o != object_id.0 {
                    assert(old(self).current_m().contains_key(o));
                    assert(old(self).states_m()[old(self).current_m()[o]].contains_key(o));
                }
            }
            assert forall|t: u64, o: u64|
                self.states_m().contains_key(t) && #[trigger] self.states_m()[t].contains_key(o)
                implies self.current_m().contains_key(o) && self.current_m()[o] == t by {
                if o != object_id.0 {
                    assert(old(self).states_m()[t].contains_key(o));
                    assert(old(self).current_m().contains_key(o) && old(self).current_m()[o] == t);
                }
            }
            assert forall|t: u64| #[trigger]
                self.rules_m().contains_key(t) implies self.states_m().contains_key(t) by {
                assert(old(self).states_m().contains_key(t));
            }
        }
        Ok(())
    }

    /// Removes a live object from the machine: its payload leaves its
    /// state's store and the index forgets it; ownership of the payload
    /// returns to the caller.
    pub fn evict(&mut self, object_id: ObjectId) -> (r: Result<T, MachineError>)
        requires
            old(self).wf(),
        ensures
            final(self).wf(),
            r is Err ==> *final(self) == *old(self),
            r is Ok <==> old(self).current_m().contains_key(object_id.0),
            r == Err::<T, MachineError>(MachineError::UnknownObject) <==> !old(
                self,
            ).current_m().contains_key(object_id.0),
            r matches Ok(v) ==> ({
                let s = old(self).current_m()[object_id.0];
                &&& v == old(self).states_m()[s][object_id.0]
                &&& final(self).current_m() == old(self).current_m().remove(object_id.0)
                &&& final(self).states_m() == old(self).states_m().insert(
                    s,
                    old(self).states_m()[s].remove(object_id.0),
                )
                &&& final(self).rules_m() == old(self).rules_m()
            }),
    {
        let s: u64 = match self.current.get(object_id.0) {
            Some(s) => *s,
            None => {
                return Err(MachineError::UnknownObject);
            },
        };
        let mut st = self.take_store(s);
        let payload = match st.remove(object_id.0) {
            Some(v) => v,
            None => {
                proof {
                    assert(false);
                }
                self.put_store(s, st);
                return Err(MachineError::InvariantViolation);
            },
        };
        self.put_store(s, st);
        let _ = self.current.remove(object_id.0);
        proof {
            assert(self.states_m() =~~= old(self).states_m().insert(
                s,
                old(self).states_m()[s].remove(object_id.0),
            ));
            assert forall|o: u64| #[trigger]
                self.current_m().contains_key(o) implies self.states_m().contains_key(
                self.current_m()[o],
            ) && self.states_m()[self.current_m()[o]].contains_key(o) by {
                assert(old(self).current_m().contains_key(o));
                assert(old(self).states_m()[old(self).current_m()[o]].contains_key(o));
            }
            assert forall|t: u64, o: u64|
                self.states_m().contains_key(t) && #[trigger] self.states_m()[t].contains_key(o)
                implies self.current_m().contains_key(o) && self.current_m()[o] == t by {
                assert(old(self).states_m()[t].contains_key(o));
                assert(old(self).current_m().contains_key(o) && old(self).current_m()[o] == t);
            }
            assert forall|t: u64| #[trigger]
                self.rules_m().contains_key(t) implies self.states_m().contains_key(t) by {
                assert(old(self).states_m().contains_key(t));
            }
        }
        Ok(payload)
    }

    /// Whether `state_id` is registered.
    pub fn has_state(&self, state_id: StateId) -> (r: bool)
        requires
            self.wf(),
        ensures
            r <==> self.states_m().contains_key(state_id.0),
    {
        self.states.contains(state_id.0)
    }

    /// Whether `object_id` is live in the machine.
    pub fn has_object(&self, object_id: ObjectId) -> (r: bool)
        requires
            self.wf(),
        ensures
            r <==> self.current_m().contains_key(object_id.0),
    {
        self.current.contains(object_id.0)
    }
}

/// Each member's payload after one application of `rule` under `delta`.
pub open spec fn updated_members<T, F: UpdateRule<T>>(
    members: Map<u64, T>,
    rule: F,
    delta: F::Delta,
) -> Map<u64, T> {
    Map::new(|o: u64| members.contains_key(o), |o: u64| rule.applied(members[o], delta))
}

impl<T, F: UpdateRule<T>> StateMachine<T, F> {
    /// Advances the machine by one tick: for every registered state that
    /// has an update rule, the rule is applied exactly once to each object
    /// that state owns, under `delta`. Objects of states without a rule are
    /// untouched this tick, and no object changes state.
    pub fn advance(&mut self, delta: &F::Delta)
        requires
            old(self).wf(),
        ensures
            final(self).wf(),
            final(self).current_m() == old(self).current_m(),
            final(self).rules_m() == old(self).rules_m(),
            final(self).states_m().dom() == old(self).states_m().dom(),
            forall|s: u64| #[trigger]
                old(self).states_m().contains_key(s) ==> final(self).states_m()[s] == (if old(
                    self,
                ).rules_m().contains_key(s) {
                    updated_members(old(self).states_m()[s], old(self).rules_m()[s], *delta)
                } else {
                    old(self).states_m()[s]
                }),
    {
        let sids = self.states.ids();
        let n = sids.len();
        let mut i: usize = 0;
        while i < n
            invariant
                i <= n,
                n == sids@.len(),
                sids@.no_duplicates(),
                forall|k: u64| sids@.contains(k) <==> old(self).states_m().contains_key(k),
                self.stores_wf(),
                self.current_m() == old(self).current_m(),
                self.rules_m() == old(self).rules_m(),
                self.states_m().dom() == old(self).states_m().dom(),
                forall|j: int|
                    0 <= j < i ==> #[trigger] self.states_m()[sids@[j]] == (if old(
                        self,
                    ).rules_m().contains_key(sids@[j]) {
                        updated_members(
                            old(self).states_m()[sids@[j]],
                            old(self).rules_m()[sids@[j]],
                            *delta,
                        )
                    } else {
                        old(self).states_m()[sids@[j]]
                    }),
                forall|j: int|
                    i <= j < n ==> #[trigger] self.states_m()[sids@[j]] == old(
                        self,
                    ).states_m()[sids@[j]],
            decreases n - i,
        {
            let sid = sids[i];
            proof {
                assert(sids@.contains(sids@[i as int]));
                assert(self.states_m().contains_key(sid));
            }
            let mut st = self.take_store(sid);
            match self.update_functions.get(sid) {
                Some(rule) => {
                    st.apply_rule(rule, delta);
                    proof {
                        assert(st@ =~= updated_members(
                            old(self).states_m()[sid],
                            old(self).rules_m()[sid],
                            *delta,
                        ));
                    }
                },
                None => {},
            }
            self.put_store(sid, st);
            proof {
                assert(self.states_m().dom() =~= old(self).states_m().dom());
            }
            i = i + 1;
        }
        proof {
            assert forall|s: u64| #[trigger]
                old(self).states_m().contains_key(s) implies self.states_m()[s] == (if old(
                self,
            ).rules_m().contains_key(s) {
                updated_members(old(self).states_m()[s], old(self).rules_m()[s], *delta)
            } else {
                old(self).states_m()[s]
            }) by {
                assert(sids@.contains(s));
                let j = choose|j: int| 0 <= j < sids@.len() && sids@[j] == s;
                assert(self.states_m()[sids@[j]] == (if old(self).rules_m().contains_key(
                    sids@[j],
                ) {
                    updated_members(
                        old(self).states_m()[sids@[j]],
                        old(self).rules_m()[sids@[j]],
                        *delta,
                    )
                } else {
                    old(self).states_m()[sids@[j]]
                }));
            }
            assert forall|o: u64| #[trigger]
                self.current_m().contains_key(o) implies self.states_m().contains_key(
                self.current_m()[o],
            ) && self.states_m()[self.current_m()[o]].contains_key(o) by {
                assert(old(self).current_m().contains_key(o));
                assert(old(self).states_m()[old(self).current_m()[o]].contains_key(o));
            }
            assert forall|t: u64, o: u64|
                self.states_m().contains_key(t) && #[trigger] self.states_m()[t].contains_key(o)
                implies self.current_m().contains_key(o) && self.current_m()[o] == t by {
                assert(old(self).states_m().contains_key(t));
                assert(old(self).states_m()[t].contains_key(o));
            }
            assert forall|t: u64| #[trigger]
                self.rules_m().contains_key(t) implies self.states_m().contains_key(t) by {
                assert(old(self).states_m().contains_key(t));
            }
        }
    }
}

} // verus!
