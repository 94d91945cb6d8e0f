//! Laws relating the machine's operations, stated and proved over the
//! model maps that the operations' contracts use.

use crate::machine::tables_consistent;
use vstd::prelude::*;

verus! {

/// A successful `transition` of object `o` to state `to` leaves an index
/// that names `to` for `o`: an immediate `state_id_of(o)` returns `to`.
pub proof fn lemma_transition_then_state_id(current: Map<u64, u64>, o: u64, to: u64)
    ensures
        current.insert(o, to).contains_key(o),
        current.insert(o, to)[o] == to,
{
}

/// A successful `evict` of object `o` removes it both from the index and
/// from its former state's store: an immediate `lookup(o)` finds no entry
/// for `o` in the index, which is exactly when it fails with
/// `UnknownObject`.
pub proof fn lemma_evict_then_lookup_fails<T>(
    current: Map<u64, u64>,
    states: Map<u64, Map<u64, T>>,
    o: u64,
)
    requires
        current.contains_key(o),
    ensures
        !current.remove(o).contains_key(o),
        !states.insert(current[o], states[current[o]].remove(o))[current[o]].contains_key(o),
{
}

/// Round trip: transitioning object `o` from its state `s0` to `s1` and
/// immediately back to `s0` restores the machine's tables exactly, payload
/// included, on any consistent machine.
pub proof fn lemma_transition_round_trip<T, F>(
    current: Map<u64, u64>,
    states: Map<u64, Map<u64, T>>,
    rules: Map<u64, F>,
    o: u64,
    s1: u64,
)
    requires
        tables_consistent(current, states, rules),
        current.contains_key(o),
        states.contains_key(s1),
    ensures
        ({
            let s0 = current[o];
            let payload = states[s0][o];
            let c1 = current.insert(o, s1);
            let st1 = states.insert(s0, states[s0].remove(o)).insert(
                s1,
                states[s1].remove(o).insert(o, payload),
            );
            let c2 = c1.insert(o, s0);
            let st2 = st1.insert(s1, st1[s1].remove(o)).insert(
                s0,
                st1[s0].remove(o).insert(o, st1[s1][o]),
            );
            c1[o] == s1 && st1[s1][o] == payload && c2 == current && st2 == states && st2[s0][o]
                == payload
        }),
{
    let s0 = current[o];
    let payload = states[s0][o];
    let c1 = current.insert(o, s1);
    let st1 = states.insert(s0, states[s0].remove(o)).insert(
        s1,
        states[s1].remove(o).insert(o, payload),
    );
    let c2 = c1.insert(o, s0);
    let st2 = st1.insert(s1, st1[s1].remove(o)).insert(s0, st1[s0].remove(o).insert(o, st1[s1][o]));
    assert(c2 =~= current);
    if s0 == s1 {
        assert(st2 =~~= states);
    } else {
        assert(!states[s1].contains_key(o));
        assert(st1[s1].remove(o) =~= states[s1]);
        assert(st1[s0].remove(o).insert(o, st1[s1][o]) =~= states[s0]);
        assert(st2 =~~= states);
    }
}

} // verus!
