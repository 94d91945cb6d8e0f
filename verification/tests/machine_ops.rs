use state_partition::machine::{MachineError, ObjectId, StateId, StateMachine};
use state_partition::store::ObjectStore;
use state_partition::update::UpdateRule;

/// Adds the tick's delta to the payload.
struct AddRule;

impl UpdateRule<u64> for AddRule {
    type Delta = u64;

    fn applied(&self, obj: u64, delta: u64) -> u64 {
        obj.wrapping_add(delta)
    }

    fn apply(&self, obj: &mut u64, delta: &u64) {
        *obj = obj.wrapping_add(*delta);
    }
}

fn machine() -> StateMachine<u64, AddRule> {
    StateMachine::new()
}

#[test]
fn lookup_on_empty_machine_is_unknown_object() {
    let m = machine();
    assert_eq!(m.lookup(ObjectId(999)).err(), Some(MachineError::UnknownObject));
}

#[test]
fn admit_into_unregistered_state_is_unknown_state() {
    let mut m = machine();
    let r = m.admit_object(StateId(1), ObjectId(7), 5);
    assert_eq!(r, Err(MachineError::UnknownState));
    assert!(!m.has_object(ObjectId(7)));
}

#[test]
fn register_duplicate_state_is_rejected() {
    let mut m = machine();
    assert_eq!(m.register_state(StateId(0), ObjectStore::new(), None), Ok(()));
    let r = m.register_state(StateId(0), ObjectStore::new(), Some(AddRule));
    assert_eq!(r, Err(MachineError::DuplicateState));
}

#[test]
fn admit_duplicate_object_is_rejected() {
    let mut m = machine();
    m.register_state(StateId(0), ObjectStore::new(), None).unwrap();
    m.register_state(StateId(1), ObjectStore::new(), None).unwrap();
    m.admit_object(StateId(0), ObjectId(7), 5).unwrap();
    let r = m.admit_object(StateId(1), ObjectId(7), 6);
    assert_eq!(r, Err(MachineError::DuplicateObject));
    assert_eq!(m.state_id_of(ObjectId(7)), Ok(StateId(0)));
    assert_eq!(m.lookup(ObjectId(7)), Ok(&5));
}

#[test]
fn transition_then_state_id_returns_target() {
    let mut m = machine();
    m.register_state(StateId(0), ObjectStore::new(), None).unwrap();
    m.register_state(StateId(1), ObjectStore::new(), None).unwrap();
    m.admit_object(StateId(0), ObjectId(7), 5).unwrap();
    m.transition(ObjectId(7), StateId(1)).unwrap();
    assert_eq!(m.state_id_of(ObjectId(7)), Ok(StateId(1)));
}

#[test]
fn transition_of_unknown_object_is_unknown_object() {
    let mut m = machine();
    m.register_state(StateId(0), ObjectStore::new(), None).unwrap();
    assert_eq!(m.transition(ObjectId(9), StateId(0)), Err(MachineError::UnknownObject));
}

#[test]
fn transition_to_unregistered_state_is_unknown_state() {
    let mut m = machine();
    m.register_state(StateId(0), ObjectStore::new(), None).unwrap();
    m.admit_object(StateId(0), ObjectId(7), 5).unwrap();
    assert_eq!(m.transition(ObjectId(7), StateId(4)), Err(MachineError::UnknownState));
    assert_eq!(m.state_id_of(ObjectId(7)), Ok(StateId(0)));
}

#[test]
fn evict_removes_from_index_and_former_store() {
    let mut m = machine();
    m.register_state(StateId(0), ObjectStore::new(), None).unwrap();
    m.admit_object(StateId(0), ObjectId(7), 5).unwrap();
    m.admit_object(StateId(0), ObjectId(8), 6).unwrap();
    assert_eq!(m.evict(ObjectId(7)), Ok(5));
    assert_eq!(m.lookup(ObjectId(7)).err(), Some(MachineError::UnknownObject));
    assert_eq!(m.evict(ObjectId(7)), Err(MachineError::UnknownObject));
    let sibling_store = m.state_of(ObjectId(8)).unwrap();
    assert!(!sibling_store.contains(7));
    assert!(sibling_store.contains(8));
}

#[test]
fn transition_round_trip_restores_payload_and_state() {
    let mut m = machine();
    m.register_state(StateId(0), ObjectStore::new(), None).unwrap();
    m.register_state(StateId(1), ObjectStore::new(), None).unwrap();
    m.admit_object(StateId(0), ObjectId(7), 5).unwrap();
    m.transition(ObjectId(7), StateId(1)).unwrap();
    m.transition(ObjectId(7), StateId(0)).unwrap();
    assert_eq!(m.state_id_of(ObjectId(7)), Ok(StateId(0)));
    assert_eq!(m.lookup(ObjectId(7)), Ok(&5));
}

#[test]
fn advance_applies_rule_once_per_member_and_skips_ruleless_states() {
    let mut m = machine();
    m.register_state(StateId(0), ObjectStore::new(), None).unwrap();
    m.register_state(StateId(1), ObjectStore::new(), Some(AddRule)).unwrap();
    m.admit_object(StateId(1), ObjectId(1), 10).unwrap();
    m.admit_object(StateId(1), ObjectId(2), 20).unwrap();
    m.admit_object(StateId(0), ObjectId(3), 30).unwrap();
    m.advance(&5);
    assert_eq!(m.lookup(ObjectId(1)), Ok(&15));
    assert_eq!(m.lookup(ObjectId(2)), Ok(&25));
    assert_eq!(m.lookup(ObjectId(3)), Ok(&30));
}

#[test]
fn lookup_mut_writes_payload_in_place() {
    let mut m = machine();
    m.register_state(StateId(0), ObjectStore::new(), None).unwrap();
    m.admit_object(StateId(0), ObjectId(7), 5).unwrap();
    if let Ok(v) = m.lookup_mut(ObjectId(7)) {
        *v = 55;
    }
    assert_eq!(m.lookup(ObjectId(7)), Ok(&55));
    assert_eq!(m.state_id_of(ObjectId(7)), Ok(StateId(0)));
    assert!(m.lookup_mut(ObjectId(9)).is_err());
}

#[test]
fn register_with_initial_objects_indexes_them() {
    let mut m = machine();
    let mut init: ObjectStore<u64> = ObjectStore::new();
    init.insert(1, 100);
    init.insert(2, 200);
    m.register_state(StateId(3), init, None).unwrap();
    assert_eq!(m.lookup(ObjectId(1)), Ok(&100));
    assert_eq!(m.state_id_of(ObjectId(2)), Ok(StateId(3)));
    let mut clash: ObjectStore<u64> = ObjectStore::new();
    clash.insert(1, 111);
    let r = m.register_state(StateId(4), clash, None);
    assert_eq!(r, Err(MachineError::DuplicateObject));
    assert!(!m.has_state(StateId(4)));
    assert_eq!(m.lookup(ObjectId(1)), Ok(&100));
}

#[test]
fn state_of_returns_the_sibling_store() {
    let mut m = machine();
    m.register_state(StateId(0), ObjectStore::new(), None).unwrap();
    m.admit_object(StateId(0), ObjectId(1), 10).unwrap();
    m.admit_object(StateId(0), ObjectId(2), 20).unwrap();
    let st = m.state_of(ObjectId(1)).unwrap();
    assert!(st.contains(1));
    assert!(st.contains(2));
    assert_eq!(st.get(2), Some(&20));
    assert!(m.state_of(ObjectId(9)).is_err());
}
