use state_partition::machine::{ObjectId, StateId, StateMachine};
use state_partition::store::ObjectStore;
use state_partition::update::{UpdateDelta, UpdateRule};

#[derive(Clone, PartialEq, Debug)]
struct Particle {
    pos: [f64; 3],
    vel: [f64; 3],
}

/// Straight-line motion: position += velocity * delta.
struct Motion;

impl UpdateRule<Particle> for Motion {
    type Delta = f64;

    fn applied(&self, obj: Particle, delta: f64) -> Particle {
        let mut next = obj;
        for i in 0..3 {
            next.pos[i] += next.vel[i] * delta;
        }
        next
    }

    fn apply(&self, obj: &mut Particle, delta: &f64) {
        for i in 0..3 {
            obj.pos[i] += obj.vel[i] * *delta;
        }
    }
}

#[test]
fn moving_object_advances_and_idle_object_rests() {
    let idle = StateId(0);
    let moving = StateId(1);
    let mut m: StateMachine<Particle, Motion> = StateMachine::new();
    m.register_state(idle, ObjectStore::new(), None).unwrap();
    m.register_state(moving, ObjectStore::new(), Some(Motion)).unwrap();
    let p = Particle { pos: [0.0, 0.0, 0.0], vel: [1.0, 0.0, 0.0] };
    m.admit_object(moving, ObjectId(42), p).unwrap();
    m.advance(&2.0);
    assert_eq!(m.lookup(ObjectId(42)).unwrap().pos, [2.0, 0.0, 0.0]);
    m.transition(ObjectId(42), idle).unwrap();
    m.advance(&2.0);
    assert_eq!(m.lookup(ObjectId(42)).unwrap().pos, [2.0, 0.0, 0.0]);
}

/// A payload that advances itself when given the delta.
struct Counter(u64);

impl UpdateDelta<u64> for Counter {
    fn updated(self, delta: u64) -> Counter {
        Counter(self.0 + delta)
    }

    fn update(&mut self, delta: &u64) {
        self.0 += *delta;
    }
}

#[test]
fn update_all_lets_every_value_update_itself_once() {
    let mut st: ObjectStore<Counter> = ObjectStore::new();
    st.insert(1, Counter(10));
    st.insert(2, Counter(20));
    st.update_all(&3);
    assert_eq!(st.get(1).unwrap().0, 13);
    assert_eq!(st.get(2).unwrap().0, 23);
    assert_eq!(st.len(), 2);
}
