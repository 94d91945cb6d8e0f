use state_partition::store::ObjectStore;

#[test]
fn insert_get_and_len() {
    let mut st: ObjectStore<u32> = ObjectStore::new();
    assert_eq!(st.len(), 0);
    st.insert(1, 10);
    st.insert(2, 20);
    st.insert(1, 11);
    assert_eq!(st.len(), 2);
    assert_eq!(st.get(1), Some(&11));
    assert_eq!(st.get(2), Some(&20));
    assert_eq!(st.get(3), None);
    assert!(st.contains(1));
    assert!(!st.contains(3));
}

#[test]
fn remove_detaches_ownership() {
    let mut st: ObjectStore<String> = ObjectStore::new();
    st.insert(5, String::from("five"));
    assert_eq!(st.remove(5), Some(String::from("five")));
    assert_eq!(st.remove(5), None);
    assert!(!st.contains(5));
    assert_eq!(st.len(), 0);
}

#[test]
fn transfer_moves_entry_and_reports_absence() {
    let mut a: ObjectStore<String> = ObjectStore::new();
    let mut b: ObjectStore<String> = ObjectStore::new();
    a.insert(7, String::from("payload"));
    assert!(a.transfer(7, &mut b));
    assert!(!a.contains(7));
    assert_eq!(b.get(7), Some(&String::from("payload")));
    assert!(!b.transfer(9, &mut a));
    assert_eq!(a.len(), 0);
    assert_eq!(b.len(), 1);
}

#[test]
fn get_mut_writes_through() {
    let mut st: ObjectStore<u32> = ObjectStore::new();
    st.insert(4, 40);
    if let Some(v) = st.get_mut(4) {
        *v = 44;
    }
    assert_eq!(st.get(4), Some(&44));
    assert!(st.get_mut(5).is_none());
}

#[test]
fn ids_lists_each_key_once() {
    let mut st: ObjectStore<u32> = ObjectStore::new();
    st.insert(3, 30);
    st.insert(1, 10);
    st.insert(2, 20);
    st.insert(1, 11);
    let mut ids = st.ids();
    ids.sort();
    assert_eq!(ids, vec![1, 2, 3]);
}
