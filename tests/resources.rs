use critic::config::{tests_conflict, InputRef, TestConfig};
use critic::store::{Dependencies, Receiver, ResourceStore};

#[test]
fn stored_output_comes_back_through_its_guard() {
    let mut receiver: Receiver<String> = Receiver::new();
    receiver.receive_output(3, "world".to_string());
    assert!(receiver.has_output(3));
    assert!(!receiver.has_output(4));
    let value = receiver.take_output(3).unwrap();
    let mut store: ResourceStore<String> = ResourceStore::new();
    assert!(store.commit(3, value));
    let mut deps: Dependencies<String, String, String> = Dependencies::new();
    deps.add_owned(3, store.get(3).unwrap().clone());
    deps.add_shared(3, store.get(3).unwrap().clone());
    deps.add_exclusive(3, store.get(3).unwrap().clone());
    assert_eq!(deps.owned(3).guard_extract(), "world");
    assert_eq!(deps.shared(3).guard_extract(), "world");
    let mut write = deps.exclusive(3);
    *write.guard_extract() = "**new** World".to_string();
    assert_eq!(write.guard_extract(), "**new** World");
}

#[test]
fn distinct_fixtures_commit_to_distinct_slots() {
    let mut store: ResourceStore<u32> = ResourceStore::new();
    assert!(store.commit(1, 10));
    assert!(store.commit(2, 20));
    assert_eq!(store.get(1), Some(&10));
    assert_eq!(store.get(2), Some(&20));
    assert_eq!(store.get(3), None);
}

#[test]
fn a_committed_slot_is_never_replaced() {
    let mut store: ResourceStore<u32> = ResourceStore::new();
    assert!(store.commit(1, 10));
    assert!(!store.commit(1, 11));
    assert_eq!(store.get(1), Some(&10));
}

#[test]
fn taking_a_missing_output_gives_nothing() {
    let mut receiver: Receiver<u8> = Receiver::new();
    assert_eq!(receiver.take_output(9), None);
}

#[test]
fn input_ref_accessors() {
    assert_eq!(InputRef::shared(5u64).id(), 5);
    assert_eq!(InputRef::exclusive(6u64).id(), 6);
    assert_eq!(*InputRef::owned(7u64).inner(), 7);
    assert_eq!(InputRef::shared(5u64), InputRef::Shared(5));
    assert_ne!(InputRef::shared(5u64), InputRef::Exclusive(5));
}

#[test]
fn conflicts_between_tests() {
    let make = |inputs: Vec<InputRef<u64>>, group: Option<&str>| TestConfig {
        should_panic: false,
        subprocess: false,
        inputs,
        exclusion_group: group.map(|g| g.to_string()),
        runnable_fn: (),
        module: String::new(),
        name: String::new(),
    };
    let r1 = make(vec![InputRef::shared(1)], None);
    let r2 = make(vec![InputRef::shared(1)], None);
    let w = make(vec![InputRef::exclusive(1)], None);
    let o = make(vec![InputRef::owned(1)], None);
    let g1 = make(vec![], Some("db"));
    let g2 = make(vec![], Some("db"));
    let g3 = make(vec![], Some("cache"));
    assert!(!tests_conflict(&r1, &r2));
    assert!(tests_conflict(&r1, &w));
    assert!(tests_conflict(&w, &r2));
    assert!(!tests_conflict(&w, &o));
    assert!(tests_conflict(&g1, &g2));
    assert!(!tests_conflict(&g1, &g3));
}
