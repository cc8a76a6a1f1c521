use storage_proxy::registry::{Acquired, Registry};

fn key(s: &str) -> String {
    s.to_string()
}

#[test]
fn concurrent_gets_share_one_computation() {
    let mut r: Registry<&str> = Registry::new();
    let outcomes: Vec<Acquired> = (0..4)
        .map(|i| r.acquire_or_join(key("k"), if i == 0 { "first" } else { "later" }))
        .collect();
    assert_eq!(outcomes[0], Acquired::Started(0));
    for o in &outcomes[1..] {
        assert_eq!(*o, Acquired::Joined(0));
    }
    let pending = r.lookup(&key("k")).unwrap();
    assert_eq!(pending.id, 0);
    assert_eq!(pending.handle, "first");
    assert_eq!(r.len(), 1);
}

#[test]
fn retired_key_gets_a_fresh_computation() {
    let mut r: Registry<u32> = Registry::new();
    assert_eq!(r.acquire_or_join(key("k"), 1), Acquired::Started(0));
    assert!(r.retire(&key("k"), 0));
    assert!(!r.contains(&key("k")));
    assert_eq!(r.acquire_or_join(key("k"), 2), Acquired::Started(1));
    assert_eq!(r.lookup(&key("k")).unwrap().handle, 2);
}

#[test]
fn distinct_keys_start_their_own_computations() {
    let mut r: Registry<u32> = Registry::new();
    assert_eq!(r.acquire_or_join(key("a"), 10), Acquired::Started(0));
    assert_eq!(r.acquire_or_join(key("b"), 20), Acquired::Started(1));
    assert_eq!(r.len(), 2);
    assert!(r.retire(&key("a"), 0));
    assert!(!r.contains(&key("a")));
    assert_eq!(r.lookup(&key("b")).unwrap().handle, 20);
    assert_eq!(r.lookup(&key("b")).unwrap().id, 1);
}

#[test]
fn late_retirement_spares_the_newer_computation() {
    let mut r: Registry<&str> = Registry::new();
    assert_eq!(r.acquire_or_join(key("k"), "a"), Acquired::Started(0));
    assert_eq!(r.acquire_or_join(key("k"), "j"), Acquired::Joined(0));
    // a joiner settles first and retires the entry
    assert!(r.retire(&key("k"), 0));
    // a new call registers a second computation
    assert_eq!(r.acquire_or_join(key("k"), "b"), Acquired::Started(1));
    // the first caller's retirement comes late
    assert!(!r.retire(&key("k"), 0));
    let pending = r.lookup(&key("k")).unwrap();
    assert_eq!(pending.id, 1);
    assert_eq!(pending.handle, "b");
    // a further caller joins the second computation, not a third
    assert_eq!(r.acquire_or_join(key("k"), "c"), Acquired::Joined(1));
}

#[test]
fn missing_key_entry_is_gone_after_retirement() {
    let mut r: Registry<u8> = Registry::new();
    assert_eq!(r.acquire_or_join(key("missing"), 0), Acquired::Started(0));
    assert_eq!(r.acquire_or_join(key("missing"), 1), Acquired::Joined(0));
    assert!(r.retire(&key("missing"), 0));
    assert!(!r.retire(&key("missing"), 0));
    assert!(!r.contains(&key("missing")));
    assert_eq!(r.len(), 0);
}

#[test]
fn retire_of_unknown_key_changes_nothing() {
    let mut r: Registry<u8> = Registry::new();
    assert!(!r.retire(&key("x"), 0));
    assert_eq!(r.acquire_or_join(key("y"), 5), Acquired::Started(0));
    assert!(!r.retire(&key("x"), 0));
    assert!(r.contains(&key("y")));
    assert!(r.lookup(&key("x")).is_none());
}
