use grimorio::table::{SecretEntry, SecretTable};

fn entry(byte: u8, t: u128) -> SecretEntry {
    SecretEntry { blob: vec![byte; 3], last_accessed: t }
}

#[test]
fn names_stay_sorted_and_unique() {
    let mut t = SecretTable::new();
    for (i, name) in ["m", "c", "x", "a", "c"].iter().enumerate() {
        t.insert(name.to_string(), entry(i as u8, 0));
    }
    assert_eq!(t.len(), 4);
    assert_eq!(t.names(), vec!["a", "c", "m", "x"]);
    // The second "c" replaced the first.
    assert_eq!(t.get("c").unwrap().blob, vec![4u8; 3]);
    assert!(t.get("b").is_none());
    assert_eq!(t.find("m"), Ok(2));
    assert_eq!(t.find("b"), Err(1));
    assert_eq!(t.find("z"), Err(4));
}

#[test]
fn remove_hands_back_the_entry() {
    let mut t = SecretTable::new();
    t.insert("a".to_string(), entry(1, 5));
    t.insert("b".to_string(), entry(2, 6));
    let e = t.remove("a").unwrap();
    assert_eq!(e.blob, vec![1u8; 3]);
    assert_eq!(e.last_accessed, 5);
    assert!(t.remove("a").is_none());
    assert_eq!(t.names(), vec!["b"]);
}

#[test]
fn touch_sets_access_time_only() {
    let mut t = SecretTable::new();
    t.insert("a".to_string(), entry(9, 5));
    t.touch("a", 77);
    let e = t.get("a").unwrap();
    assert_eq!(e.last_accessed, 77);
    assert_eq!(e.blob, vec![9u8; 3]);
}

#[test]
fn remove_expired_counts_and_keeps_order() {
    let mut t = SecretTable::new();
    t.insert("a".to_string(), entry(1, 0));
    t.insert("b".to_string(), entry(2, 50));
    t.insert("c".to_string(), entry(3, 10));
    t.insert("d".to_string(), entry(4, 200));
    // At 100 with a timeout of 60: "a" (100) and "c" (90) have outlived it.
    assert_eq!(t.remove_expired(100, 60), 2);
    assert_eq!(t.names(), vec!["b", "d"]);
    assert_eq!(t.remove_expired(100, 60), 0);
    // A time before an access counts as no time elapsed.
    assert_eq!(t.least_elapsed(100), Some(0));
    assert_eq!(t.least_elapsed(260), Some(60));
    t.wipe_all();
    assert_eq!(t.len(), 0);
    assert_eq!(t.least_elapsed(260), None);
}
