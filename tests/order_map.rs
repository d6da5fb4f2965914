use gpu_controls::persist_order_map::PersistOrderMap;

fn keys_in_order(m: &PersistOrderMap<String, i32>) -> Vec<String> {
    let mut out = Vec::new();
    let mut it = m.iter();
    while let Some((k, _)) = it.next() {
        out.push(k.clone());
    }
    out
}

#[test]
fn overwrite_keeps_first_insertion_position() {
    let mut m: PersistOrderMap<String, i32> = PersistOrderMap::new();
    m.insert("b".to_string(), 1);
    m.insert("a".to_string(), 2);
    m.insert("b".to_string(), 3);
    assert_eq!(keys_in_order(&m), vec!["b".to_string(), "a".to_string()]);
    assert_eq!(m.get(&"b".to_string()), Some(&3));
    assert_eq!(m.get(&"a".to_string()), Some(&2));
    assert_eq!(m.len(), 2);
}

#[test]
fn order_is_insertion_not_key_order() {
    let mut m: PersistOrderMap<String, i32> = PersistOrderMap::new();
    for (i, k) in ["zeta", "alpha", "mid", "alpha", "zeta", "beta"].iter().enumerate() {
        m.insert(k.to_string(), i as i32);
    }
    assert_eq!(
        keys_in_order(&m),
        vec!["zeta".to_string(), "alpha".to_string(), "mid".to_string(), "beta".to_string()]
    );
    assert_eq!(m.get(&"zeta".to_string()), Some(&4));
    assert_eq!(m.get(&"alpha".to_string()), Some(&3));
}

#[test]
fn iteration_restarts_and_has_no_side_effects() {
    let mut m: PersistOrderMap<u32, i32> = PersistOrderMap::new();
    m.insert(7, 70);
    m.insert(3, 30);
    for _ in 0..2 {
        let mut it = m.iter();
        assert_eq!(it.next(), Some((&7, &70)));
        assert_eq!(it.next(), Some((&3, &30)));
        assert_eq!(it.next(), None);
        assert_eq!(it.next(), None);
    }
    assert_eq!(m.len(), 2);
}

#[test]
fn get_absent_is_none() {
    let mut m: PersistOrderMap<String, i32> = PersistOrderMap::new();
    assert_eq!(m.get(&"x".to_string()), None);
    assert!(m.get_mut(&"x".to_string()).is_none());
    assert!(!m.contains_key(&"x".to_string()));
    m.insert("x".to_string(), 1);
    assert!(m.contains_key(&"x".to_string()));
}

#[test]
fn get_mut_changes_value_in_place() {
    let mut m: PersistOrderMap<String, i32> = PersistOrderMap::new();
    m.insert("a".to_string(), 1);
    m.insert("b".to_string(), 2);
    if let Some(v) = m.get_mut(&"a".to_string()) {
        *v = 10;
    }
    assert_eq!(m.get(&"a".to_string()), Some(&10));
    assert_eq!(keys_in_order(&m), vec!["a".to_string(), "b".to_string()]);
    let (k, v) = m.entry_at(1);
    assert_eq!((k.as_str(), *v), ("b", 2));
}

#[test]
fn consuming_walk_drains_in_order() {
    let mut m: PersistOrderMap<u64, i32> = PersistOrderMap::new();
    m.insert(5, 1);
    m.insert(2, 2);
    m.insert(5, 3);
    m.insert(9, 4);
    let mut it = m.into_iter();
    assert_eq!(it.next(), Some((5, 3)));
    assert_eq!(it.next(), Some((2, 2)));
    assert_eq!(it.next(), Some((9, 4)));
    assert_eq!(it.next(), None);
}
