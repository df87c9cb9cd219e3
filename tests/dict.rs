use pygc::dict::{Dict, Key};

#[test]
fn test_insert() {
    let mut dict: Dict<String> = Dict::default();
    assert_eq!(0, dict.len());

    let key1 = Key::from_bool(true);
    let value1 = "abc".to_string();
    dict.insert(&key1, value1);
    assert_eq!(1, dict.len());

    let key2 = Key::from_str("x");
    let value2 = "def".to_string();
    dict.insert(&key2, value2.clone());
    assert_eq!(2, dict.len());

    dict.insert(&key1, value2.clone());
    assert_eq!(2, dict.len());

    dict.delete(&key1).unwrap();
    assert_eq!(1, dict.len());

    dict.insert(&key1, value2.clone());
    assert_eq!(2, dict.len());

    assert_eq!(true, dict.contains(&key1));
    assert_eq!(true, dict.contains(&"x".to_string()));

    let val = dict.get(&"x".to_string()).unwrap();
    assert!(val == value2, "retrieved value must be equal to inserted value.");
}

fn keys_as_text(d: &Dict<i32>) -> Vec<String> {
    d.keys()
        .iter()
        .map(|k| match k {
            Key::Int(i) => format!("{}", i),
            Key::Str(s) => s.clone(),
        })
        .collect()
}

#[test]
fn order_is_kept_and_updates_stay_in_place() {
    let mut d: Dict<i32> = Dict::new();
    d.insert(&Key::from_str("a"), 1);
    d.insert(&Key::Int(7), 2);
    d.insert(&Key::from_str("b"), 3);
    d.insert(&Key::from_str("a"), 4);
    assert_eq!(keys_as_text(&d), vec!["a", "7", "b"]);
    assert_eq!(d.get(&Key::from_str("a")), Some(4));
    assert_eq!(d.pop(&Key::Int(7)), Some(2));
    assert_eq!(d.pop(&Key::Int(7)), None);
    assert_eq!(keys_as_text(&d), vec!["a", "b"]);
    d.insert(&Key::Int(7), 5);
    assert_eq!(keys_as_text(&d), vec!["a", "b", "7"]);
    assert_eq!(d.len(), 3);
}

#[test]
fn true_and_one_are_the_same_key() {
    let mut d: Dict<i32> = Dict::new();
    d.insert(&Key::from_bool(true), 1);
    d.insert(&Key::Int(1), 2);
    assert_eq!(d.len(), 1);
    assert_eq!(d.get(&Key::from_bool(true)), Some(2));
    assert!(!d.contains(&Key::from_str("1")));
}

#[test]
fn delete_missing_key_is_an_error() {
    let mut d: Dict<i32> = Dict::new();
    match d.delete(&Key::from_str("nope")) {
        Err(Key::Str(s)) => assert_eq!(s, "nope"),
        _ => panic!("expected a key error"),
    }
    assert!(!d.delete_if_exists(&Key::Int(3)));
    d.insert(&Key::Int(3), 9);
    assert!(d.delete_if_exists(&Key::Int(3)));
    assert!(d.is_empty());
}

#[test]
fn setdefault_and_delete_or_insert() {
    let mut d: Dict<i32> = Dict::new();
    assert_eq!(d.setdefault(&Key::from_str("k"), || 10), 10);
    assert_eq!(d.setdefault(&Key::from_str("k"), || 20), 10);
    let (k, v) = d.setdefault_entry(&Key::Int(2), || 30);
    assert_eq!(v, 30);
    assert!(matches!(k, Key::Int(2)));
    d.delete_or_insert(&Key::from_str("k"), 0);
    assert!(!d.contains(&Key::from_str("k")));
    d.delete_or_insert(&Key::from_str("k"), 40);
    assert_eq!(d.get(&Key::from_str("k")), Some(40));
}

#[test]
fn get_chain_falls_back() {
    let mut a: Dict<i32> = Dict::new();
    let mut b: Dict<i32> = Dict::new();
    a.insert(&Key::Int(1), 1);
    b.insert(&Key::Int(1), 10);
    b.insert(&Key::Int(2), 20);
    assert_eq!(a.get_chain(&b, &Key::Int(1)), Some(1));
    assert_eq!(a.get_chain(&b, &Key::Int(2)), Some(20));
    assert_eq!(a.get_chain(&b, &Key::Int(3)), None);
}

#[test]
fn positions_skip_holes() {
    let mut d: Dict<i32> = Dict::new();
    d.insert(&Key::Int(0), 0);
    d.insert(&Key::Int(1), 1);
    d.insert(&Key::Int(2), 2);
    d.pop(&Key::Int(1));
    let (p, k, v) = d.next_entry(1).unwrap();
    assert_eq!(p, 3);
    assert!(matches!(k, Key::Int(2)));
    assert_eq!(v, 2);
    assert!(d.next_entry(3).is_none());
    let (p, _, v) = d.prev_entry(1).unwrap();
    assert_eq!((p, v), (0, 0));
    let (p, _, v) = d.prev_entry(2).unwrap();
    assert_eq!((p, v), (1, 2));
    assert!(d.prev_entry(5).is_none());
    assert_eq!(d.len_from_entry_index(1), 2);
    assert_eq!(d.len_from_entry_index(9), 0);
}

#[test]
fn sizes_and_clear() {
    let mut d: Dict<i32> = Dict::new();
    let s0 = d.size();
    d.insert(&Key::Int(5), 5);
    assert!(d.has_changed_size(&s0));
    let s1 = d.size();
    assert_eq!(s1.entries_size, 1);
    assert_eq!(s1.used, 1);
    assert!(!d.has_changed_size(&s1));
    assert!(d.sizeof() > d.size().entries_size);
    d.clear();
    assert!(d.is_empty());
    assert_eq!(d.size().entries_size, 0);
}

#[test]
fn pop_back_takes_the_last_entry() {
    let mut d: Dict<i32> = Dict::new();
    assert!(d.pop_back().is_none());
    d.insert(&Key::Int(1), 1);
    d.insert(&Key::Int(2), 2);
    d.pop(&Key::Int(2));
    let (k, v) = d.pop_back().unwrap();
    assert!(matches!(k, Key::Int(1)));
    assert_eq!(v, 1);
    assert!(d.is_empty());
}
