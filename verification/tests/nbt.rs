use valence_protocol::nbt::compound::Compound;
use valence_protocol::nbt::error::Error;

#[test]
fn compound_insert_get() {
    let mut c: Compound<i32> = Compound::new();
    assert!(c.is_empty());
    assert_eq!(c.insert("b".to_string(), 2), None);
    assert_eq!(c.insert("a".to_string(), 1), None);
    assert_eq!(c.insert("c".to_string(), 3), None);
    assert_eq!(c.len(), 3);
    assert_eq!(c.get("a"), Some(&1));
    assert_eq!(c.get("b"), Some(&2));
    assert_eq!(c.get("d"), None);
    assert!(c.contains_key("c"));
    assert!(!c.contains_key("ca"));
    assert_eq!(c.insert("b".to_string(), 20), Some(2));
    assert_eq!(c.get("b"), Some(&20));
    assert_eq!(c.len(), 3);
}

#[test]
fn compound_get_mut() {
    let mut c: Compound<String> = Compound::with_capacity(4);
    c.insert("key".to_string(), "old".to_string());
    if let Some(v) = c.get_mut("key") {
        v.push_str("er");
    }
    assert_eq!(c.get("key").map(|s| s.as_str()), Some("older"));
    assert!(c.get_mut("missing").is_none());
}

#[test]
fn compound_clear() {
    let mut c: Compound<u8> = Compound::new();
    c.insert("x".to_string(), 1);
    c.insert("é".to_string(), 2);
    assert_eq!(c.len(), 2);
    c.clear();
    assert!(c.is_empty());
    assert_eq!(c.get("x"), None);
}

#[test]
fn compound_unicode_keys() {
    let mut c: Compound<u8> = Compound::new();
    c.insert("z".to_string(), 1);
    c.insert("é".to_string(), 2);
    c.insert("".to_string(), 3);
    assert_eq!(c.get("é"), Some(&2));
    assert_eq!(c.get(""), Some(&3));
    assert_eq!(c.get("e"), None);
    assert_eq!(c.len(), 3);
}

#[test]
fn error_messages() {
    assert_eq!(Error::new_static("bad tag").to_string(), "bad tag");
    assert_eq!(Error::new_owned("bad length".to_string()).to_string(), "bad length");
    assert_eq!(Error::new_io("broken pipe".to_string()).to_string(), "I/O error: broken pipe");
    assert_eq!(Error::from("static").to_string(), "static");
    assert_eq!(Error::from("eof".to_string()).to_string(), "I/O error: eof");
}

#[test]
fn compound_index() {
    let mut c: Compound<i32> = Compound::new();
    c.insert("x".to_string(), 5);
    c.insert("y".to_string(), 6);
    assert_eq!(*c.index("y"), 6);
    *c.index_mut("x") += 10;
    assert_eq!(c.get("x"), Some(&15));
    assert_eq!(c.len(), 2);
}

#[test]
fn compound_iter_in_key_order() {
    let mut c: Compound<i32> = Compound::new();
    c.insert("b".to_string(), 2);
    c.insert("ab".to_string(), 12);
    c.insert("a".to_string(), 1);
    c.insert("B".to_string(), 0);
    let got: Vec<(String, i32)> = c.iter().into_iter().map(|(k, v)| (k.clone(), *v)).collect();
    assert_eq!(
        got,
        vec![
            ("B".to_string(), 0),
            ("a".to_string(), 1),
            ("ab".to_string(), 12),
            ("b".to_string(), 2),
        ]
    );
    assert!(Compound::<i32>::new().iter().is_empty());
}

#[test]
fn compound_from_entries_last_wins() {
    let c: Compound<i32> = Compound::from_entries(vec![
        ("k".to_string(), 1),
        ("j".to_string(), 2),
        ("k".to_string(), 3),
    ]);
    assert_eq!(c.len(), 2);
    assert_eq!(c.get("k"), Some(&3));
    assert_eq!(c.get("j"), Some(&2));
    assert!(Compound::<i32>::from_entries(vec![]).is_empty());
}

#[test]
fn compound_eq() {
    let a: Compound<i32> = Compound::from_entries(vec![("x".to_string(), 1), ("y".to_string(), 2)]);
    let b: Compound<i32> = Compound::from_entries(vec![("y".to_string(), 2), ("x".to_string(), 1)]);
    let c: Compound<i32> = Compound::from_entries(vec![("x".to_string(), 1), ("y".to_string(), 3)]);
    let d: Compound<i32> = Compound::from_entries(vec![("x".to_string(), 1), ("z".to_string(), 2)]);
    let e: Compound<i32> = Compound::from_entries(vec![("x".to_string(), 1)]);
    assert!(a.eq(&b));
    assert!(!a.eq(&c));
    assert!(!a.eq(&d));
    assert!(!a.eq(&e));
    assert!(Compound::<i32>::new().eq(&Compound::new()));
}
