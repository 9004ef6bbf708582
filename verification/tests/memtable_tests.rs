use db::common::{Key, KeyImp, Value, ValueImp};
use db::log::MockLog;
use db::memtable::MemTable;

#[test]
fn test_memtable_get_and_set() {
    let mut memtable = MemTable::new(MockLog::new());

    let k = KeyImp::from_str("123");
    let v = ValueImp::from_str("123");
    // test insert
    memtable.add(&k, v);
    let res = memtable.find(&k);
    assert_eq!("123", res.unwrap().to_str());
    //     test override
    let v2 = ValueImp::from_str("234");
    memtable.add(&k, v2);
    let res = memtable.find(&k);
    assert_eq!("234", res.unwrap().to_str());

    //     test delete
    memtable.delete(&k);
    assert!(memtable.find(&k).is_none());
    //     test insert after delete
    let v2 = ValueImp::from_str("234");
    memtable.add(&k, v2);
    let res = memtable.find(&k);
    assert_eq!("234", res.unwrap().to_str());
}

#[test]
fn test_memtable_iterator() {
    let mut memtable = MemTable::new(MockLog::new());

    memtable.add(&KeyImp::from_str("a"), ValueImp::from_str("a"));
    memtable.add(&KeyImp::from_str("b"), ValueImp::from_str("b"));
    memtable.add(&KeyImp::from_str("c"), ValueImp::from_str("c"));
    memtable.add(&KeyImp::from_str("d"), ValueImp::from_str("d"));
    memtable.delete(&KeyImp::from_str("c"));
    memtable.delete(&KeyImp::from_str("b"));
    memtable.delete(&KeyImp::from_str("a"));
    let mut it = memtable.iter();
    let (k, v) = it.next().unwrap();
    println!("{} {}", k.to_str(), v.to_str());
    assert_eq!("d", k.to_str());
    assert_eq!("d", v.to_str());
}

#[test]
fn memtable_iterator_yields_each_live_key_once() {
    let mut memtable = MemTable::new(MockLog::new());
    memtable.add(&KeyImp::from_str("x"), ValueImp::from_str("1"));
    memtable.add(&KeyImp::from_str("y"), ValueImp::from_str("2"));
    memtable.add(&KeyImp::from_str("x"), ValueImp::from_str("3"));
    memtable.delete(&KeyImp::from_str("z"));
    let mut it = memtable.iter();
    let (k1, v1) = it.next().unwrap();
    let (k2, v2) = it.next().unwrap();
    assert!(it.next().is_none());
    assert_eq!((k1.to_str(), v1.to_str()), ("x".to_string(), "3".to_string()));
    assert_eq!((k2.to_str(), v2.to_str()), ("y".to_string(), "2".to_string()));
}

#[test]
fn memtable_missing_key_is_none() {
    let memtable = MemTable::new(MockLog::new());
    assert!(memtable.find(&KeyImp::from_str("nope")).is_none());
}

#[test]
fn memtable_iterator_matches_find() {
    let mut memtable = MemTable::new(MockLog::new());
    let keys = ["k1", "k2", "k3", "k4"];
    for (i, k) in keys.iter().enumerate() {
        memtable.add(&KeyImp::from_str(k), ValueImp::from_str(&format!("v{}", i)));
    }
    memtable.delete(&KeyImp::from_str("k2"));
    memtable.add(&KeyImp::from_str("k3"), ValueImp::from_str("w"));
    let mut found: Vec<(String, String)> = Vec::new();
    for k in keys.iter() {
        if let Some(v) = memtable.find(&KeyImp::from_str(k)) {
            found.push((k.to_string(), v.to_str()));
        }
    }
    let mut it = memtable.iter();
    let mut listed: Vec<(String, String)> = Vec::new();
    while let Some((k, v)) = it.next() {
        listed.push((k.to_str(), v.to_str()));
    }
    assert!(it.next().is_none());
    listed.sort();
    assert_eq!(listed, found);
    assert_eq!(
        listed,
        vec![
            ("k1".to_string(), "v0".to_string()),
            ("k3".to_string(), "w".to_string()),
            ("k4".to_string(), "v3".to_string())
        ]
    );
}
