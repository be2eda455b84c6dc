use std::cell::RefCell;
use std::collections::HashMap;

use pmemkv::errors::ErrorKind;
use pmemkv::kvengine::KVEngine;

fn fresh() -> KVEngine {
    KVEngine::start::<fn(&str, &str, &str)>("vsmap", "{\"path\":\"/mnt/mem/\"}", None)
        .expect("start should succeed on valid names")
}

#[test]
fn start_scenario() {
    let failures: RefCell<Vec<String>> = RefCell::new(Vec::new());
    let mut kv = KVEngine::start_string(
        "vsmap",
        "{\"path\":\"/mnt/mem/\"}",
        Some(|_engine: &str, _config: &str, msg: &str| {
            failures.borrow_mut().push(msg.to_string());
        }),
    )
    .expect("start should succeed");
    assert!(failures.borrow().is_empty());

    let res = kv.put("key1", "value1");
    assert!(res.is_ok() && kv.count() == 1);
    kv.put("key2", "value2").unwrap();
    kv.put("key3", "value3").unwrap();
    assert!(kv.count() == 3);
    let s = kv.get_copy("key2", 10).unwrap();
    assert!(s == "value2");
    let seen: RefCell<Vec<String>> = RefCell::new(Vec::new());
    kv.all_string(Some(|k: &str| seen.borrow_mut().push(k.to_string())));
    let mut keys = seen.into_inner();
    keys.sort();
    assert_eq!(keys, vec!["key1".to_string(), "key2".to_string(), "key3".to_string()]);
    let res = kv.remove("key1");
    assert!(res.is_ok());
    let res = kv.exists_key("key1");
    assert!(res.is_err());
    match res.unwrap_err() {
        ErrorKind::NotFound(k) => assert_eq!(k, "key1"),
        ErrorKind::Fail => panic!("failed to check the existence"),
        _ => panic!("should report a not-found error"),
    }
}

#[test]
fn round_trip() {
    let mut kv = fresh();
    kv.put("alpha", "beta").unwrap();
    assert_eq!(kv.get_copy("alpha", 4).unwrap(), "beta");
    assert_eq!(kv.get_copy("alpha", 100).unwrap(), "beta");
}

#[test]
fn overwrite_is_exclusive() {
    let mut kv = fresh();
    kv.put("k", "first").unwrap();
    kv.put("k", "second").unwrap();
    assert_eq!(kv.get_copy("k", 32).unwrap(), "second");
    assert_eq!(kv.count(), 1);
}

#[test]
fn remove_absent_is_idempotent() {
    let mut kv = fresh();
    match kv.remove("ghost") {
        Err(ErrorKind::NotFound(k)) => assert_eq!(k, "ghost"),
        other => panic!("expected NotFound, got {:?}", other),
    }
    match kv.remove("ghost") {
        Err(ErrorKind::NotFound(k)) => assert_eq!(k, "ghost"),
        other => panic!("expected NotFound again, got {:?}", other),
    }
}

#[test]
fn exists_tracks_put_and_remove() {
    let mut kv = fresh();
    kv.put("k", "v").unwrap();
    assert!(kv.exists_key("k").is_ok());
    kv.remove("k").unwrap();
    match kv.exists_key("k") {
        Err(ErrorKind::NotFound(k)) => assert_eq!(k, "k"),
        other => panic!("expected NotFound, got {:?}", other),
    }
}

#[test]
fn count_tracks_distinct_keys() {
    let mut kv = fresh();
    assert_eq!(kv.count(), 0);
    kv.put("a", "1").unwrap();
    kv.put("b", "2").unwrap();
    kv.put("c", "3").unwrap();
    assert_eq!(kv.count(), 3);
    kv.remove("b").unwrap();
    assert_eq!(kv.count(), 2);
}

#[test]
fn get_copy_reports_absence_and_overflow() {
    let mut kv = fresh();
    match kv.get_copy("missing", 10) {
        Err(ErrorKind::NotFound(k)) => assert_eq!(k, "missing"),
        other => panic!("expected NotFound, got {:?}", other),
    }
    kv.put("k", "a-long-value").unwrap();
    match kv.get_copy("k", 3) {
        Err(ErrorKind::Fail) => (),
        other => panic!("expected Fail on a too-small ceiling, got {:?}", other),
    }
    match kv.get_copy("k", -1) {
        Err(ErrorKind::Fail) => (),
        other => panic!("expected Fail on a negative ceiling, got {:?}", other),
    }
}

#[test]
fn get_delivers_value_bytes() {
    let mut kv = fresh();
    kv.put("k", "value").unwrap();
    let seen: RefCell<Vec<Vec<u8>>> = RefCell::new(Vec::new());
    kv.get("k", Some(|v: &[u8]| seen.borrow_mut().push(v.to_vec())))
        .unwrap();
    assert_eq!(seen.into_inner(), vec![b"value".to_vec()]);
}

#[test]
fn get_string_delivers_value_text() {
    let mut kv = fresh();
    kv.put("k", "value").unwrap();
    let seen: RefCell<Vec<String>> = RefCell::new(Vec::new());
    kv.get_string("k", Some(|v: &str| seen.borrow_mut().push(v.to_string())))
        .unwrap();
    assert_eq!(seen.into_inner(), vec!["value".to_string()]);
}

#[test]
fn get_on_absent_key_is_silent() {
    let kv = fresh();
    let calls: RefCell<usize> = RefCell::new(0);
    let r = kv.get("missing", Some(|_v: &[u8]| *calls.borrow_mut() += 1));
    assert!(r.is_ok());
    assert_eq!(*calls.borrow(), 0);
    let r = kv.get_string("missing", Some(|_v: &str| *calls.borrow_mut() += 1));
    assert!(r.is_ok());
    assert_eq!(*calls.borrow(), 0);
}

#[test]
fn each_visits_every_key_exactly_once() {
    let mut kv = fresh();
    kv.put("c", "3").unwrap();
    kv.put("a", "1").unwrap();
    kv.put("b", "2").unwrap();
    let visits: RefCell<HashMap<String, usize>> = RefCell::new(HashMap::new());
    kv.each_string(Some(|k: &str, v: &str| {
        assert_eq!(kv_value(k), v);
        *visits.borrow_mut().entry(k.to_string()).or_insert(0) += 1;
    }));
    let visits = visits.into_inner();
    assert_eq!(visits.len(), 3);
    for key in ["a", "b", "c"] {
        assert_eq!(visits.get(key), Some(&1));
    }
}

fn kv_value(k: &str) -> String {
    match k {
        "a" => "1".to_string(),
        "b" => "2".to_string(),
        "c" => "3".to_string(),
        _ => panic!("unexpected key {}", k),
    }
}

#[test]
fn each_delivers_pairs_as_bytes() {
    let mut kv = fresh();
    kv.put("k1", "v1").unwrap();
    kv.put("k2", "v2").unwrap();
    let seen: RefCell<Vec<(Vec<u8>, Vec<u8>)>> = RefCell::new(Vec::new());
    kv.each(Some(|k: &[u8], v: &[u8]| {
        seen.borrow_mut().push((k.to_vec(), v.to_vec()));
    }));
    let mut pairs = seen.into_inner();
    pairs.sort();
    assert_eq!(
        pairs,
        vec![
            (b"k1".to_vec(), b"v1".to_vec()),
            (b"k2".to_vec(), b"v2".to_vec()),
        ]
    );
}

#[test]
fn each_with_no_callback_is_a_no_op() {
    let kv = fresh();
    kv.each::<fn(&[u8], &[u8])>(None);
    kv.each_string::<fn(&str, &str)>(None);
    assert!(kv
        .each_above::<fn(&[u8], &[u8])>("a", None)
        .is_ok());
}

#[test]
fn range_scans_respect_bounds() {
    let mut kv = fresh();
    for (k, v) in [("a", "1"), ("b", "2"), ("c", "3"), ("d", "4")] {
        kv.put(k, v).unwrap();
    }
    let above: RefCell<Vec<String>> = RefCell::new(Vec::new());
    kv.each_above_string("b", Some(|k: &str, _v: &str| above.borrow_mut().push(k.to_string())))
        .unwrap();
    let mut above = above.into_inner();
    above.sort();
    assert_eq!(above, vec!["c".to_string(), "d".to_string()]);

    let below: RefCell<Vec<String>> = RefCell::new(Vec::new());
    kv.each_below_string("b", Some(|k: &str, _v: &str| below.borrow_mut().push(k.to_string())))
        .unwrap();
    assert_eq!(below.into_inner(), vec!["a".to_string()]);

    let between: RefCell<Vec<String>> = RefCell::new(Vec::new());
    kv.each_between_string(
        "a",
        "d",
        Some(|k: &str, _v: &str| between.borrow_mut().push(k.to_string())),
    )
    .unwrap();
    let mut between = between.into_inner();
    between.sort();
    assert_eq!(between, vec!["b".to_string(), "c".to_string()]);

    let bytes_above: RefCell<Vec<Vec<u8>>> = RefCell::new(Vec::new());
    kv.each_above("c", Some(|k: &[u8], _v: &[u8]| bytes_above.borrow_mut().push(k.to_vec())))
        .unwrap();
    assert_eq!(bytes_above.into_inner(), vec![b"d".to_vec()]);
    let bytes_below: RefCell<Vec<Vec<u8>>> = RefCell::new(Vec::new());
    kv.each_below("b", Some(|k: &[u8], _v: &[u8]| bytes_below.borrow_mut().push(k.to_vec())))
        .unwrap();
    assert_eq!(bytes_below.into_inner(), vec![b"a".to_vec()]);
    let bytes_between: RefCell<Vec<Vec<u8>>> = RefCell::new(Vec::new());
    kv.each_between(
        "b",
        "d",
        Some(|k: &[u8], _v: &[u8]| bytes_between.borrow_mut().push(k.to_vec())),
    )
    .unwrap();
    assert_eq!(bytes_between.into_inner(), vec![b"c".to_vec()]);
}

#[test]
fn counts_respect_bounds() {
    let mut kv = fresh();
    for (k, v) in [("a", "1"), ("b", "2"), ("c", "3"), ("d", "4")] {
        kv.put(k, v).unwrap();
    }
    assert_eq!(kv.count_above("b").unwrap(), 2);
    assert_eq!(kv.count_above("d").unwrap(), 0);
    assert_eq!(kv.count_below("b").unwrap(), 1);
    assert_eq!(kv.count_below("a").unwrap(), 0);
    assert_eq!(kv.count_between("a", "d").unwrap(), 2);
    assert_eq!(kv.count_between("d", "a").unwrap(), 0);
    assert_eq!(kv.count_between("a", "a").unwrap(), 0);
}

#[test]
fn lexicographic_order_is_by_character() {
    let mut kv = fresh();
    kv.put("ab", "1").unwrap();
    kv.put("b", "2").unwrap();
    kv.put("a", "3").unwrap();
    // "a" < "ab" < "b": a proper prefix comes first.
    assert_eq!(kv.count_above("a").unwrap(), 2);
    assert_eq!(kv.count_above("ab").unwrap(), 1);
    assert_eq!(kv.count_below("ab").unwrap(), 1);
    assert_eq!(kv.count_between("a", "b").unwrap(), 1);
}

#[test]
fn all_variants_deliver_keys() {
    let mut kv = fresh();
    kv.put("x", "1").unwrap();
    kv.put("y", "2").unwrap();
    kv.put("z", "3").unwrap();

    let keys: RefCell<Vec<Vec<u8>>> = RefCell::new(Vec::new());
    kv.all(Some(|k: &[u8]| keys.borrow_mut().push(k.to_vec())));
    let mut keys = keys.into_inner();
    keys.sort();
    assert_eq!(keys, vec![b"x".to_vec(), b"y".to_vec(), b"z".to_vec()]);

    let above: RefCell<Vec<String>> = RefCell::new(Vec::new());
    kv.all_above_string("x", Some(|k: &str| above.borrow_mut().push(k.to_string())))
        .unwrap();
    let mut above = above.into_inner();
    above.sort();
    assert_eq!(above, vec!["y".to_string(), "z".to_string()]);

    let below: RefCell<Vec<Vec<u8>>> = RefCell::new(Vec::new());
    kv.all_below("y", Some(|k: &[u8]| below.borrow_mut().push(k.to_vec())))
        .unwrap();
    assert_eq!(below.into_inner(), vec![b"x".to_vec()]);

    let above_bytes: RefCell<Vec<Vec<u8>>> = RefCell::new(Vec::new());
    kv.all_above("y", Some(|k: &[u8]| above_bytes.borrow_mut().push(k.to_vec())))
        .unwrap();
    assert_eq!(above_bytes.into_inner(), vec![b"z".to_vec()]);

    let below_text: RefCell<Vec<String>> = RefCell::new(Vec::new());
    kv.all_below_string("z", Some(|k: &str| below_text.borrow_mut().push(k.to_string())))
        .unwrap();
    let mut below_text = below_text.into_inner();
    below_text.sort();
    assert_eq!(below_text, vec!["x".to_string(), "y".to_string()]);

    let between: RefCell<Vec<Vec<u8>>> = RefCell::new(Vec::new());
    kv.all_between("x", "z", Some(|k: &[u8]| between.borrow_mut().push(k.to_vec())))
        .unwrap();
    assert_eq!(between.into_inner(), vec![b"y".to_vec()]);

    let between_text: RefCell<Vec<String>> = RefCell::new(Vec::new());
    kv.all_between_string("x", "z", Some(|k: &str| {
        between_text.borrow_mut().push(k.to_string())
    }))
    .unwrap();
    assert_eq!(between_text.into_inner(), vec!["y".to_string()]);
}

#[test]
fn stop_is_idempotent() {
    let mut kv = fresh();
    assert!(kv.running());
    kv.stop();
    assert!(!kv.running());
    kv.stop();
    assert!(!kv.running());
}
