use pmemkv::errors::{classify_status, ErrorKind};
use pmemkv::keys::{contains_nul, str_eq, str_lt};
use pmemkv::kvengine::KVEngine;

#[test]
fn classify_maps_the_status_codes() {
    assert!(classify_status(1, "k").is_ok());
    assert_eq!(classify_status(-1, "k").unwrap_err(), ErrorKind::Fail);
    assert_eq!(
        classify_status(0, "k").unwrap_err(),
        ErrorKind::NotFound("k".to_string())
    );
    assert_eq!(
        classify_status(7, "other").unwrap_err(),
        ErrorKind::NotFound("other".to_string())
    );
    assert_eq!(
        classify_status(-2, "k").unwrap_err(),
        ErrorKind::NotFound("k".to_string())
    );
}

#[test]
fn start_rejects_embedded_terminators() {
    let r = KVEngine::start::<fn(&str, &str, &str)>("bad\0name", "cfg", None);
    assert_eq!(r.err().map(|e| e == ErrorKind::InvalidArgument), Some(true));
    let r = KVEngine::start_string::<fn(&str, &str, &str)>("vsmap", "cfg\0", None);
    assert_eq!(r.err().map(|e| e == ErrorKind::InvalidArgument), Some(true));
}

#[test]
fn put_rejects_embedded_terminators_before_any_change() {
    let mut kv =
        KVEngine::start::<fn(&str, &str, &str)>("vsmap", "cfg", None).unwrap();
    assert_eq!(kv.put("a\0b", "v"), Err(ErrorKind::InvalidArgument));
    assert_eq!(kv.put("k", "v\0"), Err(ErrorKind::InvalidArgument));
    assert_eq!(kv.count(), 0);
    assert!(kv.exists_key("a\0b").is_err());
    assert_eq!(kv.exists_key("a\0b"), Err(ErrorKind::InvalidArgument));
}

#[test]
fn key_operations_reject_embedded_terminators() {
    let mut kv =
        KVEngine::start::<fn(&str, &str, &str)>("vsmap", "cfg", None).unwrap();
    kv.put("k", "v").unwrap();
    assert_eq!(kv.remove("k\0"), Err(ErrorKind::InvalidArgument));
    assert_eq!(kv.get_copy("k\0", 10), Err(ErrorKind::InvalidArgument));
    assert_eq!(kv.count_above("k\0"), Err(ErrorKind::InvalidArgument));
    assert_eq!(kv.count_below("k\0"), Err(ErrorKind::InvalidArgument));
    assert_eq!(kv.count_between("a", "k\0"), Err(ErrorKind::InvalidArgument));
    assert_eq!(
        kv.each_above::<fn(&[u8], &[u8])>("k\0", None),
        Err(ErrorKind::InvalidArgument)
    );
    assert_eq!(
        kv.each_between_string::<fn(&str, &str)>("k\0", "z", None),
        Err(ErrorKind::InvalidArgument)
    );
    assert_eq!(
        kv.all_above_string::<fn(&str)>("k\0", None),
        Err(ErrorKind::InvalidArgument)
    );
    assert_eq!(kv.count(), 1);
    assert_eq!(kv.get_copy("k", 10).unwrap(), "v");
}

#[test]
fn nul_detection_is_exact() {
    assert!(!contains_nul(""));
    assert!(!contains_nul("plain"));
    assert!(contains_nul("\0"));
    assert!(contains_nul("a\0b"));
    assert!(contains_nul("trailing\0"));
}

#[test]
fn string_helpers_compare_by_character() {
    assert!(str_eq("", ""));
    assert!(str_eq("abc", "abc"));
    assert!(!str_eq("abc", "abd"));
    assert!(!str_eq("abc", "ab"));
    assert!(!str_lt("", ""));
    assert!(str_lt("", "a"));
    assert!(str_lt("a", "ab"));
    assert!(!str_lt("ab", "a"));
    assert!(str_lt("ab", "b"));
    assert!(!str_lt("b", "ab"));
    assert!(str_lt("abc", "abd"));
    assert!(!str_lt("abc", "abc"));
}
