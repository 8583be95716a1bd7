use kvs::error::KvError;
use kvs::sled::{decode_value, lookup_result, removal_result, store_result};
use kvs::{KvsEngine, SledKvsEngine};

fn engine() -> SledKvsEngine {
    let db = sled::Config::new().temporary(true).open().unwrap();
    SledKvsEngine::from_db(db)
}

#[test]
fn decodes_stored_values() {
    assert_eq!(decode_value(b" value\n").unwrap(), " value\n");
    assert_eq!(decode_value("\u{e9}t\u{e9}".as_bytes()).unwrap(), "\u{e9}t\u{e9}");
    assert_eq!(decode_value(&[0xff, 0xfe]).unwrap_err(), KvError::Utf8);
}

#[test]
fn sled_set_get_remove() {
    let e = engine();
    assert_eq!(e.get("k".to_string()).unwrap(), None);
    e.set("k".to_string(), "v".to_string()).unwrap();
    assert_eq!(e.get("k".to_string()).unwrap(), Some("v".to_string()));
    e.set("k".to_string(), " w ".to_string()).unwrap();
    assert_eq!(e.get("k".to_string()).unwrap(), Some(" w ".to_string()));
    let c = e.clone();
    assert_eq!(c.get("k".to_string()).unwrap(), Some(" w ".to_string()));
    e.remove("k".to_string()).unwrap();
    assert_eq!(e.get("k".to_string()).unwrap(), None);
    assert_eq!(e.remove("k".to_string()).unwrap_err(), KvError::Log);
}

#[test]
fn outcomes_of_sled_calls() {
    assert_eq!(removal_result(Some(true), true), Ok(()));
    assert_eq!(removal_result(Some(true), false), Err(KvError::Sled));
    assert_eq!(removal_result(Some(false), true), Err(KvError::Log));
    assert_eq!(removal_result(None, true), Err(KvError::Sled));
    assert_eq!(store_result(true, true), Ok(()));
    assert_eq!(store_result(true, false), Err(KvError::Sled));
    assert_eq!(store_result(false, true), Err(KvError::Sled));
    assert_eq!(lookup_result(false, Some(None)), Err(KvError::Sled));
    assert_eq!(lookup_result(true, None), Err(KvError::Sled));
    assert_eq!(lookup_result(true, Some(None)), Ok(None));
    assert_eq!(lookup_result(true, Some(Some(b" v\n".to_vec()))), Ok(Some(" v\n".to_string())));
    assert_eq!(lookup_result(true, Some(Some(vec![0xff]))), Err(KvError::Utf8));
}
