use kvs::engine::{choose_engine, EngineKind};

fn names(v: &[&str]) -> Vec<String> {
    v.iter().map(|s| s.to_string()).collect()
}

#[test]
fn engine_defaults_to_the_store_in_an_empty_directory() {
    assert_eq!(choose_engine(&names(&[]), None), Some(EngineKind::Kvs));
    assert_eq!(choose_engine(&names(&[]), Some(EngineKind::Sled)), Some(EngineKind::Sled));
}

#[test]
fn engine_follows_the_data_already_there() {
    let store = names(&["./database/0.log", "./database/1.log"]);
    let sled = names(&["./database/db", "./database/conf"]);
    assert_eq!(choose_engine(&store, None), Some(EngineKind::Kvs));
    assert_eq!(choose_engine(&store, Some(EngineKind::Sled)), None);
    assert_eq!(choose_engine(&sled, None), Some(EngineKind::Sled));
    assert_eq!(choose_engine(&sled, Some(EngineKind::Kvs)), None);
    assert_eq!(choose_engine(&sled, Some(EngineKind::Sled)), Some(EngineKind::Sled));
}

#[test]
fn engine_refuses_a_directory_with_both() {
    let both = names(&["./database/db", "./database/3.log"]);
    assert_eq!(choose_engine(&both, None), None);
    // A name with both marks counts as sled's only.
    let one = names(&["./database/db.log"]);
    assert_eq!(choose_engine(&one, None), Some(EngineKind::Sled));
    assert_eq!(choose_engine(&one, Some(EngineKind::Kvs)), None);
}
