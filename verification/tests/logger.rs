use kvs::logger::{enabled, Level};

#[test]
fn debug_and_above_are_printed() {
    assert!(enabled(Level::Error));
    assert!(enabled(Level::Warn));
    assert!(enabled(Level::Info));
    assert!(enabled(Level::Debug));
    assert!(!enabled(Level::Trace));
}
