use kvs::error::KvError;
use kvs::kvs::{
    decode_frames, encode_frame, log_file_name, log_id_from_stem, maintenance, plan_rotation,
    record_size, should_remove, stale_logs, throttle, CompactStep, Compaction, KvCommand, KvLog, KvPointer,
    Maintenance, ReadPlan, StoreIndex, Throttle, LOG_FILE_SIZE, compaction_sources, remaining_stale,
    ReplayRecord, sort_log_files,
};

fn ptr(log: u64, pos: u64, sz: u64) -> KvPointer {
    KvPointer { log, pos, sz }
}

#[test]
fn pointer_new_and_build_from() {
    assert_eq!(KvPointer::new(), ptr(0, 0, 0));
    assert_eq!(ptr(3, 10, 20).build_from(7), ptr(3, 30, 7));
    assert_eq!(KvPointer::new().build_from(12), ptr(0, 0, 12));
}

#[test]
fn log_build_from_keeps_parts() {
    let l = KvLog::build_from(KvCommand::Put, "k".to_string(), Some("v".to_string()));
    assert_eq!(l.command, KvCommand::Put);
    assert_eq!(l.key, "k");
    assert_eq!(l.value, Some("v".to_string()));
}

#[test]
fn frame_layout() {
    assert_eq!(record_size(3), 12);
    let f = encode_frame(b"abc");
    assert_eq!(f, vec![12, 0, 0, 0, 0, 0, 0, 0, b'a', b'b', b'c', b'\n']);
    let f = encode_frame(b"");
    assert_eq!(f, vec![9, 0, 0, 0, 0, 0, 0, 0, b'\n']);
}

#[test]
fn frames_read_back_as_written() {
    let mut file = Vec::new();
    file.extend(encode_frame(b"first"));
    file.extend(encode_frame(b""));
    file.extend(encode_frame(b"third one"));
    let frames = decode_frames(&file, 4).unwrap();
    let a = KvPointer { log: 4, pos: 0, sz: 0 }.build_from(14);
    let b = a.build_from(9);
    let c = b.build_from(18);
    assert_eq!(frames, vec![a, b, c]);
    assert_eq!(frames[2], ptr(4, 23, 18));
    let c = frames[2];
    assert_eq!(&file[(c.pos + 8) as usize..(c.pos + c.sz) as usize], b"third one\n");
}

#[test]
fn frames_stop_at_a_cut() {
    let mut file = encode_frame(b"whole");
    file.extend(encode_frame(b"cut short"));
    file.truncate(file.len() - 2);
    assert_eq!(decode_frames(&file, 0).unwrap(), vec![ptr(0, 0, 14)]);
    let mut file = encode_frame(b"whole");
    file.extend([1, 2, 3]);
    assert_eq!(decode_frames(&file, 0).unwrap(), vec![ptr(0, 0, 14)]);
    assert_eq!(decode_frames(&[], 0).unwrap(), vec![]);
}

#[test]
fn frames_fail_on_a_size_below_the_header() {
    let file = vec![5, 0, 0, 0, 0, 0, 0, 0, 1, 2];
    assert!(decode_frames(&file, 0).is_none());
    let mut file = encode_frame(b"ok");
    file.extend(vec![0u8; 8]);
    assert!(decode_frames(&file, 0).is_none());
    let file = vec![255u8; 16];
    assert!(decode_frames(&file, 0).is_none());
}

#[test]
fn index_set_get_remove() {
    let mut idx = StoreIndex::new();
    assert_eq!(idx.len(), 0);
    assert_eq!(idx.apply_write(KvCommand::Put, "a".to_string(), ptr(0, 0, 20)), Ok(false));
    assert_eq!(idx.get("a"), Some(ptr(0, 0, 20)));
    assert_eq!(idx.apply_write(KvCommand::Put, "a".to_string(), ptr(0, 20, 30)), Ok(true));
    assert_eq!(idx.get("a"), Some(ptr(0, 20, 30)));
    assert_eq!(idx.apply_write(KvCommand::Put, "b".to_string(), ptr(1, 0, 10)), Ok(false));
    assert_eq!(idx.len(), 2);
    assert_eq!(idx.apply_write(KvCommand::Rm, "a".to_string(), ptr(1, 10, 10)), Ok(true));
    assert_eq!(idx.get("a"), None);
    assert!(!idx.contains_key("a"));
    assert_eq!(idx.get("b"), Some(ptr(1, 0, 10)));
    assert_eq!(
        idx.apply_write(KvCommand::Rm, "a".to_string(), ptr(1, 20, 10)),
        Err(KvError::Log)
    );
    assert_eq!(idx.len(), 1);
}

#[test]
fn index_replay_forgives_missing_keys() {
    let mut idx = StoreIndex::new();
    assert!(!idx.replay(KvCommand::Put, "a".to_string(), ptr(0, 0, 20)));
    assert!(idx.replay(KvCommand::Put, "a".to_string(), ptr(0, 20, 20)));
    assert!(idx.replay(KvCommand::Rm, "zz".to_string(), ptr(0, 40, 20)));
    assert!(idx.replay(KvCommand::Rm, "a".to_string(), ptr(0, 60, 20)));
    assert_eq!(idx.get("a"), None);
}

#[test]
fn replay_rebuilds_the_written_index() {
    let records = vec![
        (KvCommand::Put, "a", ptr(0, 0, 20)),
        (KvCommand::Put, "b", ptr(0, 20, 20)),
        (KvCommand::Put, "a", ptr(0, 40, 20)),
        (KvCommand::Rm, "b", ptr(0, 60, 20)),
        (KvCommand::Put, "c", ptr(1, 0, 20)),
    ];
    let mut written = StoreIndex::new();
    let mut replayed = StoreIndex::new();
    for (c, k, p) in &records {
        written.apply_write(*c, k.to_string(), *p).unwrap();
        replayed.replay(*c, k.to_string(), *p);
    }
    for k in ["a", "b", "c", "d"] {
        assert_eq!(written.get(k), replayed.get(k));
    }
    assert_eq!(replayed.get("a"), Some(ptr(0, 40, 20)));
    assert_eq!(replayed.get("b"), None);
}

#[test]
fn read_plan_skips_the_header() {
    let mut idx = StoreIndex::new();
    idx.apply_write(KvCommand::Put, "k".to_string(), ptr(2, 100, 30)).unwrap();
    assert_eq!(idx.read_plan("k"), Ok(ReadPlan { log: 2, offset: 108, len: 22 }));
    assert_eq!(idx.read_plan("x"), Err(KvError::Log));
}

#[test]
fn relocate_needs_a_live_key() {
    let mut idx = StoreIndex::new();
    idx.apply_write(KvCommand::Put, "k".to_string(), ptr(2, 100, 30)).unwrap();
    assert_eq!(idx.relocate("k".to_string(), ptr(0, 0, 30)), Ok(()));
    assert_eq!(idx.get("k"), Some(ptr(0, 0, 30)));
    assert_eq!(idx.relocate("n".to_string(), ptr(0, 30, 30)), Err(KvError::Log));
    assert_eq!(idx.get("n"), Some(ptr(0, 30, 30)));
}

#[test]
fn rotation_at_the_file_limit() {
    assert_eq!(plan_rotation(&ptr(0, 0, 0), 100), (false, ptr(0, 0, 0)));
    assert_eq!(plan_rotation(&ptr(2, LOG_FILE_SIZE - 100, 50), 50), (false, ptr(2, LOG_FILE_SIZE - 100, 50)));
    assert_eq!(plan_rotation(&ptr(2, LOG_FILE_SIZE - 100, 50), 51), (true, ptr(3, 0, 0)));
}

#[test]
fn throttle_and_maintenance_thresholds() {
    assert_eq!(throttle(0), Throttle::Proceed);
    assert_eq!(throttle(1000), Throttle::Proceed);
    assert_eq!(throttle(1001), Throttle::Yield);
    assert_eq!(throttle(500000), Throttle::Yield);
    assert_eq!(throttle(500001), Throttle::Sleep);
    assert_eq!(maintenance(999), Maintenance::Wait);
    assert_eq!(maintenance(1000), Maintenance::Compact);
    assert_eq!(maintenance(u64::MAX), Maintenance::Stop);
}

#[test]
fn compaction_keeps_only_latest_records() {
    let mut idx = StoreIndex::new();
    idx.apply_write(KvCommand::Put, "a".to_string(), ptr(1, 40, 20)).unwrap();
    idx.apply_write(KvCommand::Put, "b".to_string(), ptr(2, 0, 20)).unwrap();
    let mut c = Compaction::new();
    assert_eq!(c.compact_file_index, 0);
    c.start_file(1);
    assert_eq!(c.source_log, 1);
    assert_eq!(c.pointer, ptr(0, 0, 0));
    // An overwritten record of "a" in the same file is dropped.
    assert_eq!(c.plan(&idx, "a", ptr(1, 0, 20)), CompactStep::Skip);
    assert_eq!(c.commit(&idx, "a", ptr(1, 0, 20)), CompactStep::Skip);
    assert_eq!(c.dropped, 1);
    assert_eq!(idx.get("a"), Some(ptr(1, 40, 20)));
    // Its latest record is kept, in compacted file 0.
    let step = c.plan(&idx, "a", ptr(1, 40, 20));
    assert_eq!(step, CompactStep::Keep { finish: None, target: ptr(0, 0, 20) });
    assert_eq!(c.commit(&idx, "a", ptr(1, 40, 20)), step);
    // The index moves only when the pass is over.
    assert_eq!(idx.get("a"), Some(ptr(1, 40, 20)));
    assert_eq!(idx.relocate("a".to_string(), ptr(0, 0, 20)), Ok(()));
    assert_eq!(idx.get("a"), Some(ptr(0, 0, 20)));
    assert_eq!(c.compacted, 1);
    assert_eq!(c.pointer, ptr(0, 0, 20));
    // A removed key and a key whose record lies in another file are dropped.
    assert_eq!(c.plan(&idx, "gone", ptr(1, 60, 20)), CompactStep::Skip);
    assert_eq!(c.plan(&idx, "b", ptr(1, 80, 20)), CompactStep::Skip);
    assert_eq!(idx.get("b"), Some(ptr(2, 0, 20)));
}

#[test]
fn compaction_points_into_the_compacted_files() {
    let mut idx = StoreIndex::new();
    idx.apply_write(KvCommand::Put, "a".to_string(), ptr(5, 0, 100)).unwrap();
    idx.apply_write(KvCommand::Put, "b".to_string(), ptr(6, 0, 100)).unwrap();
    let mut c = Compaction::new();
    c.start_file(5);
    let first = c.commit(&idx, "a", ptr(5, 0, 100));
    assert_eq!(first, CompactStep::Keep { finish: None, target: ptr(0, 0, 100) });
    c.start_file(6);
    let second = c.commit(&idx, "b", ptr(6, 0, 100));
    assert_eq!(second, CompactStep::Keep { finish: None, target: ptr(0, 100, 100) });
    assert_eq!(c.pointer, ptr(0, 100, 100));
    assert_eq!(c.compact_file_index, 0);
}

#[test]
fn compaction_finishes_full_files() {
    let mut idx = StoreIndex::new();
    idx.apply_write(KvCommand::Put, "a".to_string(), ptr(5, 0, 100)).unwrap();
    let mut c = Compaction::new();
    c.start_file(5);
    c.pointer = ptr(0, LOG_FILE_SIZE - 50, 10);
    let step = c.plan(&idx, "a", ptr(5, 0, 100));
    assert_eq!(step, CompactStep::Keep { finish: Some(0), target: ptr(1, 0, 100) });
    assert_eq!(c.commit(&idx, "a", ptr(5, 0, 100)), step);
    assert_eq!(c.compact_file_index, 1);
    assert_eq!(c.pointer, ptr(1, 0, 100));
}

#[test]
fn compaction_reads_all_but_the_newest_file() {
    assert_eq!(compaction_sources(&vec![0, 1, 2]), vec![0, 1]);
    assert_eq!(compaction_sources(&vec![3]), Vec::<u64>::new());
    assert_eq!(compaction_sources(&vec![]), Vec::<u64>::new());
}

#[test]
fn stale_count_after_compaction() {
    assert_eq!(remaining_stale(1500, 1200), 300);
    assert_eq!(remaining_stale(1000, 1200), 0);
}

#[test]
fn replay_of_a_file() {
    let mut idx = StoreIndex::new();
    let recs = vec![
        ReplayRecord { command: KvCommand::Put, key: "a".into(), pointer: ptr(3, 0, 20) },
        ReplayRecord { command: KvCommand::Put, key: "a".into(), pointer: ptr(3, 20, 20) },
        ReplayRecord { command: KvCommand::Rm, key: "b".into(), pointer: ptr(3, 40, 20) },
        ReplayRecord { command: KvCommand::Put, key: "c".into(), pointer: ptr(3, 60, 20) },
    ];
    let (stale, active) = idx.replay_file(3, &recs);
    assert_eq!(stale, 2);
    assert_eq!(active, ptr(3, 60, 20));
    assert_eq!(active.end(), 80);
    assert_eq!(idx.get("a"), Some(ptr(3, 20, 20)));
    assert_eq!(idx.get("c"), Some(ptr(3, 60, 20)));
    let (stale, active) = idx.replay_file(4, &vec![]);
    assert_eq!((stale, active), (0, ptr(4, 0, 0)));
}

#[test]
fn stale_logs_after_replaced_files() {
    assert_eq!(stale_logs(&vec![0, 1, 2, 3], 2), vec![2, 3]);
    assert_eq!(stale_logs(&vec![0, 1], 2), Vec::<u64>::new());
    assert_eq!(stale_logs(&vec![0], 3), Vec::<u64>::new());
    assert_eq!(stale_logs(&vec![4, 7], 0), vec![4, 7]);
}

#[test]
fn log_file_names() {
    assert_eq!(log_file_name(0, "log"), "0.log");
    assert_eq!(log_file_name(12, "compact"), "12.compact");
    assert_eq!(log_file_name(u64::MAX, "log"), "18446744073709551615.log");
    assert_eq!(log_file_name(7, ""), "7");
}

#[test]
fn log_ids_from_stems() {
    assert_eq!(log_id_from_stem("12"), Some(12));
    assert_eq!(log_id_from_stem("007"), Some(7));
    assert_eq!(log_id_from_stem("+7"), Some(7));
    assert_eq!(log_id_from_stem("18446744073709551615"), Some(u64::MAX));
    assert_eq!(log_id_from_stem("18446744073709551616"), None);
    assert_eq!(log_id_from_stem(""), None);
    assert_eq!(log_id_from_stem("+"), None);
    assert_eq!(log_id_from_stem("-1"), None);
    assert_eq!(log_id_from_stem("1a"), None);
    assert_eq!(log_id_from_stem("._12"), None);
    assert_eq!(log_id_from_stem("1.DS_Store"), None);
    assert_eq!(log_id_from_stem(" 1"), None);
}

#[test]
fn log_names_read_back() {
    for n in [0u64, 1, 9, 10, 99, 100, 123456789, u64::MAX] {
        let name = log_file_name(n, "");
        assert_eq!(log_id_from_stem(&name), Some(n));
        let stem = std::path::Path::new(&log_file_name(n, "log")).file_stem().unwrap().to_str().unwrap().to_string();
        assert_eq!(log_id_from_stem(&stem), Some(n));
    }
}

#[test]
fn removal_goes_on_for_live_keys_or_a_busy_index() {
    let mut idx = StoreIndex::new();
    idx.apply_write(KvCommand::Put, "k".to_string(), ptr(0, 0, 20)).unwrap();
    assert!(should_remove(Some(&idx), "k"));
    assert!(!should_remove(Some(&idx), "x"));
    assert!(should_remove(None, "x"));
}

#[test]
fn log_files_in_order() {
    let e = |i: u64, n: &str| (i, n.to_string());
    let files = vec![e(10, "10.log"), e(2, "2.log"), e(0, "0.log"), e(0, "0.compact"), e(2, "+2.log")];
    assert_eq!(
        sort_log_files(&files, false),
        vec![e(0, "0.compact"), e(0, "0.log"), e(2, "+2.log"), e(2, "2.log"), e(10, "10.log")]
    );
    assert_eq!(
        sort_log_files(&files, true),
        vec![e(10, "10.log"), e(2, "2.log"), e(2, "+2.log"), e(0, "0.log"), e(0, "0.compact")]
    );
    assert_eq!(sort_log_files(&vec![], false), vec![]);
    let mut by_std = files.clone();
    by_std.sort();
    assert_eq!(sort_log_files(&files, false), by_std);
}

#[test]
fn reverse_sort_is_the_reverse_of_the_sort() {
    let e = |i: u64, n: &str| (i, n.to_string());
    let files = vec![e(3, "3.log"), e(1, "1.log"), e(7, "7.log"), e(1, "1.compact"), e(0, "0.log")];
    let mut forward = sort_log_files(&files, false);
    forward.reverse();
    assert_eq!(sort_log_files(&files, true), forward);
}

#[test]
fn get_after_writes_reads_the_last_set() {
    let writes = vec![
        (KvCommand::Put, "a", "{\"v\":1}"),
        (KvCommand::Put, "b", "{\"v\":2}"),
        (KvCommand::Put, "a", "{\"v\":3}"),
        (KvCommand::Rm, "b", "{\"rm\":1}"),
    ];
    let mut file = Vec::new();
    let mut idx = StoreIndex::new();
    let mut active = KvPointer { log: 0, pos: 0, sz: 0 };
    for (c, k, text) in &writes {
        let frame = encode_frame(text.as_bytes());
        file.extend(frame);
        active = active.build_from(record_size(text.len()));
        idx.apply_write(*c, k.to_string(), active).unwrap();
    }
    let plan = idx.read_plan("a").unwrap();
    let read = &file[plan.offset as usize..(plan.offset + plan.len) as usize];
    assert_eq!(read, b"{\"v\":3}\n");
    assert_eq!(idx.read_plan("b"), Err(KvError::Log));
    // Reopening rebuilds the same index from the file.
    let mut again = StoreIndex::new();
    let frames = decode_frames(&file, 0).unwrap();
    let recs: Vec<ReplayRecord> = frames
        .iter()
        .zip(writes.iter())
        .map(|(p, (c, k, _))| ReplayRecord { command: *c, key: k.to_string(), pointer: *p })
        .collect();
    again.replay_file(0, &recs);
    assert_eq!(again.get("a"), idx.get("a"));
    assert_eq!(again.get("b"), None);
}

#[test]
fn compaction_starts_a_new_file_for_each_oversized_record() {
    let mut idx = StoreIndex::new();
    let big = LOG_FILE_SIZE + 100;
    idx.apply_write(KvCommand::Put, "a".to_string(), ptr(3, 0, big)).unwrap();
    idx.apply_write(KvCommand::Put, "b".to_string(), ptr(4, 0, big)).unwrap();
    let mut c = Compaction::new();
    c.start_file(3);
    let first = c.commit(&idx, "a", ptr(3, 0, big));
    assert_eq!(first, CompactStep::Keep { finish: Some(0), target: ptr(1, 0, big) });
    c.start_file(4);
    let second = c.commit(&idx, "b", ptr(4, 0, big));
    assert_eq!(second, CompactStep::Keep { finish: Some(1), target: ptr(2, 0, big) });
    assert_eq!(c.compact_file_index, 2);
}
