//! The store as a whole: its log files, its index and its contents, and the
//! invariant that ties them, kept by every write and by compaction.

use crate::kvs::{
    LOG_FILE_SIZE, compact_step_fits, lemma_relocate_all, spec_compact_advance, spec_compact_step,
    spec_relocate_all, CompactStep, Compaction, frames_file, lemma_frames_file_len, lemma_read_finds_written_text, lemma_written_pointers_len,
    lemma_written_pointers_shift, spec_apply_write, write_texts, written_pointers, KvCommand,
    KvPointer, Write, last_write, spec_replay, spec_replays,
};
use vstd::prelude::*;

verus! {

// ------------------------------------------------------------------
// Pointers into a log file.
// ------------------------------------------------------------------
/// The pointers a writer records for the writes of log file `log`.
pub open spec fn file_pointers(log: u64, ws: Seq<Write>) -> Seq<KvPointer> {
    written_pointers(KvPointer { log, pos: 0, sz: 0 }, write_texts(ws))
}

/// The bytes of a log file holding some writes.
pub open spec fn file_bytes(ws: Seq<Write>) -> Seq<u8> {
    frames_file(write_texts(ws))
}

proof fn lemma_frames_push(ps: Seq<Seq<u8>>, t: Seq<u8>)
    ensures
        frames_file(ps.push(t)) == frames_file(ps) + crate::kvs::spec_frame(t),
    decreases ps.len(),
{
    if ps.len() == 0 {
        assert(ps.push(t).drop_first() =~= Seq::<Seq<u8>>::empty());
        reveal_with_fuel(frames_file, 2);
        assert(frames_file(ps.push(t)) =~= crate::kvs::spec_frame(t));
    } else {
        assert(ps.push(t).drop_first() =~= ps.drop_first().push(t));
        lemma_frames_push(ps.drop_first(), t);
        assert(frames_file(ps.push(t)) =~= frames_file(ps) + crate::kvs::spec_frame(t));
    }
}

proof fn lemma_pointers_shape(base: u64, log: u64, ps: Seq<Seq<u8>>)
    requires
        base + frames_file(ps).len() <= u64::MAX,
    ensures
        written_pointers(KvPointer { log, pos: base, sz: 0 }, ps).len() == ps.len(),
        forall|j: int|
            0 <= j < ps.len() ==> {
                let p = #[trigger] written_pointers(KvPointer { log, pos: base, sz: 0 }, ps)[j];
                &&& p.log == log
                &&& base <= p.pos
                &&& p.sz == ps[j].len() + 9
                &&& p.pos + p.sz <= base + frames_file(ps).len()
            },
        forall|j1: int, j2: int|
            0 <= j1 < j2 < ps.len() ==> #[trigger] written_pointers(
                KvPointer { log, pos: base, sz: 0 },
                ps,
            )[j1].pos + written_pointers(KvPointer { log, pos: base, sz: 0 }, ps)[j1].sz
                <= #[trigger] written_pointers(KvPointer { log, pos: base, sz: 0 }, ps)[j2].pos,
    decreases ps.len(),
{
    let start = KvPointer { log, pos: base, sz: 0 };
    lemma_written_pointers_len(start, ps);
    if ps.len() > 0 {
        vstd::bytes::lemma_auto_spec_u64_to_from_le_bytes();
        lemma_frames_file_len(ps);
        let rest = ps.drop_first();
        let sz0 = (ps[0].len() + 9) as u64;
        let first = KvPointer { log, pos: base, sz: sz0 };
        let next = KvPointer { log, pos: (base + sz0) as u64, sz: 0 };
        lemma_written_pointers_shift(first, next, rest);
        lemma_pointers_shape((base + sz0) as u64, log, rest);
        let w = written_pointers(start, ps);
        let wr = written_pointers(next, rest);
        assert(w == seq![first] + wr);
        assert forall|j: int| 0 < j < ps.len() implies w[j] == wr[j - 1] && ps[j] == rest[j - 1] by {}
        assert forall|j1: int, j2: int| 0 <= j1 < j2 < ps.len() implies #[trigger] w[j1].pos
            + w[j1].sz <= #[trigger] w[j2].pos by {
            if j1 > 0 {
                assert(w[j1] == wr[j1 - 1] && w[j2] == wr[j2 - 1]);
            } else {
                assert(w[j2] == wr[j2 - 1]);
            }
        }
    }
}

proof fn lemma_pointers_push(base: u64, log: u64, ps: Seq<Seq<u8>>, t: Seq<u8>)
    requires
        base + frames_file(ps).len() + t.len() + 9 <= u64::MAX,
    ensures
        written_pointers(KvPointer { log, pos: base, sz: 0 }, ps.push(t)) == written_pointers(
            KvPointer { log, pos: base, sz: 0 },
            ps,
        ).push(KvPointer { log, pos: (base + frames_file(ps).len()) as u64, sz: (t.len() + 9) as u64 }),
    decreases ps.len(),
{
    let start = KvPointer { log, pos: base, sz: 0 };
    if ps.len() == 0 {
        assert(ps.push(t).drop_first() =~= Seq::<Seq<u8>>::empty());
        reveal_with_fuel(written_pointers, 2);
        assert(written_pointers(start, ps.push(t)) =~= written_pointers(start, ps).push(
            KvPointer { log, pos: base, sz: (t.len() + 9) as u64 },
        ));
    } else {
        vstd::bytes::lemma_auto_spec_u64_to_from_le_bytes();
        lemma_frames_file_len(ps);
        let rest = ps.drop_first();
        assert(ps.push(t).drop_first() =~= rest.push(t));
        assert(ps.push(t)[0] == ps[0]);
        let sz0 = (ps[0].len() + 9) as u64;
        let first = KvPointer { log, pos: base, sz: sz0 };
        let next = KvPointer { log, pos: (base + sz0) as u64, sz: 0 };
        lemma_written_pointers_shift(first, next, rest);
        lemma_written_pointers_shift(first, next, rest.push(t));
        lemma_pointers_push((base + sz0) as u64, log, rest, t);
        assert(written_pointers(start, ps.push(t)) =~= written_pointers(start, ps).push(
            KvPointer { log, pos: (base + frames_file(ps).len()) as u64, sz: (t.len() + 9) as u64 },
        ));
    }
}

// ------------------------------------------------------------------
// The store's invariant.
// ------------------------------------------------------------------
/// Whether `p` points, in the log files, at a set record of key `k` whose
/// text is `t`.
pub open spec fn points_at_set(files: Map<u64, Seq<Write>>, p: KvPointer, k: Seq<char>, t: Seq<u8>) -> bool {
    &&& files.contains_key(p.log)
    &&& exists|j: int|
        0 <= j < files[p.log].len() && #[trigger] file_pointers(p.log, files[p.log])[j] == p
            && files[p.log][j] == (KvCommand::Put, k, t)
}

/// The store's invariant over its log files (each as the writes appended to
/// it), its index and its contents (each live key's value text): the index
/// holds exactly the live keys, and each points at a set record of its key
/// whose text is the key's contents; every log file fits the pointers.
pub open spec fn store_holds(
    files: Map<u64, Seq<Write>>,
    index: Map<Seq<char>, KvPointer>,
    contents: Map<Seq<char>, Seq<u8>>,
) -> bool {
    &&& index.dom() == contents.dom()
    &&& forall|log: u64| #[trigger] files.contains_key(log) ==> file_bytes(files[log]).len() <= u64::MAX
    &&& forall|k: Seq<char>|
        #[trigger] index.contains_key(k) ==> points_at_set(files, index[k], k, contents[k])
}

/// An empty store: no log file, no key.
pub proof fn lemma_empty_store_holds()
    ensures
        store_holds(Map::empty(), Map::empty(), Map::empty()),
{
    assert(Map::<Seq<char>, KvPointer>::empty().dom() =~= Map::<Seq<char>, Seq<u8>>::empty().dom());
}

/// A read of a store where the invariant holds gives back the contents: for
/// a live key the bytes its read plan names are its text and a newline; a
/// key that is not live has no pointer, and its read fails.
pub proof fn lemma_store_read(
    files: Map<u64, Seq<Write>>,
    index: Map<Seq<char>, KvPointer>,
    contents: Map<Seq<char>, Seq<u8>>,
    k: Seq<char>,
)
    requires
        store_holds(files, index, contents),
    ensures
        index.contains_key(k) <==> contents.contains_key(k),
        index.contains_key(k) ==> {
            let p = index[k];
            let b = file_bytes(files[p.log]);
            &&& files.contains_key(p.log)
            &&& p.pos + 8 <= p.pos + p.sz <= b.len()
            &&& b.subrange(p.pos + 8, p.pos + p.sz) == contents[k] + seq![10u8]
        },
{
    assert(index.dom().contains(k) == contents.dom().contains(k));
    if index.contains_key(k) {
        let p = index[k];
        assert(points_at_set(files, p, k, contents[k]));
        let ws = files[p.log];
        let j = choose|j: int|
            0 <= j < ws.len() && #[trigger] file_pointers(p.log, ws)[j] == p && ws[j] == (
                KvCommand::Put,
                k,
                contents[k],
            );
        lemma_written_pointers_len(KvPointer { log: p.log, pos: 0, sz: 0 }, write_texts(ws));
        lemma_read_finds_written_text(write_texts(ws), p.log, j);
        assert(write_texts(ws)[j] == contents[k]);
    }
}

// ------------------------------------------------------------------
// Writes.
// ------------------------------------------------------------------
/// The writes of log file `log`: none when it does not exist yet.
pub open spec fn file_writes(files: Map<u64, Seq<Write>>, log: u64) -> Seq<Write> {
    if files.contains_key(log) {
        files[log]
    } else {
        Seq::empty()
    }
}

/// The log files after appending write `w` to log file `log`.
pub open spec fn append_write(files: Map<u64, Seq<Write>>, log: u64, w: Write) -> Map<u64, Seq<Write>> {
    files.insert(log, file_writes(files, log).push(w))
}

/// The pointer the writer records for write `w` appended to log file
/// `log`: right after the file's last frame, as long as the new frame.
pub open spec fn append_pointer(files: Map<u64, Seq<Write>>, log: u64, w: Write) -> KvPointer {
    KvPointer {
        log,
        pos: file_bytes(file_writes(files, log)).len() as u64,
        sz: (w.2.len() + 9) as u64,
    }
}

/// The contents after a write: a set gives its key its text, a removal
/// drops the key.
pub open spec fn write_contents(contents: Map<Seq<char>, Seq<u8>>, w: Write) -> Map<
    Seq<char>,
    Seq<u8>,
> {
    match w.0 {
        KvCommand::Put => contents.insert(w.1, w.2),
        _ => contents.remove(w.1),
    }
}

proof fn lemma_writes_push(log: u64, ws: Seq<Write>, w: Write)
    requires
        file_bytes(ws).len() + w.2.len() + 9 <= u64::MAX,
    ensures
        file_pointers(log, ws.push(w)) == file_pointers(log, ws).push(
            KvPointer { log, pos: file_bytes(ws).len() as u64, sz: (w.2.len() + 9) as u64 },
        ),
        file_bytes(ws.push(w)).len() == file_bytes(ws).len() + w.2.len() + 9,
        file_pointers(log, ws).len() == ws.len(),
{
    assert(write_texts(ws.push(w)) =~= write_texts(ws).push(w.2));
    lemma_pointers_push(0, log, write_texts(ws), w.2);
    lemma_frames_push(write_texts(ws), w.2);
    lemma_written_pointers_len(KvPointer { log, pos: 0, sz: 0 }, write_texts(ws));
    vstd::bytes::lemma_auto_spec_u64_to_from_le_bytes();
}

proof fn lemma_append_keeps_pointers(files: Map<u64, Seq<Write>>, log: u64, w: Write)
    requires
        file_bytes(file_writes(files, log)).len() + w.2.len() + 9 <= u64::MAX,
    ensures
        ({
            let ws = file_writes(files, log);
            &&& file_pointers(log, ws.push(w)) == file_pointers(log, ws).push(
                append_pointer(files, log, w),
            )
            &&& file_bytes(ws.push(w)).len() == file_bytes(ws).len() + w.2.len() + 9
            &&& file_pointers(log, ws).len() == ws.len()
        }),
{
    lemma_writes_push(log, file_writes(files, log), w);
}

/// A write keeps the store's invariant: appending its record to a log file
/// and recording it in the index (a set points its key at the new record, a
/// removal drops its key) leaves the contents as the write says. The index
/// refuses exactly a removal of a key that is not live; the record appended
/// then leaves index and contents as they were.
pub proof fn lemma_write_keeps_store(
    files: Map<u64, Seq<Write>>,
    index: Map<Seq<char>, KvPointer>,
    contents: Map<Seq<char>, Seq<u8>>,
    log: u64,
    w: Write,
)
    requires
        store_holds(files, index, contents),
        file_bytes(file_writes(files, log)).len() + w.2.len() + 9 <= u64::MAX,
    ensures
        ({
            let p = append_pointer(files, log, w);
            let files2 = append_write(files, log, w);
            &&& spec_apply_write(index, w.0, w.1, p) is None <==> (w.0 != KvCommand::Put
                && !contents.contains_key(w.1))
            &&& spec_apply_write(index, w.0, w.1, p) matches Some((m2, _)) ==> store_holds(
                files2,
                m2,
                write_contents(contents, w),
            )
            &&& spec_apply_write(index, w.0, w.1, p) is None ==> store_holds(files2, index, contents)
        }),
{
    let p = append_pointer(files, log, w);
    let files2 = append_write(files, log, w);
    let ws = file_writes(files, log);
    lemma_append_keeps_pointers(files, log, w);
    assert(index.dom().contains(w.1) == contents.dom().contains(w.1));
    // Old pointers still point at the same records.
    assert forall|k: Seq<char>| #[trigger] index.contains_key(k) implies points_at_set(
        files2,
        index[k],
        k,
        contents[k],
    ) by {
        let q = index[k];
        assert(points_at_set(files, q, k, contents[k]));
        let j = choose|j: int|
            0 <= j < files[q.log].len() && #[trigger] file_pointers(q.log, files[q.log])[j] == q
                && files[q.log][j] == (KvCommand::Put, k, contents[k]);
        if q.log == log {
            assert(ws == files[q.log]);
            assert(files2[q.log] == ws.push(w));
            assert(file_pointers(q.log, files2[q.log])[j] == q);
            assert(files2[q.log][j] == ws[j]);
        } else {
            assert(files2[q.log] == files[q.log]);
        }
    }
    assert forall|l: u64| #[trigger] files2.contains_key(l) implies file_bytes(files2[l]).len()
        <= u64::MAX by {
        if l != log {
            assert(files.contains_key(l));
        }
    }
    match spec_apply_write(index, w.0, w.1, p) {
        Some((m2, _)) => {
            let c2 = write_contents(contents, w);
            assert(m2.dom() =~= c2.dom());
            assert forall|k: Seq<char>| #[trigger] m2.contains_key(k) implies points_at_set(
                files2,
                m2[k],
                k,
                c2[k],
            ) by {
                if k == w.1 {
                    assert(w.0 == KvCommand::Put);
                    let j = ws.len() as int;
                    assert(file_pointers(log, files2[log])[j] == p);
                    assert(files2[log][j] == w);
                    assert(w == (KvCommand::Put, k, c2[k]));
                } else {
                    assert(index.contains_key(k) && m2[k] == index[k] && c2[k] == contents[k]);
                }
            }
        },
        None => {},
    }
}

// ------------------------------------------------------------------
// Compaction.
// ------------------------------------------------------------------
/// A record that a compaction pass reads: the write and its frame's pointer.
pub type ReadRecord = (Write, KvPointer);

/// The records of log file `log`, in file order.
pub open spec fn file_records_read(files: Map<u64, Seq<Write>>, log: u64) -> Seq<ReadRecord> {
    let ws = file_writes(files, log);
    Seq::new(ws.len(), |j: int| (ws[j], file_pointers(log, ws)[j]))
}

/// What a compaction pass reads from log files `srcs`: each file's records,
/// the files in the order given.
pub open spec fn pass_input(files: Map<u64, Seq<Write>>, srcs: Seq<u64>) -> Seq<ReadRecord>
    decreases srcs.len(),
{
    if srcs.len() == 0 {
        Seq::empty()
    } else {
        pass_input(files, srcs.drop_last()) + file_records_read(files, srcs.last())
    }
}

/// Whether every step of a pass over `rs` fits the machine limits.
pub open spec fn pass_input_fits(c: Compaction, m: Map<Seq<char>, KvPointer>, rs: Seq<ReadRecord>) -> bool
    decreases rs.len(),
{
    rs.len() == 0 || (compact_step_fits(c, rs[0].1) && pass_input_fits(
        spec_compact_advance(c, m, rs[0].0.1, rs[0].1),
        m,
        rs.drop_first(),
    ))
}

/// A compaction pass over read records: the state it ends in, the
/// compacted files it wrote (as the writes they hold, file `i` at index
/// `i`; a kept record is appended to its target's file) and its moves
/// (each kept key with its target), given the files and moves before.
pub open spec fn spec_pass(
    c: Compaction,
    m: Map<Seq<char>, KvPointer>,
    rs: Seq<ReadRecord>,
    out: Seq<Seq<Write>>,
    moves: Seq<(Seq<char>, KvPointer)>,
) -> (Compaction, Seq<Seq<Write>>, Seq<(Seq<char>, KvPointer)>)
    decreases rs.len(),
{
    if rs.len() == 0 {
        (c, out, moves)
    } else {
        let w = rs[0].0;
        let f = rs[0].1;
        let c2 = spec_compact_advance(c, m, w.1, f);
        match spec_compact_step(c, m, w.1, f) {
            CompactStep::Skip => spec_pass(c2, m, rs.drop_first(), out, moves),
            CompactStep::Keep { finish, target } => {
                let out1 = if finish is Some {
                    out.push(Seq::empty())
                } else {
                    out
                };
                let out2 = out1.update(target.log as int, out1[target.log as int].push(w));
                spec_pass(c2, m, rs.drop_first(), out2, moves.push((w.1, target)))
            },
        }
    }
}

/// The log files once a pass over `srcs` is over: compacted file `i` in
/// place of log file `i`, the files read gone, the others as they were.
pub open spec fn files_after_pass(
    files: Map<u64, Seq<Write>>,
    srcs: Seq<u64>,
    out: Seq<Seq<Write>>,
) -> Map<u64, Seq<Write>> {
    Map::new(
        |l: u64| (l as int) < out.len() || (files.contains_key(l) && !srcs.contains(l)),
        |l: u64|
            if (l as int) < out.len() {
                out[l as int]
            } else {
                files[l]
            },
    )
}

/// A move points its key at a copy, in the compacted files, of a record
/// read that the index named as the key's latest.
#[verifier::opaque]
pub open spec fn move_copies(
    m: Map<Seq<char>, KvPointer>,
    all: Seq<ReadRecord>,
    out: Seq<Seq<Write>>,
    mv: (Seq<char>, KvPointer),
) -> bool {
    &&& 0 <= mv.1.log < out.len()
    &&& exists|q: int, j: int|
        0 <= q < out[mv.1.log as int].len() && #[trigger] file_pointers(
            mv.1.log,
            out[mv.1.log as int],
        )[q] == mv.1 && 0 <= j < all.len() && #[trigger] all[j].0.1 == mv.0 && m.contains_key(
            mv.0,
        ) && m[mv.0] == all[j].1 && out[mv.1.log as int][q] == all[j].0
}

/// The index records of compacted files, the files in number order.
pub open spec fn out_records(out: Seq<Seq<Write>>) -> Seq<(KvCommand, Seq<char>, KvPointer)>
    decreases out.len(),
{
    if out.len() == 0 {
        Seq::empty()
    } else {
        let l = (out.len() - 1) as u64;
        let ws = out.last();
        out_records(out.drop_last()) + Seq::new(
            ws.len(),
            |j: int| (ws[j].0, ws[j].1, file_pointers(l, ws)[j]),
        )
    }
}

/// The set records that moves stand for: each key at its new place.
pub open spec fn moves_as_sets(moves: Seq<(Seq<char>, KvPointer)>) -> Seq<
    (KvCommand, Seq<char>, KvPointer),
> {
    moves.map_values(|mv: (Seq<char>, KvPointer)| (KvCommand::Put, mv.0, mv.1))
}

/// Whether every record read that the index names as its key's latest is a
/// set record.
pub open spec fn index_names_sets(m: Map<Seq<char>, KvPointer>, all: Seq<ReadRecord>) -> bool {
    forall|j: int|
        0 <= j < all.len() && m.contains_key(#[trigger] all[j].0.1) && m[all[j].0.1] == all[j].1
            ==> all[j].0.0 == KvCommand::Put
}

proof fn lemma_out_records_push(out: Seq<Seq<Write>>, w: Write)
    requires
        out.len() > 0,
        file_bytes(out.last()).len() + w.2.len() + 9 <= u64::MAX,
    ensures
        ({
            let l = out.len() - 1;
            out_records(out.update(l, out[l].push(w))) == out_records(out).push(
                (
                    w.0,
                    w.1,
                    KvPointer {
                        log: l as u64,
                        pos: file_bytes(out[l]).len() as u64,
                        sz: (w.2.len() + 9) as u64,
                    },
                ),
            )
        }),
{
    let l = out.len() - 1;
    let out2 = out.update(l, out[l].push(w));
    assert(out2.drop_last() =~= out.drop_last());
    lemma_writes_push(l as u64, out[l], w);
    assert(out_records(out2) =~= out_records(out).push(
        (
            w.0,
            w.1,
            KvPointer {
                log: l as u64,
                pos: file_bytes(out[l]).len() as u64,
                sz: (w.2.len() + 9) as u64,
            },
        ),
    ));
}

proof fn lemma_out_records_new_file(out: Seq<Seq<Write>>)
    ensures
        out_records(out.push(Seq::empty())) == out_records(out),
{
    assert(out.push(Seq::empty()).drop_last() =~= out);
    assert(out_records(out.push(Seq::empty())) =~= out_records(out));
}

/// The state of a pass after the first `d` records.
pub open spec fn pass_state(
    c: Compaction,
    m: Map<Seq<char>, KvPointer>,
    all: Seq<ReadRecord>,
    d: int,
    out: Seq<Seq<Write>>,
    moves: Seq<(Seq<char>, KvPointer)>,
) -> bool {
    &&& out.len() == c.compact_file_index + 1
    &&& file_bytes(out[c.compact_file_index as int]).len() == c.pointer.pos + c.pointer.sz
    &&& forall|i: int| 0 <= i < out.len() ==> file_bytes(#[trigger] out[i]).len() <= u64::MAX
    &&& forall|i: int| 0 <= i < moves.len() ==> move_copies(m, all, out, #[trigger] moves[i])
    &&& forall|j: int|
        0 <= j < d && m.contains_key(#[trigger] all[j].0.1) && m[all[j].0.1] == all[j].1
            ==> exists|i: int| 0 <= i < moves.len() && (#[trigger] moves[i]).0 == all[j].0.1
    &&& out_records(out) == moves_as_sets(moves)
}

proof fn lemma_move_copies_kept(
    m: Map<Seq<char>, KvPointer>,
    all: Seq<ReadRecord>,
    out: Seq<Seq<Write>>,
    out2: Seq<Seq<Write>>,
    l: int,
    w: Write,
    mv: (Seq<char>, KvPointer),
)
    requires
        move_copies(m, all, out, mv),
        out2.len() >= out.len(),
        0 <= l < out2.len(),
        forall|i: int| 0 <= i < out.len() && i != l ==> out2[i] == out[i],
        l < out.len() ==> out2[l] == out[l].push(w),
        l < out.len() ==> file_bytes(out[l]).len() + w.2.len() + 9 <= u64::MAX,
    ensures
        move_copies(m, all, out2, mv),
{
    reveal(move_copies);
    let t = mv.1;
    let (q, j) = choose|q: int, j: int|
        0 <= q < out[t.log as int].len() && #[trigger] file_pointers(t.log, out[t.log as int])[q]
            == t && 0 <= j < all.len() && #[trigger] all[j].0.1 == mv.0 && m.contains_key(mv.0)
            && m[mv.0] == all[j].1 && out[t.log as int][q] == all[j].0;
    if t.log as int == l {
        lemma_writes_push(t.log, out[l], w);
        assert(file_pointers(t.log, out2[l])[q] == t);
        assert(out2[l][q] == out[l][q]);
    }
    assert(file_pointers(t.log, out2[t.log as int])[q] == t);
    assert(all[j].0.1 == mv.0);
}

proof fn lemma_pass_state_step(
    c: Compaction,
    m: Map<Seq<char>, KvPointer>,
    all: Seq<ReadRecord>,
    d: int,
    out: Seq<Seq<Write>>,
    moves: Seq<(Seq<char>, KvPointer)>,
)
    requires
        0 <= d <= all.len(),
        pass_state(c, m, all, d, out, moves),
        pass_input_fits(c, m, all.skip(d)),
        forall|j: int| 0 <= j < all.len() ==> (#[trigger] all[j]).1.sz == all[j].0.2.len() + 9,
        index_names_sets(m, all),
    ensures
        ({
            let (c2, out2, moves2) = spec_pass(c, m, all.skip(d), out, moves);
            pass_state(c2, m, all, all.len() as int, out2, moves2)
        }),
    decreases all.len() - d,
{
    let rs = all.skip(d);
    if rs.len() > 0 {
        assert(rs.drop_first() =~= all.skip(d + 1));
        assert(rs[0] == all[d]);
        let w = all[d].0;
        let f = all[d].1;
        let c2 = spec_compact_advance(c, m, w.1, f);
        match spec_compact_step(c, m, w.1, f) {
            CompactStep::Skip => {
                assert forall|j: int|
                    0 <= j < d + 1 && m.contains_key(#[trigger] all[j].0.1) && m[all[j].0.1]
                        == all[j].1 implies exists|i: int|
                    0 <= i < moves.len() && (#[trigger] moves[i]).0 == all[j].0.1 by {
                    assert(j < d);
                }
                lemma_pass_state_step(c2, m, all, d + 1, out, moves);
            },
            CompactStep::Keep { finish, target } => {
                let out1 = if finish is Some {
                    out.push(Seq::empty())
                } else {
                    out
                };
                let l = target.log as int;
                let out2 = out1.update(l, out1[l].push(w));
                let moves2 = moves.push((w.1, target));
                let base = out1[l];
                assert(file_bytes(Seq::<Write>::empty()) =~= Seq::<u8>::empty());
                assert(file_bytes(base).len() == target.pos);
                lemma_writes_push(target.log, base, w);
                assert(out2[l] == base.push(w));
                assert(file_pointers(target.log, out2[l])[base.len() as int] == target);
                assert(out2.len() == c2.compact_file_index + 1);
                assert forall|i: int| 0 <= i < out2.len() implies file_bytes(#[trigger] out2[i]).len()
                    <= u64::MAX by {
                    if i != l {
                        assert(out2[i] == out1[i]);
                    }
                }
                assert forall|i: int| 0 <= i < moves2.len() implies move_copies(
                    m,
                    all,
                    out2,
                    #[trigger] moves2[i],
                ) by {
                    if i < moves.len() {
                        assert(moves2[i] == moves[i]);
                        assert(move_copies(m, all, out, moves[i]));
                        if finish is Some {
                            assert forall|x: int| 0 <= x < out.len() implies out2[x] == out[x] by {}
                        } else {
                            assert forall|x: int| 0 <= x < out.len() && x != l implies out2[x]
                                == out[x] by {}
                        }
                        lemma_move_copies_kept(m, all, out, out2, l, w, moves[i]);
                    } else {
                        reveal(move_copies);
                        assert(moves2[i] == (w.1, target));
                        assert(all[d].0.1 == moves2[i].0);
                        assert(file_pointers(target.log, out2[l])[base.len() as int] == moves2[i].1);
                    }
                }
                assert forall|j: int|
                    0 <= j < d + 1 && m.contains_key(#[trigger] all[j].0.1) && m[all[j].0.1]
                        == all[j].1 implies exists|i: int|
                    0 <= i < moves2.len() && (#[trigger] moves2[i]).0 == all[j].0.1 by {
                    if j == d {
                        assert(moves2[moves.len() as int].0 == all[j].0.1);
                    } else {
                        let i = choose|i: int|
                            0 <= i < moves.len() && (#[trigger] moves[i]).0 == all[j].0.1;
                        assert(moves2[i] == moves[i]);
                    }
                }
                assert(out_records(out2) == moves_as_sets(moves2)) by {
                    if finish is Some {
                        lemma_out_records_new_file(out);
                    }
                    assert(l == out1.len() - 1);
                    lemma_out_records_push(out1, w);
                    assert(w.0 == KvCommand::Put);
                    assert(moves_as_sets(moves2) =~= moves_as_sets(moves).push(
                        (KvCommand::Put, w.1, target),
                    ));
                }
                lemma_pass_state_step(c2, m, all, d + 1, out2, moves2);
            },
        }
    }
}

proof fn lemma_file_pointers_facts(log: u64, ws: Seq<Write>)
    requires
        file_bytes(ws).len() <= u64::MAX,
    ensures
        file_pointers(log, ws).len() == ws.len(),
        forall|q: int|
            0 <= q < ws.len() ==> (#[trigger] file_pointers(log, ws)[q]).log == log
                && file_pointers(log, ws)[q].sz == ws[q].2.len() + 9,
        forall|q1: int, q2: int|
            0 <= q1 < ws.len() && 0 <= q2 < ws.len() && #[trigger] file_pointers(log, ws)[q1]
                == #[trigger] file_pointers(log, ws)[q2] ==> q1 == q2,
{
    let texts = write_texts(ws);
    lemma_pointers_shape(0, log, texts);
    assert forall|q: int| 0 <= q < ws.len() implies (#[trigger] file_pointers(log, ws)[q]).log
        == log && file_pointers(log, ws)[q].sz == ws[q].2.len() + 9 by {
        assert(texts[q] == ws[q].2);
    }
    assert forall|q1: int, q2: int|
        0 <= q1 < ws.len() && 0 <= q2 < ws.len() && #[trigger] file_pointers(log, ws)[q1]
            == #[trigger] file_pointers(log, ws)[q2] implies q1 == q2 by {
        let w = written_pointers(KvPointer { log, pos: 0, sz: 0 }, texts);
        if q1 < q2 {
            assert(w[q1].pos + w[q1].sz <= w[q2].pos);
        } else if q2 < q1 {
            assert(w[q2].pos + w[q2].sz <= w[q1].pos);
        }
    }
}

/// Whether a read record is a record of one of log files `srcs`, with the
/// pointer the writer recorded for it.
pub open spec fn record_of_sources(files: Map<u64, Seq<Write>>, srcs: Seq<u64>, r: ReadRecord) -> bool {
    &&& r.1.sz == r.0.2.len() + 9
    &&& srcs.contains(r.1.log)
    &&& exists|q: int|
        0 <= q < files[r.1.log].len() && r.0 == files[r.1.log][q] && r.1
            == #[trigger] file_pointers(r.1.log, files[r.1.log])[q]
}

proof fn lemma_pass_input_records(files: Map<u64, Seq<Write>>, srcs: Seq<u64>)
    requires
        forall|i: int|
            0 <= i < srcs.len() ==> files.contains_key(#[trigger] srcs[i]) && file_bytes(
                files[srcs[i]],
            ).len() <= u64::MAX,
    ensures
        forall|j: int|
            0 <= j < pass_input(files, srcs).len() ==> record_of_sources(
                files,
                srcs,
                #[trigger] pass_input(files, srcs)[j],
            ),
    decreases srcs.len(),
{
    let rs = pass_input(files, srcs);
    if srcs.len() > 0 {
        let front = srcs.drop_last();
        let s = srcs.last();
        assert forall|i: int|
            0 <= i < front.len() implies files.contains_key(#[trigger] front[i]) && file_bytes(
            files[front[i]],
        ).len() <= u64::MAX by {
            assert(front[i] == srcs[i]);
        }
        lemma_pass_input_records(files, front);
        let pre = pass_input(files, front);
        let ws = files[s];
        assert(srcs[srcs.len() - 1] == s);
        lemma_file_pointers_facts(s, ws);
        let tail = file_records_read(files, s);
        assert(rs == pre + tail);
        assert forall|j: int| 0 <= j < rs.len() implies record_of_sources(
            files,
            srcs,
            #[trigger] rs[j],
        ) by {
            if j < pre.len() {
                assert(rs[j] == pre[j]);
                let r = pre[j];
                assert(record_of_sources(files, front, r));
                assert(front.contains(r.1.log));
                let x = choose|x: int| 0 <= x < front.len() && front[x] == r.1.log;
                assert(srcs[x] == r.1.log);
            } else {
                let q = j - pre.len();
                assert(rs[j] == tail[q]);
                assert(tail[q] == (ws[q], file_pointers(s, ws)[q]));
                assert(file_pointers(s, ws)[q].log == s);
                assert(srcs[srcs.len() - 1] == s);
            }
        }
    }
}

proof fn lemma_pass_input_complete(files: Map<u64, Seq<Write>>, srcs: Seq<u64>, i: int, q: int)
    requires
        0 <= i < srcs.len(),
        0 <= q < file_writes(files, srcs[i]).len(),
    ensures
        exists|j: int|
            0 <= j < pass_input(files, srcs).len() && #[trigger] pass_input(files, srcs)[j] == (
                file_writes(files, srcs[i])[q],
                file_pointers(srcs[i], file_writes(files, srcs[i]))[q],
            ),
    decreases srcs.len(),
{
    let rs = pass_input(files, srcs);
    let front = srcs.drop_last();
    let pre = pass_input(files, front);
    let tail = file_records_read(files, srcs.last());
    assert(rs == pre + tail);
    if i < front.len() {
        assert(front[i] == srcs[i]);
        lemma_pass_input_complete(files, front, i, q);
        let j = choose|j: int|
            0 <= j < pre.len() && #[trigger] pre[j] == (
                file_writes(files, front[i])[q],
                file_pointers(front[i], file_writes(files, front[i]))[q],
            );
        assert(rs[j] == pre[j]);
    } else {
        let j = pre.len() + q;
        assert(rs[j] == tail[q]);
    }
}

proof fn lemma_key_after_pass(
    files: Map<u64, Seq<Write>>,
    index: Map<Seq<char>, KvPointer>,
    contents: Map<Seq<char>, Seq<u8>>,
    srcs: Seq<u64>,
    limit: u64,
    rs: Seq<ReadRecord>,
    out2: Seq<Seq<Write>>,
    moves: Seq<(Seq<char>, KvPointer)>,
    k: Seq<char>,
)
    requires
        store_holds(files, index, contents),
        forall|l: u64| #[trigger] files.contains_key(l) && !srcs.contains(l) ==> l >= limit,
        forall|i: int| 0 <= i < srcs.len() ==> files.contains_key(#[trigger] srcs[i]),
        rs == pass_input(files, srcs),
        forall|j: int| 0 <= j < rs.len() ==> record_of_sources(files, srcs, #[trigger] rs[j]),
        out2.len() <= limit,
        forall|i: int| 0 <= i < moves.len() ==> move_copies(index, rs, out2, #[trigger] moves[i]),
        forall|j: int|
            0 <= j < rs.len() && index.contains_key(#[trigger] rs[j].0.1) && index[rs[j].0.1]
                == rs[j].1 ==> exists|i: int| 0 <= i < moves.len() && (#[trigger] moves[i]).0 == rs[j].0.1,
        index.contains_key(k),
    ensures
        points_at_set(files_after_pass(files, srcs, out2), spec_relocate_all(index, moves)[k], k, contents[k]),
{
    let files2 = files_after_pass(files, srcs, out2);
    let m2 = spec_relocate_all(index, moves);
    lemma_relocate_all(index, moves);
    let p = index[k];
    let t = contents[k];
    assert(points_at_set(files, p, k, t));
    let ws = files[p.log];
    let q0 = choose|q: int|
        0 <= q < ws.len() && #[trigger] file_pointers(p.log, ws)[q] == p && ws[q] == (
            KvCommand::Put,
            k,
            t,
        );
    assert(file_bytes(ws).len() <= u64::MAX);
    lemma_file_pointers_facts(p.log, ws);
    assert(m2.contains_key(k));
    if exists|i: int| 0 <= i < moves.len() && (#[trigger] moves[i]).0 == k && m2[k] == moves[i].1 {
        let i = choose|i: int| 0 <= i < moves.len() && (#[trigger] moves[i]).0 == k && m2[k] == moves[i].1;
        let mv = moves[i];
        assert(move_copies(index, rs, out2, mv));
        reveal(move_copies);
        let (q, j) = choose|q: int, j: int|
            0 <= q < out2[mv.1.log as int].len() && #[trigger] file_pointers(
                mv.1.log,
                out2[mv.1.log as int],
            )[q] == mv.1 && 0 <= j < rs.len() && #[trigger] rs[j].0.1 == mv.0 && index.contains_key(
                mv.0,
            ) && index[mv.0] == rs[j].1 && out2[mv.1.log as int][q] == rs[j].0;
        assert(record_of_sources(files, srcs, rs[j]));
        let r = rs[j];
        assert(r.1 == p);
        let q1 = choose|q1: int|
            0 <= q1 < files[r.1.log].len() && r.0 == files[r.1.log][q1] && r.1
                == #[trigger] file_pointers(r.1.log, files[r.1.log])[q1];
        assert(file_pointers(p.log, ws)[q1] == file_pointers(p.log, ws)[q0]);
        assert(q1 == q0);
        assert(r.0 == (KvCommand::Put, k, t));
        let tp = mv.1;
        assert(files2.contains_key(tp.log));
        assert(files2[tp.log] == out2[tp.log as int]);
        assert(file_pointers(tp.log, files2[tp.log])[q] == tp);
    } else {
        assert(m2[k] == index[k]);
        if srcs.contains(p.log) {
            let x = choose|x: int| 0 <= x < srcs.len() && srcs[x] == p.log;
            assert(file_writes(files, srcs[x]) == ws);
            lemma_pass_input_complete(files, srcs, x, q0);
            let j = choose|j: int|
                0 <= j < rs.len() && #[trigger] rs[j] == (
                    file_writes(files, srcs[x])[q0],
                    file_pointers(srcs[x], file_writes(files, srcs[x]))[q0],
                );
            assert(rs[j].0.1 == k && rs[j].1 == p);
            let i = choose|i: int| 0 <= i < moves.len() && (#[trigger] moves[i]).0 == rs[j].0.1;
            assert(false);
        }
        assert(p.log >= limit);
        assert(files2.contains_key(p.log));
        assert(files2[p.log] == files[p.log]);
        assert(file_pointers(p.log, files2[p.log])[q0] == p);
    }
}

proof fn lemma_index_names_sets(
    files: Map<u64, Seq<Write>>,
    index: Map<Seq<char>, KvPointer>,
    contents: Map<Seq<char>, Seq<u8>>,
    srcs: Seq<u64>,
    rs: Seq<ReadRecord>,
)
    requires
        store_holds(files, index, contents),
        forall|j: int| 0 <= j < rs.len() ==> record_of_sources(files, srcs, #[trigger] rs[j]),
    ensures
        index_names_sets(index, rs),
{
    assert forall|j: int|
        0 <= j < rs.len() && index.contains_key(#[trigger] rs[j].0.1) && index[rs[j].0.1]
            == rs[j].1 implies rs[j].0.0 == KvCommand::Put by {
        let r = rs[j];
        let k = r.0.1;
        assert(record_of_sources(files, srcs, r));
        let l = r.1.log;
        let q = choose|q: int|
            0 <= q < files[l].len() && r.0 == files[l][q] && r.1 == #[trigger] file_pointers(
                l,
                files[l],
            )[q];
        assert(points_at_set(files, index[k], k, contents[k]));
        let q0 = choose|q0: int|
            0 <= q0 < files[l].len() && #[trigger] file_pointers(l, files[l])[q0] == index[k]
                && files[l][q0] == (KvCommand::Put, k, contents[k]);
        lemma_file_pointers_facts(l, files[l]);
        assert(q == q0);
    }
}

proof fn lemma_pass_runs(
    files: Map<u64, Seq<Write>>,
    index: Map<Seq<char>, KvPointer>,
    contents: Map<Seq<char>, Seq<u8>>,
    srcs: Seq<u64>,
    c: Compaction,
)
    requires
        store_holds(files, index, contents),
        forall|i: int| 0 <= i < srcs.len() ==> files.contains_key(#[trigger] srcs[i]),
        c.compact_file_index == 0,
        c.pointer.pos + c.pointer.sz == 0,
        pass_input_fits(c, index, pass_input(files, srcs)),
    ensures
        forall|j: int|
            0 <= j < pass_input(files, srcs).len() ==> record_of_sources(
                files,
                srcs,
                #[trigger] pass_input(files, srcs)[j],
            ),
        ({
            let rs = pass_input(files, srcs);
            let (c2, out2, moves) = spec_pass(c, index, rs, seq![Seq::empty()], Seq::empty());
            pass_state(c2, index, rs, rs.len() as int, out2, moves)
        }),
{
    let rs = pass_input(files, srcs);
    let out: Seq<Seq<Write>> = seq![Seq::empty()];
    assert forall|i: int|
        0 <= i < srcs.len() implies files.contains_key(#[trigger] srcs[i]) && file_bytes(
        files[srcs[i]],
    ).len() <= u64::MAX by {}
    lemma_pass_input_records(files, srcs);
    assert forall|j: int| 0 <= j < rs.len() implies (#[trigger] rs[j]).1.sz == rs[j].0.2.len() + 9 by {
        assert(record_of_sources(files, srcs, rs[j]));
    }
    assert(file_bytes(Seq::<Write>::empty()) =~= Seq::<u8>::empty());
    lemma_index_names_sets(files, index, contents, srcs, rs);
    assert(out_records(out) =~= moves_as_sets(Seq::empty())) by {
        assert(out.drop_last() =~= Seq::<Seq<Write>>::empty());
        assert(out_records(Seq::<Seq<Write>>::empty()) == Seq::<(KvCommand, Seq<char>, KvPointer)>::empty());
    }
    assert(pass_state(c, index, rs, 0, out, Seq::empty()));
    assert(rs.skip(0) =~= rs);
    lemma_pass_state_step(c, index, rs, 0, out, Seq::empty());
}

proof fn lemma_increasing_bound(srcs: Seq<u64>, i: int)
    requires
        0 <= i < srcs.len(),
        forall|a: int, b: int| 0 <= a < b < srcs.len() ==> srcs[a] < srcs[b],
    ensures
        srcs[i] >= i,
    decreases i,
{
    if i > 0 {
        lemma_increasing_bound(srcs, i - 1);
    }
}

/// Compaction keeps the store's invariant, with the same contents. A pass
/// reads log files `srcs`, in increasing order (each below `limit`, where
/// every other log file lies at or above it, as the newest file does), and
/// copies each record that the index names as its key's latest into
/// compacted files. Once it is over, compacted file `i` takes the place of
/// log file `i`, the files read are gone and each moved key points at its
/// copy. When the log files are filled as a writer fills them and every
/// record read fits the file size limit, the compacted files are filled so
/// too, and there are no more of them than files read, so they stay below
/// `limit`: no file the pass did not read is replaced.
pub proof fn lemma_compaction_keeps_store(
    files: Map<u64, Seq<Write>>,
    index: Map<Seq<char>, KvPointer>,
    contents: Map<Seq<char>, Seq<u8>>,
    srcs: Seq<u64>,
    limit: u64,
    c: Compaction,
)
    requires
        store_holds(files, index, contents),
        forall|i: int| 0 <= i < srcs.len() ==> files.contains_key(#[trigger] srcs[i]) && srcs[i] < limit,
        forall|l: u64| #[trigger] files.contains_key(l) && !srcs.contains(l) ==> l >= limit,
        srcs.len() >= 1,
        forall|a: int, b: int| 0 <= a < b < srcs.len() ==> srcs[a] < srcs[b],
        files_packed(files),
        records_within_limit(files, srcs),
        c.compact_file_index == 0,
        c.pointer.pos + c.pointer.sz == 0,
        pass_input_fits(c, index, pass_input(files, srcs)),
    ensures
        ({
            let (c2, out2, moves) = spec_pass(
                c,
                index,
                pass_input(files, srcs),
                seq![Seq::empty()],
                Seq::empty(),
            );
            &&& out2.len() <= srcs.len() <= limit
            &&& store_holds(
                files_after_pass(files, srcs, out2),
                spec_relocate_all(index, moves),
                contents,
            )
            &&& files_packed(files_after_pass(files, srcs, out2))
            &&& forall|l: u64|
                #[trigger] files.contains_key(l) && !srcs.contains(l) ==> files_after_pass(
                    files,
                    srcs,
                    out2,
                ).contains_key(l) && files_after_pass(files, srcs, out2)[l] == files[l]
        }),
{
    lemma_pass_sources(files, index, srcs, c);
    lemma_increasing_bound(srcs, srcs.len() - 1);
    let rs = pass_input(files, srcs);
    let out: Seq<Seq<Write>> = seq![Seq::empty()];
    lemma_pass_runs(files, index, contents, srcs, c);
    let (c2, out2, moves) = spec_pass(c, index, rs, out, Seq::empty());
    let m2 = spec_relocate_all(index, moves);
    let files2 = files_after_pass(files, srcs, out2);
    lemma_relocate_all(index, moves);
    assert forall|k: Seq<char>| #[trigger] m2.contains_key(k) <==> index.contains_key(k) by {
        if exists|i: int| 0 <= i < moves.len() && (#[trigger] moves[i]).0 == k {
            let i = choose|i: int| 0 <= i < moves.len() && (#[trigger] moves[i]).0 == k;
            assert(move_copies(index, rs, out2, moves[i]));
            reveal(move_copies);
        }
    }
    assert(m2.dom() =~= contents.dom());
    assert forall|l: u64| #[trigger] files2.contains_key(l) implies file_bytes(files2[l]).len()
        <= u64::MAX by {
        if (l as int) < out2.len() {
            assert(file_bytes(out2[l as int]).len() <= u64::MAX);
        }
    }
    assert forall|k: Seq<char>| #[trigger] m2.contains_key(k) implies points_at_set(
        files2,
        m2[k],
        k,
        contents[k],
    ) by {
        lemma_key_after_pass(files, index, contents, srcs, limit, rs, out2, moves, k);
    }
    assert forall|l: u64| #[trigger] files2.contains_key(l) implies packed(files2[l]) by {
        if (l as int) < out2.len() {
            assert(packed(out2[l as int]));
        }
    }
}

// ------------------------------------------------------------------
// What reads give after writes.
// ------------------------------------------------------------------
/// A set followed by a read: the read finds the value just set, also when
/// the key had one before, and every other key reads as before.
pub proof fn lemma_set_then_get(
    files: Map<u64, Seq<Write>>,
    index: Map<Seq<char>, KvPointer>,
    contents: Map<Seq<char>, Seq<u8>>,
    log: u64,
    k: Seq<char>,
    t: Seq<u8>,
    other: Seq<char>,
)
    requires
        store_holds(files, index, contents),
        file_bytes(file_writes(files, log)).len() + t.len() + 9 <= u64::MAX,
    ensures
        ({
            let w = (KvCommand::Put, k, t);
            let p = append_pointer(files, log, w);
            let files2 = append_write(files, log, w);
            &&& spec_apply_write(index, KvCommand::Put, k, p) matches Some((m2, _)) && {
                let b = file_bytes(files2[m2[k].log]);
                &&& m2.contains_key(k)
                &&& b.subrange(m2[k].pos + 8, m2[k].pos + m2[k].sz) == t + seq![10u8]
                &&& store_holds(files2, m2, contents.insert(k, t))
                &&& other != k ==> (m2.contains_key(other) == index.contains_key(other)
                    && contents.insert(k, t).contains_key(other) == contents.contains_key(other)
                    && contents.insert(k, t)[other] == contents[other])
            }
        }),
{
    let w = (KvCommand::Put, k, t);
    lemma_write_keeps_store(files, index, contents, log, w);
    let p = append_pointer(files, log, w);
    let files2 = append_write(files, log, w);
    let m2 = (spec_apply_write(index, KvCommand::Put, k, p)->0).0;
    assert(write_contents(contents, w) == contents.insert(k, t));
    lemma_store_read(files2, m2, contents.insert(k, t), k);
}

/// A removal of a live key followed by reads and a second removal: the
/// removal is accepted, the key then reads as absent, every other key reads
/// as before, and a second removal of it is refused.
pub proof fn lemma_remove_then_get(
    files: Map<u64, Seq<Write>>,
    index: Map<Seq<char>, KvPointer>,
    contents: Map<Seq<char>, Seq<u8>>,
    log: u64,
    k: Seq<char>,
    t: Seq<u8>,
    log2: u64,
    t2: Seq<u8>,
    other: Seq<char>,
)
    requires
        store_holds(files, index, contents),
        contents.contains_key(k),
        file_bytes(file_writes(files, log)).len() + t.len() + 9 <= u64::MAX,
        file_bytes(file_writes(append_write(files, log, (KvCommand::Rm, k, t)), log2)).len()
            + t2.len() + 9 <= u64::MAX,
    ensures
        ({
            let w = (KvCommand::Rm, k, t);
            let p = append_pointer(files, log, w);
            let files2 = append_write(files, log, w);
            &&& index.contains_key(k)
            &&& spec_apply_write(index, KvCommand::Rm, k, p) matches Some((m2, _)) && {
                &&& !m2.contains_key(k)
                &&& store_holds(files2, m2, contents.remove(k))
                &&& other != k ==> (m2.contains_key(other) == index.contains_key(other)
                    && (index.contains_key(other) ==> m2[other] == index[other]))
                &&& spec_apply_write(
                    m2,
                    KvCommand::Rm,
                    k,
                    append_pointer(files2, log2, (KvCommand::Rm, k, t2)),
                ) is None
            }
        }),
{
    let w = (KvCommand::Rm, k, t);
    lemma_write_keeps_store(files, index, contents, log, w);
    let p = append_pointer(files, log, w);
    let files2 = append_write(files, log, w);
    assert(index.dom().contains(k));
    let m2 = (spec_apply_write(index, KvCommand::Rm, k, p)->0).0;
    assert(write_contents(contents, w) == contents.remove(k));
    lemma_store_read(files2, m2, contents.remove(k), k);
}

// ------------------------------------------------------------------
// How full log files are.
// ------------------------------------------------------------------
/// The size of the frames of the first `d` writes.
pub open spec fn writes_size(ws: Seq<Write>, d: int) -> nat
    decreases d,
{
    if d <= 0 {
        0
    } else {
        writes_size(ws, d - 1) + ws[d - 1].2.len() + 9
    }
}

/// The size of the frames of the first `d` records read.
pub open spec fn reads_size(rs: Seq<ReadRecord>, d: int) -> nat
    decreases d,
{
    if d <= 0 {
        0
    } else {
        reads_size(rs, d - 1) + rs[d - 1].1.sz as nat
    }
}

/// Whether a log file is filled as a writer fills it: a file of two or
/// more records stays within the file size limit (only a file of one record
/// can be larger).
pub open spec fn packed(ws: Seq<Write>) -> bool {
    ws.len() >= 2 ==> file_bytes(ws).len() <= LOG_FILE_SIZE
}

/// Whether every record of log files `srcs` has a frame within the file
/// size limit.
pub open spec fn records_within_limit(files: Map<u64, Seq<Write>>, srcs: Seq<u64>) -> bool {
    forall|i: int, j: int|
        0 <= i < srcs.len() && 0 <= j < file_writes(files, srcs[i]).len() ==> (#[trigger] file_writes(
            files,
            srcs[i],
        )[j]).2.len() + 9 <= LOG_FILE_SIZE
}

/// Whether every log file is filled as a writer fills it.
pub open spec fn files_packed(files: Map<u64, Seq<Write>>) -> bool {
    forall|l: u64| #[trigger] files.contains_key(l) ==> packed(files[l])
}

proof fn lemma_file_bytes_size(ws: Seq<Write>)
    ensures
        file_bytes(ws).len() == writes_size(ws, ws.len() as int),
    decreases ws.len(),
{
    if ws.len() > 0 {
        let front = ws.drop_last();
        assert(front.push(ws.last()) =~= ws);
        assert(write_texts(ws) =~= write_texts(front).push(ws.last().2));
        lemma_frames_push(write_texts(front), ws.last().2);
        vstd::bytes::lemma_auto_spec_u64_to_from_le_bytes();
        lemma_file_bytes_size(front);
        assert forall|d: int| 0 <= d <= front.len() implies writes_size(front, d) == writes_size(ws, d) by {
            lemma_writes_size_prefix(front, ws, d);
        }
    } else {
        assert(file_bytes(ws) =~= Seq::<u8>::empty());
    }
}

proof fn lemma_writes_size_prefix(a: Seq<Write>, b: Seq<Write>, d: int)
    requires
        0 <= d <= a.len(),
        d <= b.len(),
        forall|i: int| 0 <= i < d ==> a[i] == b[i],
    ensures
        writes_size(a, d) == writes_size(b, d),
    decreases d,
{
    if d > 0 {
        lemma_writes_size_prefix(a, b, d - 1);
    }
}

proof fn lemma_reads_size_mono(rs: Seq<ReadRecord>, d1: int, d2: int)
    requires
        d1 <= d2,
    ensures
        reads_size(rs, d1) <= reads_size(rs, d2),
    decreases d2 - d1,
{
    if d1 < d2 {
        lemma_reads_size_mono(rs, d1, d2 - 1);
    }
}

/// A write keeps every log file filled as a writer fills it when it goes
/// into an empty file, or into a file it does not carry past the limit.
pub proof fn lemma_write_keeps_packed(files: Map<u64, Seq<Write>>, log: u64, w: Write)
    requires
        files_packed(files),
        file_writes(files, log).len() == 0 || file_bytes(file_writes(files, log)).len() + w.2.len()
            + 9 <= LOG_FILE_SIZE,
    ensures
        files_packed(append_write(files, log, w)),
{
    let ws = file_writes(files, log);
    let files2 = append_write(files, log, w);
    assert forall|l: u64| #[trigger] files2.contains_key(l) implies packed(files2[l]) by {
        if l == log {
            if ws.len() > 0 {
                lemma_writes_push(log, ws, w);
            }
        }
    }
}

proof fn lemma_pass_concat(
    c: Compaction,
    m: Map<Seq<char>, KvPointer>,
    a: Seq<ReadRecord>,
    b: Seq<ReadRecord>,
    out: Seq<Seq<Write>>,
    moves: Seq<(Seq<char>, KvPointer)>,
)
    ensures
        spec_pass(c, m, a + b, out, moves) == ({
            let (c1, o1, m1) = spec_pass(c, m, a, out, moves);
            spec_pass(c1, m, b, o1, m1)
        }),
        pass_input_fits(c, m, a + b) ==> pass_input_fits(c, m, a) && pass_input_fits(
            spec_pass(c, m, a, out, moves).0,
            m,
            b,
        ),
    decreases a.len(),
{
    if a.len() == 0 {
        assert(a + b =~= b);
    } else {
        assert((a + b).drop_first() =~= a.drop_first() + b);
        assert((a + b)[0] == a[0]);
        let w = a[0].0;
        let f = a[0].1;
        let c2 = spec_compact_advance(c, m, w.1, f);
        match spec_compact_step(c, m, w.1, f) {
            CompactStep::Skip => {
                lemma_pass_concat(c2, m, a.drop_first(), b, out, moves);
            },
            CompactStep::Keep { finish, target } => {
                let out1 = if finish is Some {
                    out.push(Seq::empty())
                } else {
                    out
                };
                let out2 = out1.update(target.log as int, out1[target.log as int].push(w));
                lemma_pass_concat(c2, m, a.drop_first(), b, out2, moves.push((w.1, target)));
            },
        }
    }
}

/// The shape of a pass's compacted files so far, for the bound on their
/// number: one file per number, the last as long as its pointer says, all
/// filled as a writer fills them.
pub open spec fn out_shape(c: Compaction, out: Seq<Seq<Write>>) -> bool {
    &&& out.len() == c.compact_file_index + 1
    &&& file_bytes(out[c.compact_file_index as int]).len() == c.pointer.pos + c.pointer.sz
    &&& forall|i: int| 0 <= i < out.len() ==> packed(#[trigger] out[i])
}

proof fn lemma_pass_file(
    c: Compaction,
    m: Map<Seq<char>, KvPointer>,
    tail: Seq<ReadRecord>,
    d: int,
    out: Seq<Seq<Write>>,
    moves: Seq<(Seq<char>, KvPointer)>,
    n: int,
)
    requires
        0 <= d <= tail.len(),
        forall|i: int| 0 <= i < tail.len() ==> (#[trigger] tail[i]).1.sz == tail[i].0.2.len() + 9,
        forall|i: int| 0 <= i < tail.len() ==> (#[trigger] tail[i]).1.sz <= LOG_FILE_SIZE,
        tail.len() >= 2 ==> reads_size(tail, tail.len() as int) <= LOG_FILE_SIZE,
        pass_input_fits(c, m, tail.skip(d)),
        out_shape(c, out),
        c.compact_file_index < n || (c.compact_file_index == n && c.pointer.pos + c.pointer.sz
            <= reads_size(tail, d)),
    ensures
        ({
            let (c2, out2, moves2) = spec_pass(c, m, tail.skip(d), out, moves);
            &&& out_shape(c2, out2)
            &&& c2.compact_file_index < n || (c2.compact_file_index == n && c2.pointer.pos
                + c2.pointer.sz <= reads_size(tail, tail.len() as int))
        }),
    decreases tail.len() - d,
{
    let rs = tail.skip(d);
    if rs.len() == 0 {
        assert(d == tail.len());
    } else {
        assert(rs.drop_first() =~= tail.skip(d + 1));
        assert(rs[0] == tail[d]);
        let w = tail[d].0;
        let f = tail[d].1;
        let z = f.sz;
        let pp = c.pointer.pos + c.pointer.sz;
        let c2 = spec_compact_advance(c, m, w.1, f);
        assert(reads_size(tail, d + 1) == reads_size(tail, d) + z);
        match spec_compact_step(c, m, w.1, f) {
            CompactStep::Skip => {
                lemma_pass_file(c2, m, tail, d + 1, out, moves, n);
            },
            CompactStep::Keep { finish, target } => {
                let out1 = if finish is Some {
                    out.push(Seq::empty())
                } else {
                    out
                };
                let l = target.log as int;
                let out2 = out1.update(l, out1[l].push(w));
                let base = out1[l];
                assert(file_bytes(Seq::<Write>::empty()) =~= Seq::<u8>::empty());
                assert(file_bytes(base).len() == target.pos);
                lemma_writes_push(target.log, base, w);
                if finish is None && base.len() > 0 {
                    lemma_file_bytes_size(base);
                    assert(writes_size(base, base.len() as int) > 0) by {
                        assert(writes_size(base, 1) > 0);
                        lemma_writes_size_ge(base, 1, base.len() as int);
                    }
                    assert(pp > 0);
                }
                assert forall|i: int| 0 <= i < out2.len() implies packed(#[trigger] out2[i]) by {
                    if i != l {
                        assert(out2[i] == out1[i]);
                    }
                }
                assert(out_shape(c2, out2));
                if finish is Some {
                    if c.compact_file_index == n {
                        assert(reads_size(tail, d) > 0);
                        assert(d >= 1);
                        assert(tail.len() >= 2);
                        lemma_reads_size_mono(tail, d + 1, tail.len() as int);
                        assert(false);
                    }
                }
                lemma_pass_file(c2, m, tail, d + 1, out2, moves.push((w.1, target)), n);
            },
        }
    }
}

proof fn lemma_writes_size_ge(ws: Seq<Write>, d1: int, d2: int)
    requires
        d1 <= d2,
    ensures
        writes_size(ws, d1) <= writes_size(ws, d2),
    decreases d2 - d1,
{
    if d1 < d2 {
        lemma_writes_size_ge(ws, d1, d2 - 1);
    }
}

proof fn lemma_reads_size_of_file(files: Map<u64, Seq<Write>>, l: u64, d: int)
    requires
        0 <= d <= file_writes(files, l).len(),
        file_bytes(file_writes(files, l)).len() <= u64::MAX,
    ensures
        reads_size(file_records_read(files, l), d) == writes_size(file_writes(files, l), d),
    decreases d,
{
    if d > 0 {
        lemma_reads_size_of_file(files, l, d - 1);
        lemma_file_pointers_facts(l, file_writes(files, l));
    }
}

proof fn lemma_pass_sources(
    files: Map<u64, Seq<Write>>,
    m: Map<Seq<char>, KvPointer>,
    srcs: Seq<u64>,
    c: Compaction,
)
    requires
        forall|i: int|
            0 <= i < srcs.len() ==> files.contains_key(#[trigger] srcs[i]) && file_bytes(
                files[srcs[i]],
            ).len() <= u64::MAX && packed(files[srcs[i]]),
        records_within_limit(files, srcs),
        c.compact_file_index == 0,
        c.pointer.pos + c.pointer.sz == 0,
        pass_input_fits(c, m, pass_input(files, srcs)),
    ensures
        ({
            let (c2, out2, moves2) = spec_pass(
                c,
                m,
                pass_input(files, srcs),
                seq![Seq::empty()],
                Seq::empty(),
            );
            &&& out_shape(c2, out2)
            &&& srcs.len() == 0 ==> c2.compact_file_index == 0 && c2.pointer.pos + c2.pointer.sz
                == 0
            &&& srcs.len() > 0 ==> c2.compact_file_index < srcs.len()
        }),
    decreases srcs.len(),
{
    let out: Seq<Seq<Write>> = seq![Seq::empty()];
    if srcs.len() == 0 {
        assert(file_bytes(Seq::<Write>::empty()) =~= Seq::<u8>::empty());
        assert(out_shape(c, out));
    } else {
        let front = srcs.drop_last();
        let sl = srcs.last();
        assert(srcs[srcs.len() - 1] == sl);
        assert forall|i: int|
            0 <= i < front.len() implies files.contains_key(#[trigger] front[i]) && file_bytes(
            files[front[i]],
        ).len() <= u64::MAX && packed(files[front[i]]) by {
            assert(front[i] == srcs[i]);
        }
        let pre = pass_input(files, front);
        let tail = file_records_read(files, sl);
        assert(pass_input(files, srcs) == pre + tail);
        lemma_pass_concat(c, m, pre, tail, out, Seq::empty());
        assert(records_within_limit(files, front)) by {
            assert forall|i: int, j: int|
                0 <= i < front.len() && 0 <= j < file_writes(files, front[i]).len() implies (
            #[trigger] file_writes(files, front[i])[j]).2.len() + 9 <= LOG_FILE_SIZE by {
                assert(front[i] == srcs[i]);
            }
        }
        lemma_pass_sources(files, m, front, c);
        let (c1, o1, m1) = spec_pass(c, m, pre, out, Seq::empty());
        let ws = files[sl];
        lemma_file_pointers_facts(sl, ws);
        assert forall|i: int| 0 <= i < tail.len() implies (#[trigger] tail[i]).1.sz == tail[i].0.2.len()
            + 9 by {}
        assert forall|i: int| 0 <= i < tail.len() implies (#[trigger] tail[i]).1.sz <= LOG_FILE_SIZE by {
            assert(file_writes(files, srcs[srcs.len() - 1])[i] == ws[i]);
        }
        lemma_reads_size_of_file(files, sl, ws.len() as int);
        lemma_file_bytes_size(ws);
        assert(tail.skip(0) =~= tail);
        lemma_pass_file(c1, m, tail, 0, o1, m1, front.len() as int);
    }
}

// ------------------------------------------------------------------
// Replaying the log files.
// ------------------------------------------------------------------
/// An index record: a write's command and key, with its frame's pointer.
pub type IndexRecord = (KvCommand, Seq<char>, KvPointer);

/// The index records of log file `l`, in file order.
pub open spec fn log_records(files: Map<u64, Seq<Write>>, l: u64) -> Seq<IndexRecord> {
    let ws = file_writes(files, l);
    Seq::new(ws.len(), |j: int| (ws[j].0, ws[j].1, file_pointers(l, ws)[j]))
}

/// The index records of log files `logs`, the files in the order given.
pub open spec fn logs_records(files: Map<u64, Seq<Write>>, logs: Seq<u64>) -> Seq<IndexRecord>
    decreases logs.len(),
{
    if logs.len() == 0 {
        Seq::empty()
    } else {
        logs_records(files, logs.drop_last()) + log_records(files, logs.last())
    }
}

/// The index that replaying log files `logs` in order rebuilds.
pub open spec fn replay_logs(files: Map<u64, Seq<Write>>, logs: Seq<u64>) -> Map<Seq<char>, KvPointer> {
    spec_replays(Map::empty(), logs_records(files, logs))
}

/// Whether `logs` lists the log files in increasing order, and replaying
/// them in that order rebuilds `index`: what reopening the store finds.
pub open spec fn replay_holds(
    files: Map<u64, Seq<Write>>,
    logs: Seq<u64>,
    index: Map<Seq<char>, KvPointer>,
) -> bool {
    &&& forall|a: int, b: int| 0 <= a < b < logs.len() ==> logs[a] < logs[b]
    &&& forall|l: u64| #[trigger] files.contains_key(l) <==> logs.contains(l)
    &&& replay_logs(files, logs) == index
}

proof fn lemma_replays_concat(m: Map<Seq<char>, KvPointer>, a: Seq<IndexRecord>, b: Seq<IndexRecord>)
    ensures
        spec_replays(m, a + b) == spec_replays(spec_replays(m, a), b),
    decreases a.len(),
{
    if a.len() == 0 {
        assert(a + b =~= b);
    } else {
        assert((a + b).drop_first() =~= a.drop_first() + b);
        assert((a + b)[0] == a[0]);
        lemma_replays_concat(spec_replay(m, a[0].0, a[0].1, a[0].2).0, a.drop_first(), b);
    }
}

proof fn lemma_replays_push(m: Map<Seq<char>, KvPointer>, a: Seq<IndexRecord>, r: IndexRecord)
    ensures
        spec_replays(m, a.push(r)) == spec_replay(spec_replays(m, a), r.0, r.1, r.2).0,
{
    lemma_replays_concat(m, a, seq![r]);
    assert(a + seq![r] =~= a.push(r));
    let m1 = spec_replays(m, a);
    assert(seq![r].drop_first() =~= Seq::<IndexRecord>::empty());
    assert(seq![r][0] == r);
    let m2 = spec_replay(m1, r.0, r.1, r.2).0;
    assert(spec_replays(m2, Seq::<IndexRecord>::empty()) == m2);
    assert(spec_replays(m1, seq![r]) == spec_replays(m2, seq![r].drop_first()));
}

/// What replaying records does to one key: its last record decides, and a
/// key without records keeps what it had.
proof fn lemma_replays_key(m: Map<Seq<char>, KvPointer>, rs: Seq<IndexRecord>, k: Seq<char>)
    ensures
        ({
            let r = spec_replays(m, rs);
            match last_write(rs, k) {
                None => r.contains_key(k) == m.contains_key(k) && r[k] == m[k],
                Some(j) => 0 <= j < rs.len() && rs[j].1 == k && (if rs[j].0 == KvCommand::Put {
                    r.contains_key(k) && r[k] == rs[j].2
                } else {
                    !r.contains_key(k)
                }),
            }
        }),
    decreases rs.len(),
{
    if rs.len() > 0 {
        let front = rs.drop_last();
        let r = rs.last();
        assert(front.push(r) =~= rs);
        lemma_replays_push(m, front, r);
        lemma_replays_key(m, front, k);
    }
}

proof fn lemma_logs_records_concat(files: Map<u64, Seq<Write>>, a: Seq<u64>, b: Seq<u64>)
    ensures
        logs_records(files, a + b) == logs_records(files, a) + logs_records(files, b),
    decreases b.len(),
{
    if b.len() == 0 {
        assert(a + b =~= a);
        assert(logs_records(files, a) + Seq::<IndexRecord>::empty() =~= logs_records(files, a));
    } else {
        assert((a + b).drop_last() =~= a + b.drop_last());
        assert((a + b).last() == b.last());
        lemma_logs_records_concat(files, a, b.drop_last());
        assert(logs_records(files, a + b) =~= logs_records(files, a) + logs_records(files, b));
    }
}

proof fn lemma_logs_records_frame(f1: Map<u64, Seq<Write>>, f2: Map<u64, Seq<Write>>, logs: Seq<u64>)
    requires
        forall|i: int| 0 <= i < logs.len() ==> file_writes(f1, #[trigger] logs[i]) == file_writes(
            f2,
            logs[i],
        ),
    ensures
        logs_records(f1, logs) == logs_records(f2, logs),
    decreases logs.len(),
{
    if logs.len() > 0 {
        let front = logs.drop_last();
        assert forall|i: int| 0 <= i < front.len() implies file_writes(f1, #[trigger] front[i])
            == file_writes(f2, front[i]) by {
            assert(front[i] == logs[i]);
        }
        lemma_logs_records_frame(f1, f2, front);
        assert(logs[logs.len() - 1] == logs.last());
        assert(log_records(f1, logs.last()) =~= log_records(f2, logs.last()));
    }
}

/// The order of the log files after a write to log file `log`: the same
/// when it goes to the newest file, with `log` added when it starts one.
pub open spec fn logs_after_append(logs: Seq<u64>, log: u64) -> Seq<u64> {
    if logs.len() > 0 && logs.last() == log {
        logs
    } else {
        logs.push(log)
    }
}

/// A write to the newest log file, or to a new one after it, keeps what
/// reopening finds equal to the index: replaying the log files rebuilds the
/// index the write leaves (a refused removal leaves it as it was).
pub proof fn lemma_write_keeps_replay(
    files: Map<u64, Seq<Write>>,
    logs: Seq<u64>,
    index: Map<Seq<char>, KvPointer>,
    log: u64,
    w: Write,
)
    requires
        replay_holds(files, logs, index),
        logs.len() == 0 || log >= logs.last(),
        file_bytes(file_writes(files, log)).len() + w.2.len() + 9 <= u64::MAX,
    ensures
        ({
            let p = append_pointer(files, log, w);
            let files2 = append_write(files, log, w);
            let logs2 = logs_after_append(logs, log);
            &&& spec_apply_write(index, w.0, w.1, p) matches Some((m2, _)) ==> replay_holds(
                files2,
                logs2,
                m2,
            )
            &&& spec_apply_write(index, w.0, w.1, p) is None ==> replay_holds(files2, logs2, index)
        }),
{
    let p = append_pointer(files, log, w);
    let files2 = append_write(files, log, w);
    let logs2 = logs_after_append(logs, log);
    let ws = file_writes(files, log);
    let rec = (w.0, w.1, p);
    lemma_append_keeps_pointers(files, log, w);
    assert(log_records(files2, log) =~= log_records(files, log).push(rec));
    if logs.len() > 0 && logs.last() == log {
        let front = logs.drop_last();
        assert forall|i: int| 0 <= i < front.len() implies file_writes(files2, #[trigger] front[i])
            == file_writes(files, front[i]) by {
            assert(front[i] == logs[i] && logs[i] < logs[logs.len() - 1]);
        }
        lemma_logs_records_frame(files2, files, front);
        assert(logs_records(files2, logs2) =~= logs_records(files, logs).push(rec));
    } else {
        assert(!files.contains_key(log)) by {
            if files.contains_key(log) {
                let i = choose|i: int| 0 <= i < logs.len() && logs[i] == log;
                if i < logs.len() - 1 {
                    assert(logs[i] < logs[logs.len() - 1]);
                }
            }
        }
        assert forall|i: int| 0 <= i < logs.len() implies file_writes(files2, #[trigger] logs[i])
            == file_writes(files, logs[i]) by {
            assert(files.contains_key(logs[i]));
        }
        lemma_logs_records_frame(files2, files, logs);
        assert(logs2.drop_last() =~= logs);
        assert(logs_records(files2, logs2) =~= logs_records(files, logs).push(rec));
        assert forall|a: int, b: int| 0 <= a < b < logs2.len() implies logs2[a] < logs2[b] by {
            if b == logs.len() {
                assert(logs[a] <= logs[logs.len() - 1]) by {
                    if a < logs.len() - 1 {
                        assert(logs[a] < logs[logs.len() - 1]);
                    }
                }
            }
        }
    }
    assert forall|l: u64| #[trigger] files2.contains_key(l) <==> logs2.contains(l) by {
        if l != log {
            if logs2.contains(l) {
                let i = choose|i: int| 0 <= i < logs2.len() && logs2[i] == l;
                assert(logs.contains(l)) by {
                    assert(logs[i] == l);
                }
            }
            if logs.contains(l) {
                let i = choose|i: int| 0 <= i < logs.len() && logs[i] == l;
                assert(logs2[i] == l);
            }
        } else {
            if logs.len() > 0 && logs.last() == log {
                assert(logs[logs.len() - 1] == log);
            } else {
                assert(logs2[logs.len() as int] == log);
            }
        }
    }
    lemma_replays_push(Map::empty(), logs_records(files, logs), rec);
    if spec_apply_write(index, w.0, w.1, p) is None {
        assert(index.remove(w.1) =~= index);
    }
}

proof fn lemma_logs_records_range(files: Map<u64, Seq<Write>>, out: Seq<Seq<Write>>, n: int)
    requires
        0 <= n <= out.len(),
        out.len() <= u64::MAX,
        forall|i: int| 0 <= i < n ==> file_writes(files, i as u64) == #[trigger] out[i],
    ensures
        logs_records(files, Seq::new(n as nat, |i: int| i as u64)) == out_records(out.take(n)),
    decreases n,
{
    if n > 0 {
        let r = Seq::new(n as nat, |i: int| i as u64);
        let r1 = Seq::new((n - 1) as nat, |i: int| i as u64);
        assert(r.drop_last() =~= r1);
        assert(out.take(n).drop_last() =~= out.take(n - 1));
        lemma_logs_records_range(files, out, n - 1);
        assert(r.last() == (n - 1) as u64);
        assert(out.take(n).last() == out[n - 1]);
        assert(file_writes(files, (n - 1) as u64) == out[n - 1]);
        assert(log_records(files, (n - 1) as u64) =~= Seq::new(
            out[n - 1].len(),
            |j: int| (out[n - 1][j].0, out[n - 1][j].1, file_pointers((n - 1) as u64, out[n - 1])[j]),
        ));
    } else {
        assert(out.take(0) =~= Seq::<Seq<Write>>::empty());
    }
}

proof fn lemma_logs_records_of_sources(files: Map<u64, Seq<Write>>, srcs: Seq<u64>)
    ensures
        logs_records(files, srcs) == pass_input(files, srcs).map_values(
            |r: ReadRecord| (r.0.0, r.0.1, r.1),
        ),
    decreases srcs.len(),
{
    if srcs.len() > 0 {
        lemma_logs_records_of_sources(files, srcs.drop_last());
        assert(logs_records(files, srcs) =~= pass_input(files, srcs).map_values(
            |r: ReadRecord| (r.0.0, r.0.1, r.1),
        ));
    } else {
        assert(logs_records(files, srcs) =~= pass_input(files, srcs).map_values(
            |r: ReadRecord| (r.0.0, r.0.1, r.1),
        ));
    }
}

proof fn lemma_logs_records_logs(files: Map<u64, Seq<Write>>, logs: Seq<u64>)
    requires
        forall|i: int|
            0 <= i < logs.len() ==> file_bytes(file_writes(files, #[trigger] logs[i])).len()
                <= u64::MAX,
    ensures
        forall|j: int|
            0 <= j < logs_records(files, logs).len() ==> logs.contains(
                (#[trigger] logs_records(files, logs)[j]).2.log,
            ),
    decreases logs.len(),
{
    if logs.len() > 0 {
        let front = logs.drop_last();
        let l = logs.last();
        assert forall|i: int|
            0 <= i < front.len() implies file_bytes(file_writes(files, #[trigger] front[i])).len()
            <= u64::MAX by {
            assert(front[i] == logs[i]);
        }
        lemma_logs_records_logs(files, front);
        assert(logs[logs.len() - 1] == l);
        lemma_file_pointers_facts(l, file_writes(files, l));
        let pre = logs_records(files, front);
        let tail = log_records(files, l);
        assert forall|j: int|
            0 <= j < logs_records(files, logs).len() implies logs.contains(
            (#[trigger] logs_records(files, logs)[j]).2.log,
        ) by {
            if j < pre.len() {
                assert(logs_records(files, logs)[j] == pre[j]);
                let x = choose|x: int| 0 <= x < front.len() && front[x] == pre[j].2.log;
                assert(logs[x] == front[x]);
            } else {
                assert(logs_records(files, logs)[j] == tail[j - pre.len()]);
            }
        }
    }
}

proof fn lemma_replays_moves(m: Map<Seq<char>, KvPointer>, moves: Seq<(Seq<char>, KvPointer)>)
    ensures
        spec_replays(m, moves_as_sets(moves)) == spec_relocate_all(m, moves),
    decreases moves.len(),
{
    if moves.len() > 0 {
        assert(moves_as_sets(moves).drop_first() =~= moves_as_sets(moves.drop_first()));
        lemma_replays_moves(m.insert(moves[0].0, moves[0].1), moves.drop_first());
    }
}

proof fn lemma_relocate_moved(
    m1: Map<Seq<char>, KvPointer>,
    m2: Map<Seq<char>, KvPointer>,
    moves: Seq<(Seq<char>, KvPointer)>,
    k: Seq<char>,
)
    requires
        exists|i: int| 0 <= i < moves.len() && (#[trigger] moves[i]).0 == k,
    ensures
        spec_relocate_all(m1, moves).contains_key(k),
        spec_relocate_all(m2, moves).contains_key(k),
        spec_relocate_all(m1, moves)[k] == spec_relocate_all(m2, moves)[k],
    decreases moves.len(),
{
    let rest = moves.drop_first();
    let a1 = m1.insert(moves[0].0, moves[0].1);
    let a2 = m2.insert(moves[0].0, moves[0].1);
    if exists|i: int| 0 <= i < rest.len() && (#[trigger] rest[i]).0 == k {
        lemma_relocate_moved(a1, a2, rest, k);
        assert(spec_relocate_all(m1, moves) == spec_relocate_all(a1, rest));
        assert(spec_relocate_all(m2, moves) == spec_relocate_all(a2, rest));
    } else {
        assert(moves[0].0 == k) by {
            let i = choose|i: int| 0 <= i < moves.len() && (#[trigger] moves[i]).0 == k;
            if i > 0 {
                assert(rest[i - 1] == moves[i]);
            }
        }
        lemma_relocate_all(a1, rest);
        lemma_relocate_all(a2, rest);
        assert(spec_relocate_all(m1, moves) == spec_relocate_all(a1, rest));
        assert(spec_relocate_all(m2, moves) == spec_relocate_all(a2, rest));
        assert(a1.contains_key(k) && a2.contains_key(k));
        assert(spec_relocate_all(a1, rest).contains_key(k));
        assert(spec_relocate_all(a2, rest).contains_key(k));
        assert(spec_relocate_all(a1, rest)[k] == a1[k]);
        assert(spec_relocate_all(a2, rest)[k] == a2[k]);
    }
}

proof fn lemma_replay_key_after_pass(
    files: Map<u64, Seq<Write>>,
    index: Map<Seq<char>, KvPointer>,
    ra: Map<Seq<char>, KvPointer>,
    a: Seq<IndexRecord>,
    b: Seq<IndexRecord>,
    rs: Seq<ReadRecord>,
    out2: Seq<Seq<Write>>,
    moves: Seq<(Seq<char>, KvPointer)>,
    srcs: Seq<u64>,
    rest: Seq<u64>,
    k: Seq<char>,
)
    requires
        ra == spec_replays(Map::empty(), a),
        index == spec_replays(ra, b),
        a == rs.map_values(|r: ReadRecord| (r.0.0, r.0.1, r.1)),
        forall|j: int| 0 <= j < rs.len() ==> record_of_sources(files, srcs, #[trigger] rs[j]),
        forall|j: int| 0 <= j < b.len() ==> rest.contains((#[trigger] b[j]).2.log),
        forall|x: u64| srcs.contains(x) ==> !#[trigger] rest.contains(x),
        forall|i: int| 0 <= i < moves.len() ==> move_copies(index, rs, out2, #[trigger] moves[i]),
        forall|j: int|
            0 <= j < rs.len() && index.contains_key(#[trigger] rs[j].0.1) && index[rs[j].0.1]
                == rs[j].1 ==> exists|i: int| 0 <= i < moves.len() && (#[trigger] moves[i]).0 == rs[j].0.1,
    ensures
        ({
            let n = spec_replays(spec_relocate_all(Map::empty(), moves), b);
            let r = spec_relocate_all(index, moves);
            &&& n.contains_key(k) == r.contains_key(k)
            &&& n.contains_key(k) ==> n[k] == r[k]
        }),
{
    let e = Map::<Seq<char>, KvPointer>::empty();
    let re = spec_relocate_all(e, moves);
    let n = spec_replays(re, b);
    let r = spec_relocate_all(index, moves);
    lemma_replays_key(re, b, k);
    lemma_replays_key(ra, b, k);
    lemma_relocate_all(index, moves);
    lemma_relocate_all(e, moves);
    let moved = exists|i: int| 0 <= i < moves.len() && (#[trigger] moves[i]).0 == k;
    // A moved key is live and its latest record was read from the sources.
    if moved {
        let i = choose|i: int| 0 <= i < moves.len() && (#[trigger] moves[i]).0 == k;
        assert(move_copies(index, rs, out2, moves[i]));
        reveal(move_copies);
        let (q, j) = choose|q: int, j: int|
            0 <= q < out2[moves[i].1.log as int].len() && #[trigger] file_pointers(
                moves[i].1.log,
                out2[moves[i].1.log as int],
            )[q] == moves[i].1 && 0 <= j < rs.len() && #[trigger] rs[j].0.1 == moves[i].0
                && index.contains_key(moves[i].0) && index[moves[i].0] == rs[j].1
                && out2[moves[i].1.log as int][q] == rs[j].0;
        assert(record_of_sources(files, srcs, rs[j]));
        assert(srcs.contains(index[k].log));
        assert(!rest.contains(index[k].log));
        lemma_relocate_moved(e, index, moves, k);
        match last_write(b, k) {
            Some(jb) => {
                if b[jb].0 == KvCommand::Put {
                    assert(rest.contains(b[jb].2.log));
                    assert(false);
                } else {
                    assert(false);
                }
            },
            None => {},
        }
    } else {
        assert(r.contains_key(k) == index.contains_key(k));
        assert(!re.contains_key(k));
        match last_write(b, k) {
            Some(jb) => {},
            None => {
                if index.contains_key(k) {
                    assert(ra.contains_key(k));
                    lemma_replays_key(e, a, k);
                    let ja = last_write(a, k)->0;
                    assert(a[ja] == (rs[ja].0.0, rs[ja].0.1, rs[ja].1));
                    assert(rs[ja].0.1 == k && index[k] == rs[ja].1);
                    let i = choose|i: int| 0 <= i < moves.len() && (#[trigger] moves[i]).0 == rs[ja].0.1;
                    assert(false);
                }
            },
        }
    }
}

/// Compaction keeps what reopening finds equal to the index. The log files
/// are `logs`, in increasing order; a pass reads the first `s` of them (all
/// but the newest at least), and once it is over compacted file `i` takes
/// the place of log file `i`, the files read are gone and each moved key
/// points at its copy. Replaying the log files then, the compacted ones
/// first and the rest after them in order, rebuilds that index.
pub proof fn lemma_compaction_keeps_replay(
    files: Map<u64, Seq<Write>>,
    logs: Seq<u64>,
    index: Map<Seq<char>, KvPointer>,
    contents: Map<Seq<char>, Seq<u8>>,
    s: int,
    c: Compaction,
)
    requires
        store_holds(files, index, contents),
        files_packed(files),
        replay_holds(files, logs, index),
        records_within_limit(files, logs.take(s)),
        1 <= s < logs.len(),
        c.compact_file_index == 0,
        c.pointer.pos + c.pointer.sz == 0,
        pass_input_fits(c, index, pass_input(files, logs.take(s))),
    ensures
        ({
            let srcs = logs.take(s);
            let (c2, out2, moves) = spec_pass(
                c,
                index,
                pass_input(files, srcs),
                seq![Seq::empty()],
                Seq::empty(),
            );
            let logs2 = Seq::new(out2.len(), |i: int| i as u64) + logs.skip(s);
            replay_holds(files_after_pass(files, srcs, out2), logs2, spec_relocate_all(index, moves))
        }),
{
    let srcs = logs.take(s);
    let rest = logs.skip(s);
    let limit = logs[s];
    assert(logs =~= srcs + rest);
    assert forall|i: int| 0 <= i < srcs.len() implies files.contains_key(#[trigger] srcs[i])
        && srcs[i] < limit by {
        assert(srcs[i] == logs[i]);
        assert(logs.contains(logs[i]));
    }
    assert forall|l: u64| #[trigger] files.contains_key(l) && !srcs.contains(l) implies l >= limit by {
        let x = choose|x: int| 0 <= x < logs.len() && logs[x] == l;
        if x < s {
            assert(srcs[x] == l);
        } else if x > s {
            assert(logs[s] < logs[x]);
        }
    }
    assert forall|a: int, b: int| 0 <= a < b < srcs.len() implies srcs[a] < srcs[b] by {
        assert(srcs[a] == logs[a] && srcs[b] == logs[b]);
    }
    lemma_compaction_keeps_store(files, index, contents, srcs, limit, c);
    lemma_pass_runs(files, index, contents, srcs, c);
    let rs = pass_input(files, srcs);
    let (c2, out2, moves) = spec_pass(c, index, rs, seq![Seq::empty()], Seq::empty());
    let files2 = files_after_pass(files, srcs, out2);
    let range = Seq::new(out2.len(), |i: int| i as u64);
    let logs2 = range + rest;
    let m2 = spec_relocate_all(index, moves);
    assert(pass_state(c2, index, rs, rs.len() as int, out2, moves));
    // Old records: the sources', then the rest's.
    let a = logs_records(files, srcs);
    let b = logs_records(files, rest);
    lemma_logs_records_concat(files, srcs, rest);
    lemma_replays_concat(Map::empty(), a, b);
    let ra = spec_replays(Map::empty(), a);
    lemma_logs_records_of_sources(files, srcs);
    assert forall|i: int|
        0 <= i < rest.len() implies file_bytes(file_writes(files, #[trigger] rest[i])).len()
        <= u64::MAX by {
        assert(rest[i] == logs[s + i]);
        assert(logs.contains(logs[s + i]));
    }
    lemma_logs_records_logs(files, rest);
    // The rest is not among the sources.
    assert forall|x: u64| srcs.contains(x) implies !#[trigger] rest.contains(x) by {
        if rest.contains(x) {
            let i = choose|i: int| 0 <= i < srcs.len() && srcs[i] == x;
            let j = choose|j: int| 0 <= j < rest.len() && rest[j] == x;
            assert(logs[i] == x && logs[s + j] == x);
            assert(logs[i] < logs[s + j]);
        }
    }
    // New records: the compacted files', then the rest's.
    assert(out2.len() <= u64::MAX);
    assert forall|i: int| 0 <= i < out2.len() implies file_writes(files2, i as u64)
        == #[trigger] out2[i] by {
        assert(files2.contains_key(i as u64));
    }
    lemma_logs_records_range(files2, out2, out2.len() as int);
    assert(out2.take(out2.len() as int) =~= out2);
    assert forall|i: int| 0 <= i < rest.len() implies file_writes(files2, #[trigger] rest[i])
        == file_writes(files, rest[i]) by {
        assert(rest[i] == logs[s + i]);
        assert(logs.contains(rest[i]));
        assert(!srcs.contains(rest[i]));
    }
    lemma_logs_records_frame(files2, files, rest);
    lemma_logs_records_concat(files2, range, rest);
    let cset = moves_as_sets(moves);
    lemma_replays_concat(Map::empty(), cset, b);
    lemma_replays_moves(Map::empty(), moves);
    let n = replay_logs(files2, logs2);
    assert(n == spec_replays(spec_relocate_all(Map::empty(), moves), b));
    assert forall|k: Seq<char>| #![trigger n.contains_key(k)] #![trigger m2.contains_key(k)]
        n.contains_key(k) == m2.contains_key(k) && (n.contains_key(k) ==> n[k] == m2[k]) by {
        lemma_replay_key_after_pass(files, index, ra, a, b, rs, out2, moves, srcs, rest, k);
    }
    assert(n =~= m2);
    // The new order is increasing and lists exactly the files.
    assert forall|x: int, y: int| 0 <= x < y < logs2.len() implies logs2[x] < logs2[y] by {
        if y < range.len() {
        } else if x < range.len() {
            assert(logs2[y] == logs[s + (y - range.len())]);
            if y - range.len() > 0 {
                assert(logs[s] < logs[s + (y - range.len())]);
            }
        } else {
            assert(logs2[x] == logs[s + (x - range.len())]);
            assert(logs2[y] == logs[s + (y - range.len())]);
        }
    }
    assert forall|l: u64| #[trigger] files2.contains_key(l) <==> logs2.contains(l) by {
        if (l as int) < out2.len() {
            assert(logs2[l as int] == l);
        } else {
            if files2.contains_key(l) {
                assert(files.contains_key(l) && !srcs.contains(l));
                let x = choose|x: int| 0 <= x < logs.len() && logs[x] == l;
                if x < s {
                    assert(srcs[x] == l);
                }
                assert(logs2[range.len() + (x - s)] == l);
            }
            if logs2.contains(l) {
                let x = choose|x: int| 0 <= x < logs2.len() && logs2[x] == l;
                assert(x >= range.len());
                let y = x - range.len();
                assert(rest[y] == l);
                assert(logs[s + y] == l);
                assert(logs.contains(l));
                assert(!srcs.contains(l));
            }
        }
    }
}

/// What reopening finds: where both invariants hold, replaying the log
/// files rebuilds an index under which a key is live exactly when it has
/// contents, and the bytes its read plan names are its contents and a
/// newline.
pub proof fn lemma_reopen_reads(
    files: Map<u64, Seq<Write>>,
    logs: Seq<u64>,
    index: Map<Seq<char>, KvPointer>,
    contents: Map<Seq<char>, Seq<u8>>,
    k: Seq<char>,
)
    requires
        store_holds(files, index, contents),
        replay_holds(files, logs, index),
    ensures
        ({
            let r = replay_logs(files, logs);
            &&& r.contains_key(k) <==> contents.contains_key(k)
            &&& r.contains_key(k) ==> {
                let p = r[k];
                let b = file_bytes(files[p.log]);
                &&& files.contains_key(p.log)
                &&& p.pos + 8 <= p.pos + p.sz <= b.len()
                &&& b.subrange(p.pos + 8, p.pos + p.sz) == contents[k] + seq![10u8]
            }
        }),
{
    lemma_store_read(files, index, contents, k);
}

/// A new store's log files and index: none, and replaying nothing gives the
/// empty index.
pub proof fn lemma_empty_store_replays()
    ensures
        replay_holds(Map::empty(), Seq::empty(), Map::empty()),
        files_packed(Map::empty()),
{
}

} // verus!
