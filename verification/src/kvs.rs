//! The log-structured engine: records, their on-disk framing, the in-memory
//! index and the decisions of writing, replaying and compacting.
//!
//! A log file is a sequence of frames. A frame is the frame's total size as
//! eight little-endian bytes, the JSON text of a record, and a newline; the
//! size counts all three parts. The index maps each live key to the frame
//! that last set it.

use crate::error::KvError;
use crate::Result;
use vstd::bytes::{spec_u64_from_le_bytes, spec_u64_to_le_bytes, u64_from_le_bytes, u64_to_le_bytes};
use vstd::hash_map::StringHashMap;
use vstd::prelude::*;

verus! {

/// File extension for log files.
pub const LOG_FILE_EXT: &'static str = "log";

/// File extension for files being written by a compaction.
pub const COMPACT_FILE_EXT: &'static str = "compact";

/// Maximum size of a log file before a new one is started.
pub const LOG_FILE_SIZE: u64 = 1048576;

/// Number of stale records from which compaction runs.
pub const LOG_UNCOMPACT: u64 = 1000;

/// Nanoseconds of one pause of writers and of the compaction loop.
pub const CMD_EXE_RATIO: u64 = 1;

/// Number of stale records above which writers sleep.
pub const LOG_UNCOMPACT_SLEEP: u64 = 500000;

/// The operations of the store, as given on the command line.
#[derive(Clone, Copy, Debug, PartialEq, Eq, Structural)]
pub enum KvCommand {
    Put,
    Get,
    Rm,
}

/// One record of the log.
#[derive(Clone, Debug)]
pub struct KvLog {
    pub command: KvCommand,
    pub key: String,
    pub value: Option<String>,
}

impl KvLog {
    /// A record made of its three parts.
    pub fn build_from(command: KvCommand, key: String, value: Option<String>) -> (l: Self)
        ensures
            l.command == command,
            l.key == key,
            l.value == value,
    {
        KvLog { command, key, value }
    }
}

/// Where a record lives: its log file, its offset and its size in bytes.
#[derive(Debug, Clone, Copy, PartialEq, Eq, Structural)]
pub struct KvPointer {
    pub log: u64,
    pub pos: u64,
    pub sz: u64,
}

impl KvPointer {
    /// A pointer that can be read from: a frame holds at least its header,
    /// and its end is a representable offset.
    pub open spec fn well_formed(self) -> bool {
        &&& self.sz >= 8
        &&& self.pos + self.sz <= u64::MAX
    }

    /// The pointer at the start of log file 0, covering nothing.
    pub fn new() -> (p: Self)
        ensures
            p == (KvPointer { log: 0, pos: 0, sz: 0 }),
    {
        KvPointer { log: 0, pos: 0, sz: 0 }
    }

    /// The offset just after the record.
    pub fn end(&self) -> (e: u64)
        requires
            self.pos + self.sz <= u64::MAX,
        ensures
            e == self.pos + self.sz,
    {
        self.pos + self.sz
    }

    /// The pointer to the record of size `sz` that follows this one.
    pub fn build_from(&self, sz: u64) -> (p: Self)
        requires
            self.pos + self.sz <= u64::MAX,
        ensures
            p == (KvPointer { log: self.log, pos: (self.pos + self.sz) as u64, sz }),
    {
        KvPointer { log: self.log, pos: self.pos + self.sz, sz }
    }
}

// ------------------------------------------------------------------
// Frames.
// ------------------------------------------------------------------
/// The frame that holds a record's JSON text.
pub open spec fn spec_frame(payload: Seq<u8>) -> Seq<u8> {
    spec_u64_to_le_bytes((payload.len() + 9) as u64) + payload + seq![10u8]
}

/// The size of a frame holding `len` bytes of text.
pub fn record_size(len: usize) -> (sz: u64)
    requires
        len + 9 <= u64::MAX,
    ensures
        sz == len + 9,
{
    len as u64 + 9
}

/// The frame that holds a record's JSON text.
pub fn encode_frame(payload: &[u8]) -> (f: Vec<u8>)
    requires
        payload@.len() + 9 <= u64::MAX,
    ensures
        f@ == spec_frame(payload@),
{
    let sz = record_size(payload.len());
    let mut f = u64_to_le_bytes(sz);
    let ghost head = f@;
    let mut i: usize = 0;
    while i < payload.len()
        invariant
            i <= payload@.len(),
            f@ == head + payload@.subrange(0, i as int),
        decreases payload@.len() - i,
    {
        f.push(payload[i]);
        i = i + 1;
        assert(f@ =~= head + payload@.subrange(0, i as int));
    }
    f.push(10u8);
    assert(payload@.subrange(0, payload@.len() as int) =~= payload@);
    assert(f@ =~= spec_frame(payload@));
    f
}

/// The size written in the header of the frame that starts at `off`.
pub open spec fn header_size(b: Seq<u8>, off: int) -> u64 {
    spec_u64_from_le_bytes(b.subrange(off, off + 8))
}

/// The pointers to the frames of a log file read from offset `off`.
///
/// Reading stops at a header or a text cut short by the end of the file.
/// It fails (`None`) at a size below the header's own eight bytes, or one
/// whose text could not be held in memory: there the reader cannot go on.
pub open spec fn spec_frames(b: Seq<u8>, log: u64, off: int) -> Option<Seq<KvPointer>>
    decreases b.len() - off,
{
    if off < 0 || off + 8 > b.len() {
        Some(Seq::empty())
    } else {
        let sz = header_size(b, off);
        if sz < 8 || sz - 8 > isize::MAX {
            None
        } else if off + sz > b.len() {
            Some(Seq::empty())
        } else {
            match spec_frames(b, log, off + sz) {
                None => None,
                Some(rest) => Some(seq![KvPointer { log, pos: off as u64, sz }] + rest),
            }
        }
    }
}

/// The pointers to the frames of a log file, in file order; `None` where a
/// frame's size cannot be read past.
pub fn decode_frames(bytes: &[u8], log: u64) -> (r: Option<Vec<KvPointer>>)
    ensures
        match r {
            Some(v) => spec_frames(bytes@, log, 0) == Some(v@),
            None => spec_frames(bytes@, log, 0) is None,
        },
{
    let n = bytes.len();
    let mut frames: Vec<KvPointer> = Vec::new();
    let mut off: usize = 0;
    while off < n && n - off >= 8
        invariant
            off <= n,
            n == bytes@.len(),
            spec_frames(bytes@, log, 0) == match spec_frames(bytes@, log, off as int) {
                None => None,
                Some(rest) => Some(frames@ + rest),
            },
        ensures
            spec_frames(bytes@, log, off as int) == Some(Seq::<KvPointer>::empty()),
        decreases n - off,
    {
        let head = &bytes[off..off + 8];
        let sz = u64_from_le_bytes(head);
        assert(head@ == bytes@.subrange(off as int, off + 8));
        if sz < 8 || sz - 8 > isize::MAX as u64 {
            return None;
        }
        if sz > (n - off) as u64 {
            break;
        }
        let p = KvPointer { log, pos: off as u64, sz };
        let ghost old_frames = frames@;
        frames.push(p);
        off = off + sz as usize;
        proof {
            match spec_frames(bytes@, log, off as int) {
                None => {},
                Some(rest) => {
                    assert(old_frames + (seq![p] + rest) =~= frames@ + rest);
                },
            }
        }
    }
    assert(frames@ + Seq::<KvPointer>::empty() =~= frames@);
    Some(frames)
}

// ------------------------------------------------------------------
// The index.
// ------------------------------------------------------------------
/// What a write does to the index, and whether it made a record stale:
/// `None` for a removal of an absent key, which the store refuses.
pub open spec fn spec_apply_write(
    m: Map<Seq<char>, KvPointer>,
    c: KvCommand,
    k: Seq<char>,
    p: KvPointer,
) -> Option<(Map<Seq<char>, KvPointer>, bool)> {
    match c {
        KvCommand::Put => Some((m.insert(k, p), m.contains_key(k))),
        _ => if m.contains_key(k) {
            Some((m.remove(k), true))
        } else {
            None
        },
    }
}

/// What replaying a record of the log does to the index, and whether it
/// made a record stale.
pub open spec fn spec_replay(m: Map<Seq<char>, KvPointer>, c: KvCommand, k: Seq<char>, p: KvPointer) -> (
    Map<Seq<char>, KvPointer>,
    bool,
) {
    match c {
        KvCommand::Put => (m.insert(k, p), m.contains_key(k)),
        _ => (m.remove(k), true),
    }
}

/// Where the text of a record is read: its log file, the offset of the text
/// and the number of bytes to read (the text and its newline).
#[derive(Debug, Clone, Copy, PartialEq, Eq, Structural)]
pub struct ReadPlan {
    pub log: u64,
    pub offset: u64,
    pub len: u64,
}

/// The in-memory index: from each live key to its latest record.
pub struct StoreIndex {
    map: StringHashMap<KvPointer>,
}

impl View for StoreIndex {
    type V = Map<Seq<char>, KvPointer>;

    closed spec fn view(&self) -> Map<Seq<char>, KvPointer> {
        self.map@
    }
}

impl StoreIndex {
    /// Every pointer of the index can be read from.
    #[verifier::type_invariant]
    closed spec fn wf(self) -> bool {
        forall|k: Seq<char>| #[trigger] self.map@.contains_key(k) ==> self.map@[k].well_formed()
    }

    /// An empty index.
    pub fn new() -> (s: Self)
        ensures
            s@ == Map::<Seq<char>, KvPointer>::empty(),
    {
        StoreIndex { map: StringHashMap::new() }
    }

    /// The number of live keys.
    pub fn len(&self) -> (n: usize)
        ensures
            n == self@.len(),
    {
        self.map.len()
    }

    /// Whether a key is live.
    pub fn contains_key(&self, key: &str) -> (b: bool)
        ensures
            b == self@.contains_key(key@),
    {
        self.map.contains_key(key)
    }

    /// The pointer of a live key.
    pub fn get(&self, key: &str) -> (r: Option<KvPointer>)
        ensures
            r == (if self@.contains_key(key@) {
                Some(self@[key@])
            } else {
                None
            }),
            r matches Some(p) ==> p.well_formed(),
    {
        proof {
            use_type_invariant(self);
        }
        match self.map.get(key) {
            Some(p) => Some(*p),
            None => None,
        }
    }

    fn put(&mut self, key: String, p: KvPointer)
        requires
            p.well_formed(),
        ensures
            final(self)@ == old(self)@.insert(key@, p),
    {
        proof {
            use_type_invariant(&*self);
        }
        let mut m = StringHashMap::new();
        std::mem::swap(&mut m, &mut self.map);
        m.insert(key, p);
        self.map = m;
    }

    fn drop_key(&mut self, key: &str)
        ensures
            final(self)@ == old(self)@.remove(key@),
    {
        proof {
            use_type_invariant(&*self);
        }
        let mut m = StringHashMap::new();
        std::mem::swap(&mut m, &mut self.map);
        m.remove(key);
        self.map = m;
    }

    /// Records a write: a set points the key at its new record, a removal
    /// drops the key and fails with `KvError::Log` when it is absent.
    /// `Ok(true)` says that an older record became stale.
    pub fn apply_write(&mut self, command: KvCommand, key: String, p: KvPointer) -> (r: Result<
        bool,
    >)
        requires
            p.well_formed(),
        ensures
            match r {
                Ok(stale) => spec_apply_write(old(self)@, command, key@, p) == Some(
                    (final(self)@, stale),
                ),
                Err(e) => spec_apply_write(old(self)@, command, key@, p) is None && e
                    == KvError::Log && final(self)@ == old(self)@,
            },
    {
        match command {
            KvCommand::Put => {
                let had = self.map.contains_key(key.as_str());
                self.put(key, p);
                Ok(had)
            },
            _ => {
                if self.map.contains_key(key.as_str()) {
                    self.drop_key(key.as_str());
                    Ok(true)
                } else {
                    Err(KvError::Log)
                }
            },
        }
    }

    /// Replays a record of the log: a set points the key at the record, any
    /// other record drops the key. The result says whether a record became
    /// stale.
    pub fn replay(&mut self, command: KvCommand, key: String, p: KvPointer) -> (stale: bool)
        requires
            p.well_formed(),
        ensures
            spec_replay(old(self)@, command, key@, p) == (final(self)@, stale),
    {
        match command {
            KvCommand::Put => {
                let had = self.map.contains_key(key.as_str());
                self.put(key, p);
                had
            },
            _ => {
                self.drop_key(key.as_str());
                true
            },
        }
    }

    /// Points a key at the place compaction moved its record to; fails with
    /// `KvError::Log`, after the insertion, when the key was not live.
    pub fn relocate(&mut self, key: String, p: KvPointer) -> (r: Result<()>)
        requires
            p.well_formed(),
        ensures
            final(self)@ == old(self)@.insert(key@, p),
            r is Ok <==> old(self)@.contains_key(key@),
            r matches Err(e) ==> e == KvError::Log,
    {
        let had = self.map.contains_key(key.as_str());
        self.put(key, p);
        if had {
            Ok(())
        } else {
            Err(KvError::Log)
        }
    }

    /// Where the text of a key's record is: after the eight-byte header, and
    /// as long as the rest of the frame. Fails with `KvError::Log` for a key
    /// that is not live.
    pub fn read_plan(&self, key: &str) -> (r: Result<ReadPlan>)
        ensures
            match r {
                Ok(plan) => self@.contains_key(key@) && plan == (ReadPlan {
                    log: self@[key@].log,
                    offset: (self@[key@].pos + 8) as u64,
                    len: (self@[key@].sz - 8) as u64,
                }),
                Err(e) => !self@.contains_key(key@) && e == KvError::Log,
            },
    {
        match self.get(key) {
            None => Err(KvError::Log),
            Some(p) => Ok(ReadPlan { log: p.log, offset: p.pos + 8, len: p.sz - 8 }),
        }
    }
}

/// Whether a removal goes on to write its record: when the index can be
/// read, only for a live key; when it cannot (`None`, the index is busy),
/// always, and the write decides.
pub fn should_remove(index: Option<&StoreIndex>, key: &str) -> (b: bool)
    ensures
        b == match index {
            Some(i) => i@.contains_key(key@),
            None => true,
        },
{
    match index {
        Some(i) => i.contains_key(key),
        None => true,
    }
}

// ------------------------------------------------------------------
// Writing.
// ------------------------------------------------------------------
/// Where the next record goes: a record that would carry the active file
/// past its limit starts the next file instead.
pub open spec fn spec_rotation(active: KvPointer, sz: u64) -> (bool, KvPointer) {
    if active.pos + active.sz + sz > LOG_FILE_SIZE {
        (true, KvPointer { log: (active.log + 1) as u64, pos: 0, sz: 0 })
    } else {
        (false, active)
    }
}

/// Where a record goes after the active file: a record rotates exactly when
/// it would carry the active file past the size limit, and then it starts
/// the file numbered one past the active one, at its beginning, a file never
/// written before; otherwise it follows the active file's last record, in
/// that file. Two records in a row never go to the same rotated file twice:
/// the file a rotation starts is always newer than the active one.
pub proof fn lemma_rotation_goes_to_next_file(active: KvPointer, sz: u64)
    requires
        active.log < u64::MAX,
    ensures
        spec_rotation(active, sz).0 <==> active.pos + active.sz + sz > LOG_FILE_SIZE,
        spec_rotation(active, sz).0 ==> spec_rotation(active, sz).1 == (KvPointer {
            log: (active.log + 1) as u64,
            pos: 0,
            sz: 0,
        }),
        spec_rotation(active, sz).0 ==> spec_rotation(active, sz).1.log > active.log,
        !spec_rotation(active, sz).0 ==> spec_rotation(active, sz).1 == active,
        spec_rotation(active, sz).1.log >= active.log,
{
}

/// Decides whether a record of size `sz` starts a new log file, and gives
/// the pointer the record is appended after.
pub fn plan_rotation(active: &KvPointer, sz: u64) -> (r: (bool, KvPointer))
    requires
        active.pos + active.sz + sz <= u64::MAX,
        active.pos + active.sz + sz > LOG_FILE_SIZE ==> active.log < u64::MAX,
    ensures
        r == spec_rotation(*active, sz),
        r.0 <==> active.pos + active.sz + sz > LOG_FILE_SIZE,
        r.0 ==> r.1.log == active.log + 1 && r.1.pos == 0 && r.1.sz == 0,
        !r.0 ==> r.1 == *active,
{
    if active.pos + active.sz + sz > LOG_FILE_SIZE {
        (true, KvPointer { log: active.log + 1, pos: 0, sz: 0 })
    } else {
        (false, *active)
    }
}

/// What a writer does before a write, given the number of stale records.
#[derive(Debug, Clone, Copy, PartialEq, Eq, Structural)]
pub enum Throttle {
    /// Sleep `CMD_EXE_RATIO` nanoseconds.
    Sleep,
    /// Yield to other threads.
    Yield,
    /// Go on at once.
    Proceed,
}

/// Writers sleep above `LOG_UNCOMPACT_SLEEP` stale records and yield above
/// `LOG_UNCOMPACT`.
pub fn throttle(uncompact: u64) -> (t: Throttle)
    ensures
        t == (if uncompact > LOG_UNCOMPACT_SLEEP {
            Throttle::Sleep
        } else if uncompact > LOG_UNCOMPACT {
            Throttle::Yield
        } else {
            Throttle::Proceed
        }),
{
    if uncompact > LOG_UNCOMPACT_SLEEP {
        Throttle::Sleep
    } else if uncompact > LOG_UNCOMPACT {
        Throttle::Yield
    } else {
        Throttle::Proceed
    }
}

/// What the maintenance loop does next, given the number of stale records.
#[derive(Debug, Clone, Copy, PartialEq, Eq, Structural)]
pub enum Maintenance {
    /// The store is closing.
    Stop,
    /// Compact the log.
    Compact,
    /// Wait and look again.
    Wait,
}

/// `u64::MAX` stale records means the store is closing; from `LOG_UNCOMPACT`
/// on the log is compacted.
pub fn maintenance(uncompact: u64) -> (m: Maintenance)
    ensures
        m == (if uncompact == u64::MAX {
            Maintenance::Stop
        } else if uncompact >= LOG_UNCOMPACT {
            Maintenance::Compact
        } else {
            Maintenance::Wait
        }),
{
    if uncompact == u64::MAX {
        Maintenance::Stop
    } else if uncompact >= LOG_UNCOMPACT {
        Maintenance::Compact
    } else {
        Maintenance::Wait
    }
}

} // verus!

verus! {

// ------------------------------------------------------------------
// Compaction.
// ------------------------------------------------------------------
/// What compaction does with one record of an old log file.
#[derive(Debug, Clone, Copy, PartialEq, Eq, Structural)]
pub enum CompactStep {
    /// The record is not its key's latest: drop it.
    Skip,
    /// Copy the record to `target` in the compacted files; when `finish`
    /// names a compacted file, that file is full and is finished first.
    Keep { finish: Option<u64>, target: KvPointer },
}

/// The state of a compaction pass: the old file being read, where the last
/// kept record was placed in the compacted file being written, that file's
/// number, and the numbers of records kept and dropped so far. Compacted
/// file `i` becomes log file `i` when it is finished.
#[derive(Debug, Clone, Copy, PartialEq, Eq, Structural)]
pub struct Compaction {
    pub source_log: u64,
    pub pointer: KvPointer,
    pub compact_file_index: u64,
    pub compacted: u64,
    pub dropped: u64,
}

/// The step compaction takes for the record `frame` of key `k`: the record
/// is kept exactly when the index points the key at it. A kept record goes
/// right after the last kept one, in the compacted file being written, or
/// at the start of the next compacted file when it would carry this one
/// past its limit.
pub open spec fn spec_compact_step(
    c: Compaction,
    m: Map<Seq<char>, KvPointer>,
    k: Seq<char>,
    frame: KvPointer,
) -> CompactStep {
    if m.contains_key(k) && m[k] == frame {
        if c.pointer.pos + c.pointer.sz + frame.sz > LOG_FILE_SIZE {
            CompactStep::Keep {
                finish: Some(c.compact_file_index),
                target: KvPointer { log: (c.compact_file_index + 1) as u64, pos: 0, sz: frame.sz },
            }
        } else {
            CompactStep::Keep {
                finish: None,
                target: KvPointer {
                    log: c.compact_file_index,
                    pos: (c.pointer.pos + c.pointer.sz) as u64,
                    sz: frame.sz,
                },
            }
        }
    } else {
        CompactStep::Skip
    }
}

/// The state after one record of a compaction pass: a dropped record is
/// counted; a kept record moves the compacted file on when it finished one,
/// and becomes the last kept record. The index is not touched during the
/// pass: the kept records' keys are pointed at their new places after it.
pub open spec fn spec_compact_advance(
    c: Compaction,
    m: Map<Seq<char>, KvPointer>,
    k: Seq<char>,
    frame: KvPointer,
) -> Compaction {
    match spec_compact_step(c, m, k, frame) {
        CompactStep::Skip => Compaction { dropped: (c.dropped + 1) as u64, ..c },
        CompactStep::Keep { finish, target } => Compaction {
            pointer: target,
            compact_file_index: if finish is Some {
                (c.compact_file_index + 1) as u64
            } else {
                c.compact_file_index
            },
            compacted: (c.compacted + 1) as u64,
            ..c
        },
    }
}

/// The machine limits a compaction step needs: the record's end, and the
/// next compacted file's number, can be represented.
pub open spec fn compact_step_fits(c: Compaction, frame: KvPointer) -> bool {
    &&& c.pointer.pos + c.pointer.sz + frame.sz <= u64::MAX
    &&& c.pointer.pos + c.pointer.sz + frame.sz > LOG_FILE_SIZE ==> c.compact_file_index
        < u64::MAX
    &&& c.compacted < u64::MAX
    &&& c.dropped < u64::MAX
}

/// Where compaction puts a record. A record is kept exactly when the index
/// points its key at it. A kept record is copied whole (its target is as
/// long as its frame): right after the last kept record, in the compacted
/// file being written, when it fits there within the file size limit; else
/// at the start of the compacted file numbered one past it, which then
/// finishes the file being written. A record is never placed before the end
/// of the last kept one, nor in an earlier compacted file.
pub proof fn lemma_compaction_places_records(
    c: Compaction,
    m: Map<Seq<char>, KvPointer>,
    k: Seq<char>,
    frame: KvPointer,
)
    requires
        compact_step_fits(c, frame),
    ensures
        (spec_compact_step(c, m, k, frame) is Keep) <==> (m.contains_key(k) && m[k] == frame),
        spec_compact_step(c, m, k, frame) matches CompactStep::Keep { finish, target } ==> {
            &&& target.sz == frame.sz
            &&& (c.pointer.pos + c.pointer.sz + frame.sz <= LOG_FILE_SIZE ==> finish is None
                && target.log == c.compact_file_index && target.pos == c.pointer.pos
                + c.pointer.sz)
            &&& (c.pointer.pos + c.pointer.sz + frame.sz > LOG_FILE_SIZE ==> finish == Some(
                c.compact_file_index,
            ) && target.log == c.compact_file_index + 1 && target.pos == 0)
            &&& target.log >= c.compact_file_index
            &&& target.log == c.compact_file_index ==> target.pos >= c.pointer.pos + c.pointer.sz
        },
        spec_compact_step(c, m, k, frame) is Skip ==> spec_compact_advance(c, m, k, frame) == (
        Compaction { dropped: (c.dropped + 1) as u64, ..c }),
        spec_compact_step(c, m, k, frame) matches CompactStep::Keep { finish, target } ==> {
            let c2 = spec_compact_advance(c, m, k, frame);
            &&& c2.pointer == target
            &&& c2.compact_file_index == target.log
            &&& c2.compacted == c.compacted + 1
            &&& c2.dropped == c.dropped
        },
{
}

impl Compaction {
    /// A pass that has kept and dropped nothing and writes compacted file 0
    /// from its start.
    pub fn new() -> (c: Self)
        ensures
            c == (Compaction {
                source_log: 0,
                pointer: KvPointer { log: 0, pos: 0, sz: 0 },
                compact_file_index: 0,
                compacted: 0,
                dropped: 0,
            }),
    {
        Compaction {
            source_log: 0,
            pointer: KvPointer::new(),
            compact_file_index: 0,
            compacted: 0,
            dropped: 0,
        }
    }

    /// Starts reading the old log file `log`; the compacted file being
    /// written goes on.
    pub fn start_file(&mut self, log: u64)
        ensures
            *final(self) == (Compaction { source_log: log, ..*old(self) }),
    {
        self.source_log = log;
    }

    /// What to do with the record `frame` of key `key`.
    pub fn plan(&self, index: &StoreIndex, key: &str, frame: KvPointer) -> (s: CompactStep)
        requires
            compact_step_fits(*self, frame),
        ensures
            s == spec_compact_step(*self, index@, key@, frame),
    {
        match index.get(key) {
            Some(p) => {
                if p == frame {
                    if self.pointer.pos + self.pointer.sz + frame.sz > LOG_FILE_SIZE {
                        CompactStep::Keep {
                            finish: Some(self.compact_file_index),
                            target: KvPointer {
                                log: self.compact_file_index + 1,
                                pos: 0,
                                sz: frame.sz,
                            },
                        }
                    } else {
                        CompactStep::Keep {
                            finish: None,
                            target: KvPointer {
                                log: self.compact_file_index,
                                pos: self.pointer.pos + self.pointer.sz,
                                sz: frame.sz,
                            },
                        }
                    }
                } else {
                    CompactStep::Skip
                }
            },
            None => CompactStep::Skip,
        }
    }

    /// Records the step for the record `frame` of key `key`, once the
    /// record has been copied: it is the step `plan` gives. The index is
    /// left as it is; a kept record's key is pointed at its target when the
    /// pass is over.
    pub fn commit(&mut self, index: &StoreIndex, key: &str, frame: KvPointer) -> (s: CompactStep)
        requires
            compact_step_fits(*old(self), frame),
        ensures
            s == spec_compact_step(*old(self), index@, key@, frame),
            *final(self) == spec_compact_advance(*old(self), index@, key@, frame),
    {
        let s = self.plan(index, key, frame);
        match s {
            CompactStep::Skip => {
                self.dropped = self.dropped + 1;
            },
            CompactStep::Keep { finish, target } => {
                if finish.is_some() {
                    self.compact_file_index = self.compact_file_index + 1;
                }
                self.pointer = target;
                self.compacted = self.compacted + 1;
            },
        }
        s
    }
}

/// The old log files a compaction pass reads: all but the newest, which is
/// being written to; none when there is only that one.
pub open spec fn spec_compaction_sources(entries: Seq<u64>) -> Seq<u64> {
    if entries.len() >= 2 {
        entries.drop_last()
    } else {
        Seq::empty()
    }
}

/// A compaction pass reads every log file but the newest: the sources
/// followed by the newest file are exactly the files there are, so with two
/// or more files at least one is read, and the newest never is.
pub proof fn lemma_sources_are_all_but_the_newest(entries: Seq<u64>)
    ensures
        entries.len() >= 1 ==> spec_compaction_sources(entries).push(entries.last()) == entries,
        entries.len() >= 2 ==> spec_compaction_sources(entries).len() == entries.len() - 1
            >= 1,
        entries.len() <= 1 ==> spec_compaction_sources(entries).len() == 0,
        forall|i: int|
            0 <= i < spec_compaction_sources(entries).len() ==> #[trigger] spec_compaction_sources(
                entries,
            )[i] == entries[i],
{
    if entries.len() >= 1 {
        assert(spec_compaction_sources(entries).push(entries.last()) =~= entries);
    }
}

/// The old log files a compaction pass reads.
pub fn compaction_sources(entries: &Vec<u64>) -> (r: Vec<u64>)
    ensures
        r@ == spec_compaction_sources(entries@),
        entries@.len() >= 1 ==> r@.push(entries@.last()) == entries@,
        entries@.len() == 0 ==> r@.len() == 0,
{
    let mut r: Vec<u64> = Vec::new();
    if entries.len() >= 2 {
        let n = entries.len() - 1;
        let mut i: usize = 0;
        while i < n
            invariant
                i <= n,
                n + 1 == entries@.len(),
                r@ == entries@.subrange(0, i as int),
            decreases n - i,
        {
            r.push(entries[i]);
            i = i + 1;
            assert(r@ =~= entries@.subrange(0, i as int));
        }
        assert(entries@.drop_last() =~= entries@.subrange(0, n as int));
    }
    r
}

/// The stale records left after a pass dropped `dropped` of them.
pub fn remaining_stale(uncompact: u64, dropped: u64) -> (r: u64)
    ensures
        r == (if uncompact >= dropped {
            uncompact - dropped
        } else {
            0
        }),
{
    if uncompact >= dropped {
        uncompact - dropped
    } else {
        0
    }
}

/// The old log files that a finished compaction deletes: those after the
/// first `removed` of them, the number of files it already replaced.
pub open spec fn spec_stale_logs(entries: Seq<u64>, removed: u64) -> Seq<u64> {
    if entries.len() >= removed {
        entries.subrange(removed as int, entries.len() as int)
    } else {
        Seq::empty()
    }
}

/// The old log files that a finished compaction deletes.
pub fn stale_logs(entries: &Vec<u64>, removed: u64) -> (r: Vec<u64>)
    ensures
        r@ == spec_stale_logs(entries@, removed),
        removed <= entries@.len() ==> entries@.take(removed as int) + r@ == entries@,
        removed > entries@.len() ==> r@.len() == 0,
{
    let mut r: Vec<u64> = Vec::new();
    if entries.len() as u64 >= removed {
        let start = removed as usize;
        let mut i = start;
        while i < entries.len()
            invariant
                start <= i <= entries@.len(),
                start == removed,
                r@ == entries@.subrange(start as int, i as int),
            decreases entries@.len() - i,
        {
            r.push(entries[i]);
            i = i + 1;
            assert(r@ =~= entries@.subrange(start as int, i as int));
        }
    }
    r
}

} // verus!

verus! {

// ------------------------------------------------------------------
// Log file names.
// ------------------------------------------------------------------
/// The character of a decimal digit.
pub open spec fn digit_char(d: int) -> char {
    seq!['0', '1', '2', '3', '4', '5', '6', '7', '8', '9'][d]
}

/// The decimal text of a number, without leading zeros.
pub open spec fn spec_decimal(n: nat) -> Seq<char>
    decreases n,
{
    if n < 10 {
        seq![digit_char(n as int)]
    } else {
        spec_decimal(n / 10).push(digit_char((n % 10) as int))
    }
}

/// The name of log file `log` with extension `ext`: the number in decimal,
/// then a dot and the extension unless the extension is empty.
pub open spec fn spec_log_file_name(log: u64, ext: Seq<char>) -> Seq<char> {
    if ext.len() == 0 {
        spec_decimal(log as nat)
    } else {
        spec_decimal(log as nat) + seq!['.'] + ext
    }
}

fn digit_str(d: u64) -> (s: &'static str)
    requires
        d < 10,
    ensures
        s@ == seq![digit_char(d as int)],
{
    proof {
        reveal_strlit("0");
        reveal_strlit("1");
        reveal_strlit("2");
        reveal_strlit("3");
        reveal_strlit("4");
        reveal_strlit("5");
        reveal_strlit("6");
        reveal_strlit("7");
        reveal_strlit("8");
        reveal_strlit("9");
    }
    match d {
        0 => "0",
        1 => "1",
        2 => "2",
        3 => "3",
        4 => "4",
        5 => "5",
        6 => "6",
        7 => "7",
        8 => "8",
        _ => "9",
    }
}

fn decimal(n: u64) -> (s: String)
    ensures
        s@ == spec_decimal(n as nat),
    decreases n,
{
    if n < 10 {
        String::from_str(digit_str(n))
    } else {
        let mut s = decimal(n / 10);
        s.append(digit_str(n % 10));
        s
    }
}

/// The file name of log file `log` with extension `ext`, as a path buffer
/// would form it from the number and the extension.
pub fn log_file_name(log: u64, ext: &str) -> (s: String)
    ensures
        s@ == spec_log_file_name(log, ext@),
{
    let mut s = decimal(log);
    if !ext.is_empty() {
        proof {
            reveal_strlit(".");
        }
        s.append(".");
        s.append(ext);
    }
    s
}

// ------------------------------------------------------------------
// Reading log file names back.
// ------------------------------------------------------------------
pub open spec fn is_digit(c: char) -> bool {
    '0' <= c && c <= '9'
}

/// The value of a text of decimal digits.
pub open spec fn digits_value(s: Seq<char>) -> nat
    decreases s.len(),
{
    if s.len() == 0 {
        0
    } else {
        digits_value(s.drop_last()) * 10 + ((s.last() as int) - ('0' as int)) as nat
    }
}

/// The digits of a number's text: without a leading plus sign.
pub open spec fn unsigned_digits(s: Seq<char>) -> Seq<char> {
    if s.len() > 0 && s[0] == '+' {
        s.drop_first()
    } else {
        s
    }
}

/// What parsing a text as a `u64` gives: an optional plus sign, then at
/// least one decimal digit and nothing else, of a value that fits.
pub open spec fn spec_parse_u64(s: Seq<char>) -> Option<u64> {
    let d = unsigned_digits(s);
    if d.len() > 0 && (forall|i: int| 0 <= i < d.len() ==> is_digit(#[trigger] d[i]))
        && digits_value(d) <= u64::MAX {
        Some(digits_value(d) as u64)
    } else {
        None
    }
}

proof fn lemma_digits_prefix(s: Seq<char>, i: int)
    requires
        0 <= i <= s.len(),
        forall|j: int| 0 <= j < s.len() ==> is_digit(#[trigger] s[j]),
    ensures
        digits_value(s.subrange(0, i)) <= digits_value(s),
    decreases s.len(),
{
    if i < s.len() {
        let t = s.drop_last();
        assert forall|j: int| 0 <= j < t.len() implies is_digit(#[trigger] t[j]) by {
            assert(t[j] == s[j]);
        }
        lemma_digits_prefix(t, i);
        assert(t.subrange(0, i) =~= s.subrange(0, i));
    } else {
        assert(s.subrange(0, i) =~= s);
    }
}

/// The number of a log file from its file stem: `None` for a stem that
/// holds `._` or `.DS_` (files a desktop leaves behind) or that is not a
/// number.
pub fn log_id_from_stem(stem: &str) -> (r: Option<u64>)
    ensures
        r == spec_parse_u64(stem@),
{
    let cs = crate::protocol::chars_of(stem);
    let n = cs.len();
    let mut i: usize = 0;
    while i < n
        invariant
            i <= n,
            n == cs@.len(),
            cs@ == stem@,
        decreases n - i,
    {
        let dotted = cs[i] == '.' && ((i + 1 < n && cs[i + 1] == '_') || (n - i > 3 && cs[i + 1]
            == 'D' && cs[i + 2] == 'S' && cs[i + 3] == '_'));
        if dotted {
            proof {
                let d = unsigned_digits(stem@);
                if stem@.len() > 0 && stem@[0] == '+' {
                    assert(d[i - 1] == '.');
                    assert(!is_digit(d[i - 1]));
                } else {
                    assert(d[i as int] == '.');
                    assert(!is_digit(d[i as int]));
                }
                assert(spec_parse_u64(stem@) is None);
            }
            return None;
        }
        i = i + 1;
    }
    let start: usize = if n > 0 && cs[0] == '+' {
        1
    } else {
        0
    };
    let ghost d = unsigned_digits(stem@);
    assert(d =~= cs@.subrange(start as int, n as int));
    if start >= n {
        return None;
    }
    let mut value: u64 = 0;
    let mut k: usize = start;
    while k < n
        invariant
            start <= k <= n,
            n == cs@.len(),
            d == cs@.subrange(start as int, n as int),
            d == unsigned_digits(stem@),
            cs@ == stem@,
            forall|j: int| start <= j < k ==> is_digit(#[trigger] cs@[j]),
            value == digits_value(cs@.subrange(start as int, k as int)),
        decreases n - k,
    {
        let c = cs[k];
        if !('0' <= c && c <= '9') {
            proof {
                assert(d[k - start] == c);
                assert(!is_digit(d[k - start]));
                assert(spec_parse_u64(stem@) is None);
            }
            return None;
        }
        let next: u128 = (value as u128) * 10 + ((c as u32) - ('0' as u32)) as u128;
        assert(cs@.subrange(start as int, k + 1).drop_last() =~= cs@.subrange(
            start as int,
            k as int,
        ));
        assert(next == digits_value(cs@.subrange(start as int, k + 1)));
        if next > u64::MAX as u128 {
            proof {
                if forall|i: int| 0 <= i < d.len() ==> is_digit(#[trigger] d[i]) {
                    lemma_digits_prefix(d, k + 1 - start);
                    assert(d.subrange(0, k + 1 - start) =~= cs@.subrange(start as int, k + 1));
                    assert(digits_value(d) > u64::MAX);
                }
                assert(spec_parse_u64(stem@) is None);
            }
            return None;
        }
        value = next as u64;
        k = k + 1;
    }
    assert(cs@.subrange(start as int, n as int) == d);
    Some(value)
}

} // verus!

verus! {

// ------------------------------------------------------------------
// Laws of the log.
// ------------------------------------------------------------------
/// The log file written by appending the frames of some record texts.
pub open spec fn frames_file(ps: Seq<Seq<u8>>) -> Seq<u8>
    decreases ps.len(),
{
    if ps.len() == 0 {
        Seq::empty()
    } else {
        spec_frame(ps[0]) + frames_file(ps.drop_first())
    }
}

/// The pointers a writer records for the frames of some record texts, each
/// built from the one before, starting after `prev`.
pub open spec fn written_pointers(prev: KvPointer, ps: Seq<Seq<u8>>) -> Seq<KvPointer>
    decreases ps.len(),
{
    if ps.len() == 0 {
        Seq::empty()
    } else {
        let p = KvPointer {
            log: prev.log,
            pos: (prev.pos + prev.sz) as u64,
            sz: (ps[0].len() + 9) as u64,
        };
        seq![p] + written_pointers(p, ps.drop_first())
    }
}

pub(crate) proof fn lemma_frames_file_len(ps: Seq<Seq<u8>>)
    ensures
        ps.len() > 0 ==> frames_file(ps).len() == ps[0].len() + 9 + frames_file(
            ps.drop_first(),
        ).len(),
{
    if ps.len() > 0 {
        vstd::bytes::lemma_auto_spec_u64_to_from_le_bytes();
    }
}

proof fn lemma_frames_after(pre: Seq<u8>, ps: Seq<Seq<u8>>, log: u64)
    requires
        pre.len() + frames_file(ps).len() <= isize::MAX,
    ensures
        spec_frames(pre + frames_file(ps), log, pre.len() as int) == Some(
            written_pointers(KvPointer { log, pos: pre.len() as u64, sz: 0 }, ps),
        ),
    decreases ps.len(),
{
    let b = pre + frames_file(ps);
    let off = pre.len() as int;
    vstd::bytes::lemma_auto_spec_u64_to_from_le_bytes();
    if ps.len() == 0 {
        assert(b =~= pre);
    } else {
        let p0 = ps[0];
        let rest = ps.drop_first();
        let sz = (p0.len() + 9) as u64;
        let f = spec_frame(p0);
        lemma_frames_file_len(ps);
        assert(frames_file(ps) =~= f + frames_file(rest));
        assert(b.subrange(off, off + 8) =~= spec_u64_to_le_bytes(sz));
        assert(header_size(b, off) == sz);
        let pre2 = pre + f;
        assert(b =~= pre2 + frames_file(rest));
        lemma_frames_after(pre2, rest, log);
        let p = KvPointer { log, pos: off as u64, sz };
        assert(p == KvPointer {
            log,
            pos: (KvPointer { log, pos: pre.len() as u64, sz: 0 }.pos + 0) as u64,
            sz,
        });
        assert(KvPointer { log, pos: pre2.len() as u64, sz: 0 }.pos == (p.pos + p.sz) as u64);
        lemma_written_pointers_shift(p, KvPointer { log, pos: pre2.len() as u64, sz: 0 }, rest);
    }
}

pub(crate) proof fn lemma_written_pointers_shift(a: KvPointer, b: KvPointer, ps: Seq<Seq<u8>>)
    requires
        a.log == b.log,
        (a.pos + a.sz) as u64 == (b.pos + b.sz) as u64,
    ensures
        written_pointers(a, ps) == written_pointers(b, ps),
    decreases ps.len(),
{
}

/// Whether `t` is the start of a frame of `q` that was cut short: a write
/// that stopped before its frame's last byte.
pub open spec fn torn_frame(t: Seq<u8>, q: Seq<u8>) -> bool {
    &&& t.len() < spec_frame(q).len()
    &&& t == spec_frame(q).subrange(0, t.len() as int)
}

proof fn lemma_frames_after_torn(pre: Seq<u8>, ps: Seq<Seq<u8>>, t: Seq<u8>, q: Seq<u8>, log: u64)
    requires
        torn_frame(t, q),
        q.len() + 9 <= isize::MAX,
        pre.len() + frames_file(ps).len() + t.len() <= isize::MAX,
    ensures
        spec_frames(pre + frames_file(ps) + t, log, pre.len() as int) == Some(
            written_pointers(KvPointer { log, pos: pre.len() as u64, sz: 0 }, ps),
        ),
    decreases ps.len(),
{
    let b = pre + frames_file(ps) + t;
    let off = pre.len() as int;
    vstd::bytes::lemma_auto_spec_u64_to_from_le_bytes();
    if ps.len() == 0 {
        assert(b =~= pre + t);
        if off + 8 <= b.len() {
            let f = spec_frame(q);
            assert(b.subrange(off, off + 8) =~= f.subrange(0, 8));
            assert(f.subrange(0, 8) =~= spec_u64_to_le_bytes((q.len() + 9) as u64));
            assert(header_size(b, off) == (q.len() + 9) as u64);
        }
    } else {
        let p0 = ps[0];
        let rest = ps.drop_first();
        let sz = (p0.len() + 9) as u64;
        let f = spec_frame(p0);
        lemma_frames_file_len(ps);
        assert(frames_file(ps) =~= f + frames_file(rest));
        assert(b.subrange(off, off + 8) =~= spec_u64_to_le_bytes(sz));
        assert(header_size(b, off) == sz);
        let pre2 = pre + f;
        assert(b =~= pre2 + frames_file(rest) + t);
        lemma_frames_after_torn(pre2, rest, t, q, log);
        let p = KvPointer { log, pos: off as u64, sz };
        assert(KvPointer { log, pos: pre2.len() as u64, sz: 0 }.pos == (p.pos + p.sz) as u64);
        lemma_written_pointers_shift(p, KvPointer { log, pos: pre2.len() as u64, sz: 0 }, rest);
    }
}

/// Replaying a log file whose last write was cut short gives back the
/// pointers of the frames written in full before it, and nothing of the
/// cut frame: a crash in the middle of a write loses only that write.
pub proof fn lemma_replay_skips_torn_tail(ps: Seq<Seq<u8>>, t: Seq<u8>, q: Seq<u8>, log: u64)
    requires
        torn_frame(t, q),
        q.len() + 9 <= isize::MAX,
        frames_file(ps).len() + t.len() <= isize::MAX,
    ensures
        spec_frames(frames_file(ps) + t, log, 0) == Some(
            written_pointers(KvPointer { log, pos: 0, sz: 0 }, ps),
        ),
{
    let pre = Seq::<u8>::empty();
    assert(pre + frames_file(ps) + t =~= frames_file(ps) + t);
    lemma_frames_after_torn(pre, ps, t, q, log);
}

/// Replaying a log file made of appended frames gives back the pointers the
/// writer recorded for them: the first frame at offset 0, each next one
/// right after the one before.
pub proof fn lemma_replay_finds_written_frames(ps: Seq<Seq<u8>>, log: u64)
    requires
        frames_file(ps).len() <= isize::MAX,
    ensures
        spec_frames(frames_file(ps), log, 0) == Some(
            written_pointers(KvPointer { log, pos: 0, sz: 0 }, ps),
        ),
{
    let pre = Seq::<u8>::empty();
    assert(pre + frames_file(ps) =~= frames_file(ps));
    lemma_frames_after(pre, ps, log);
}

/// The index after a sequence of writes, or `None` if one of them fails.
pub open spec fn spec_writes(
    m: Map<Seq<char>, KvPointer>,
    rs: Seq<(KvCommand, Seq<char>, KvPointer)>,
) -> Option<Map<Seq<char>, KvPointer>>
    decreases rs.len(),
{
    if rs.len() == 0 {
        Some(m)
    } else {
        match spec_apply_write(m, rs[0].0, rs[0].1, rs[0].2) {
            None => None,
            Some((m2, _)) => spec_writes(m2, rs.drop_first()),
        }
    }
}

/// The index after replaying a sequence of records.
pub open spec fn spec_replays(
    m: Map<Seq<char>, KvPointer>,
    rs: Seq<(KvCommand, Seq<char>, KvPointer)>,
) -> Map<Seq<char>, KvPointer>
    decreases rs.len(),
{
    if rs.len() == 0 {
        m
    } else {
        spec_replays(spec_replay(m, rs[0].0, rs[0].1, rs[0].2).0, rs.drop_first())
    }
}

/// Replaying the records of accepted writes rebuilds the index that the
/// writes built.
pub proof fn lemma_replay_rebuilds_index(
    m: Map<Seq<char>, KvPointer>,
    rs: Seq<(KvCommand, Seq<char>, KvPointer)>,
)
    requires
        spec_writes(m, rs) is Some,
    ensures
        spec_replays(m, rs) == spec_writes(m, rs)->0,
    decreases rs.len(),
{
    if rs.len() > 0 {
        let step = spec_apply_write(m, rs[0].0, rs[0].1, rs[0].2)->0;
        let m2 = step.0;
        assert(spec_replay(m, rs[0].0, rs[0].1, rs[0].2).0 == m2);
        lemma_replay_rebuilds_index(m2, rs.drop_first());
    }
}

/// After a set, the key points at the new record and every other key is
/// unchanged; after an accepted removal, the key is gone.
pub proof fn lemma_read_after_write(
    m: Map<Seq<char>, KvPointer>,
    k: Seq<char>,
    p: KvPointer,
    other: Seq<char>,
)
    ensures
        spec_apply_write(m, KvCommand::Put, k, p) matches Some((m2, _)) && m2.contains_key(k)
            && m2[k] == p,
        other != k ==> (spec_apply_write(m, KvCommand::Put, k, p) matches Some((m2, _))
            && m2.contains_key(other) == m.contains_key(other) && m2[other] == m[other]),
        spec_apply_write(m, KvCommand::Rm, k, p) matches Some((m3, _)) ==> !m3.contains_key(k),
        spec_apply_write(m, KvCommand::Rm, k, p) is None <==> !m.contains_key(k),
{
}

/// Compaction moves records but keeps the set of live keys: relocating a
/// live key leaves the keys as they were.
pub proof fn lemma_relocate_keeps_keys(m: Map<Seq<char>, KvPointer>, k: Seq<char>, p: KvPointer)
    requires
        m.contains_key(k),
    ensures
        m.insert(k, p).dom() == m.dom(),
{
    assert(m.insert(k, p).dom() =~= m.dom());
}

proof fn lemma_digit_char(d: int)
    requires
        0 <= d < 10,
    ensures
        is_digit(digit_char(d)),
        (digit_char(d) as int) - ('0' as int) == d,
{
    let t = seq!['0', '1', '2', '3', '4', '5', '6', '7', '8', '9'];
    assert(t[0] == '0' && t[1] == '1' && t[2] == '2' && t[3] == '3' && t[4] == '4');
    assert(t[5] == '5' && t[6] == '6' && t[7] == '7' && t[8] == '8' && t[9] == '9');
}

proof fn lemma_decimal_digits(n: nat)
    ensures
        spec_decimal(n).len() > 0,
        forall|i: int| 0 <= i < spec_decimal(n).len() ==> is_digit(#[trigger] spec_decimal(n)[i]),
        digits_value(spec_decimal(n)) == n,
    decreases n,
{
    if n >= 10 {
        lemma_decimal_digits(n / 10);
        lemma_digit_char((n % 10) as int);
        let s = spec_decimal(n);
        assert(s.drop_last() =~= spec_decimal(n / 10));
        assert forall|i: int| 0 <= i < s.len() implies is_digit(#[trigger] s[i]) by {
            if i < s.len() - 1 {
                assert(s[i] == spec_decimal(n / 10)[i]);
            }
        }
        assert(s.last() == digit_char((n % 10) as int));
        assert(digits_value(s) == digits_value(s.drop_last()) * 10 + ((s.last() as int) - (
        '0' as int)) as nat);
        assert(n == (n / 10) * 10 + n % 10);
    } else {
        lemma_digit_char(n as int);
        let s = spec_decimal(n);
        assert(s.drop_last() =~= Seq::<char>::empty());
        assert(digits_value(s) == digits_value(s.drop_last()) * 10 + ((s.last() as int) - (
        '0' as int)) as nat);
    }
}

/// The file stem of a log file's name reads back as its number.
pub proof fn lemma_log_name_round_trip(log: u64)
    ensures
        spec_parse_u64(spec_decimal(log as nat)) == Some(log),
{
    lemma_decimal_digits(log as nat);
    let s = spec_decimal(log as nat);
    assert(is_digit(s[0]));
    assert(unsigned_digits(s) == s);
}

} // verus!

verus! {

pub(crate) proof fn lemma_written_pointers_len(prev: KvPointer, ps: Seq<Seq<u8>>)
    ensures
        written_pointers(prev, ps).len() == ps.len(),
    decreases ps.len(),
{
    if ps.len() > 0 {
        let p = KvPointer {
            log: prev.log,
            pos: (prev.pos + prev.sz) as u64,
            sz: (ps[0].len() + 9) as u64,
        };
        lemma_written_pointers_len(p, ps.drop_first());
    }
}

proof fn lemma_text_after(pre: Seq<u8>, ps: Seq<Seq<u8>>, log: u64, i: int)
    requires
        0 <= i < ps.len(),
        pre.len() + frames_file(ps).len() <= u64::MAX,
    ensures
        ({
            let b = pre + frames_file(ps);
            let p = written_pointers(KvPointer { log, pos: pre.len() as u64, sz: 0 }, ps)[i];
            &&& p.pos + 8 <= p.pos + p.sz <= b.len()
            &&& b.subrange(p.pos + 8, p.pos + p.sz) == ps[i] + seq![10u8]
        }),
    decreases ps.len(),
{
    let b = pre + frames_file(ps);
    let p0 = ps[0];
    let rest = ps.drop_first();
    let f = spec_frame(p0);
    vstd::bytes::lemma_auto_spec_u64_to_from_le_bytes();
    lemma_frames_file_len(ps);
    assert(frames_file(ps) =~= f + frames_file(rest));
    let start = KvPointer { log, pos: pre.len() as u64, sz: 0 };
    let first = KvPointer { log, pos: pre.len() as u64, sz: (p0.len() + 9) as u64 };
    assert(written_pointers(start, ps) == seq![first] + written_pointers(first, rest));
    if i == 0 {
        assert(b.subrange(first.pos + 8, first.pos + first.sz) =~= p0 + seq![10u8]);
    } else {
        let pre2 = pre + f;
        assert(b =~= pre2 + frames_file(rest));
        let next = KvPointer { log, pos: pre2.len() as u64, sz: 0 };
        lemma_written_pointers_shift(first, next, rest);
        lemma_text_after(pre2, rest, log, i - 1);
        lemma_written_pointers_len(next, rest);
        lemma_written_pointers_len(first, rest);
        assert(written_pointers(start, ps)[i] == written_pointers(next, rest)[i - 1]);
        assert(ps[i] == rest[i - 1]);
    }
}

/// In a log file made of appended frames, the bytes a read plan names for
/// the i-th written pointer are exactly the i-th record text and its
/// newline: a read gives back what the write wrote.
pub proof fn lemma_read_finds_written_text(ps: Seq<Seq<u8>>, log: u64, i: int)
    requires
        0 <= i < ps.len(),
        frames_file(ps).len() <= u64::MAX,
    ensures
        ({
            let b = frames_file(ps);
            let p = written_pointers(KvPointer { log, pos: 0, sz: 0 }, ps)[i];
            &&& p.pos + 8 <= p.pos + p.sz <= b.len()
            &&& b.subrange(p.pos + 8, p.pos + 8 + (p.sz - 8)) == ps[i] + seq![10u8]
        }),
{
    let pre = Seq::<u8>::empty();
    assert(pre + frames_file(ps) =~= frames_file(ps));
    lemma_text_after(pre, ps, log, i);
}

} // verus!

verus! {

/// A record read by a compaction pass: its key, its frame and the frame's
/// bytes as read from its log file.
pub type PassRecord = (Seq<char>, KvPointer, Seq<u8>);

/// Whether every step of a pass fits the machine limits.
pub open spec fn pass_fits(c: Compaction, m: Map<Seq<char>, KvPointer>, rs: Seq<PassRecord>) -> bool
    decreases rs.len(),
{
    rs.len() == 0 || (compact_step_fits(c, rs[0].1) && pass_fits(
        spec_compact_advance(c, m, rs[0].0, rs[0].1),
        m,
        rs.drop_first(),
    ))
}

/// A compaction pass over records: the state it ends in, the compacted files
/// it wrote (file `i` at index `i`; a kept record's frame bytes are appended
/// to its target's file) and the moves it makes (each kept key with its
/// target), given the files and moves before.
pub open spec fn spec_compact_pass(
    c: Compaction,
    m: Map<Seq<char>, KvPointer>,
    rs: Seq<PassRecord>,
    out: Seq<Seq<u8>>,
    moves: Seq<(Seq<char>, KvPointer)>,
) -> (Compaction, Seq<Seq<u8>>, Seq<(Seq<char>, KvPointer)>)
    decreases rs.len(),
{
    if rs.len() == 0 {
        (c, out, moves)
    } else {
        let c2 = spec_compact_advance(c, m, rs[0].0, rs[0].1);
        match spec_compact_step(c, m, rs[0].0, rs[0].1) {
            CompactStep::Skip => spec_compact_pass(c2, m, rs.drop_first(), out, moves),
            CompactStep::Keep { finish, target } => {
                let out1 = if finish is Some {
                    out.push(Seq::empty())
                } else {
                    out
                };
                let out2 = out1.update(target.log as int, out1[target.log as int] + rs[0].2);
                spec_compact_pass(c2, m, rs.drop_first(), out2, moves.push((rs[0].0, target)))
            },
        }
    }
}

/// The compacted files match the pass's state: one file per compacted file
/// number so far, the last as long as the kept records placed in it.
pub open spec fn out_matches(c: Compaction, out: Seq<Seq<u8>>) -> bool {
    &&& out.len() == c.compact_file_index + 1
    &&& out[c.compact_file_index as int].len() == c.pointer.pos + c.pointer.sz
}

/// Every move so far points a key at an exact copy of the frame bytes of a
/// record that the index named as the key's latest.
#[verifier::opaque]
pub open spec fn moves_copy(
    m: Map<Seq<char>, KvPointer>,
    all: Seq<PassRecord>,
    out: Seq<Seq<u8>>,
    moves: Seq<(Seq<char>, KvPointer)>,
) -> bool {
    forall|i: int|
        0 <= i < moves.len() ==> exists|j: int|
            0 <= j < all.len() && #[trigger] all[j].0 == (#[trigger] moves[i]).0 && m.contains_key(
                all[j].0,
            ) && m[all[j].0] == all[j].1 && moves[i].1.log < out.len() && moves[i].1.pos
                + moves[i].1.sz <= out[moves[i].1.log as int].len() && out[moves[i].1.log as int].subrange(
                moves[i].1.pos as int,
                moves[i].1.pos + moves[i].1.sz,
            ) == all[j].2
}

/// Every record among the first `d` that the index names as its key's
/// latest has been moved.
#[verifier::opaque]
pub open spec fn kept_so_far(
    m: Map<Seq<char>, KvPointer>,
    all: Seq<PassRecord>,
    d: int,
    moves: Seq<(Seq<char>, KvPointer)>,
) -> bool {
    forall|j: int|
        0 <= j < d && m.contains_key(#[trigger] all[j].0) && m[all[j].0] == all[j].1 ==> exists|i: int|
            0 <= i < moves.len() && (#[trigger] moves[i]).0 == all[j].0
}

proof fn lemma_pass_step(
    c: Compaction,
    m: Map<Seq<char>, KvPointer>,
    all: Seq<PassRecord>,
    d: int,
    out: Seq<Seq<u8>>,
    moves: Seq<(Seq<char>, KvPointer)>,
)
    requires
        0 <= d <= all.len(),
        out_matches(c, out),
        moves_copy(m, all, out, moves),
        kept_so_far(m, all, d, moves),
        pass_fits(c, m, all.skip(d)),
        forall|j: int| 0 <= j < all.len() ==> (#[trigger] all[j]).2.len() == all[j].1.sz,
    ensures
        ({
            let (c2, out2, moves2) = spec_compact_pass(c, m, all.skip(d), out, moves);
            &&& out_matches(c2, out2)
            &&& moves_copy(m, all, out2, moves2)
            &&& kept_so_far(m, all, all.len() as int, moves2)
        }),
    decreases all.len() - d,
{
    reveal(moves_copy);
    reveal(kept_so_far);
    let rs = all.skip(d);
    if rs.len() > 0 {
        assert(rs.drop_first() =~= all.skip(d + 1));
        assert(rs[0] == all[d]);
        let (k, f, b) = all[d];
        let c2 = spec_compact_advance(c, m, k, f);
        match spec_compact_step(c, m, k, f) {
            CompactStep::Skip => {
                assert(kept_so_far(m, all, d + 1, moves)) by {
                    assert forall|j: int|
                        0 <= j < d + 1 && m.contains_key(#[trigger] all[j].0) && m[all[j].0]
                            == all[j].1 implies exists|i: int|
                        0 <= i < moves.len() && (#[trigger] moves[i]).0 == all[j].0 by {
                        assert(j < d);
                    }
                }
                lemma_pass_step(c2, m, all, d + 1, out, moves);
            },
            CompactStep::Keep { finish, target } => {
                let out1 = if finish is Some {
                    out.push(Seq::empty())
                } else {
                    out
                };
                let out2 = out1.update(target.log as int, out1[target.log as int] + b);
                let moves2 = moves.push((k, target));
                assert(out_matches(c2, out2));
                assert forall|i: int| 0 <= i < moves2.len() implies exists|j: int|
                    0 <= j < all.len() && #[trigger] all[j].0 == (#[trigger] moves2[i]).0
                        && m.contains_key(all[j].0) && m[all[j].0] == all[j].1 && moves2[i].1.log
                        < out2.len() && moves2[i].1.pos + moves2[i].1.sz <= out2[moves2[i].1.log as int].len()
                        && out2[moves2[i].1.log as int].subrange(
                        moves2[i].1.pos as int,
                        moves2[i].1.pos + moves2[i].1.sz,
                    ) == all[j].2 by {
                    if i == moves.len() {
                        assert(moves2[i] == (k, target));
                        assert(out2[target.log as int].subrange(
                            target.pos as int,
                            target.pos + target.sz,
                        ) =~= b);
                        assert(all[d].0 == moves2[i].0);
                    } else {
                        assert(moves2[i] == moves[i]);
                        let j = choose|j: int|
                            0 <= j < all.len() && #[trigger] all[j].0 == (#[trigger] moves[i]).0
                                && m.contains_key(all[j].0) && m[all[j].0] == all[j].1
                                && moves[i].1.log < out.len() && moves[i].1.pos + moves[i].1.sz
                                <= out[moves[i].1.log as int].len() && out[moves[i].1.log as int].subrange(
                                moves[i].1.pos as int,
                                moves[i].1.pos + moves[i].1.sz,
                            ) == all[j].2;
                        let t = moves[i].1;
                        if t.log == target.log {
                            assert(out1[t.log as int] == out[t.log as int]);
                            assert(out2[t.log as int].subrange(t.pos as int, t.pos + t.sz) =~= out[t.log as int].subrange(
                                t.pos as int,
                                t.pos + t.sz,
                            ));
                        } else {
                            assert(out2[t.log as int] == out[t.log as int]);
                        }
                        assert(all[j].0 == moves2[i].0);
                    }
                }
                assert(kept_so_far(m, all, d + 1, moves2)) by {
                    assert forall|j: int|
                        0 <= j < d + 1 && m.contains_key(#[trigger] all[j].0) && m[all[j].0]
                            == all[j].1 implies exists|i: int|
                        0 <= i < moves2.len() && (#[trigger] moves2[i]).0 == all[j].0 by {
                        if j == d {
                            assert(moves2[moves.len() as int].0 == all[j].0);
                        } else {
                            let i = choose|i: int|
                                0 <= i < moves.len() && (#[trigger] moves[i]).0 == all[j].0;
                            assert(moves2[i] == moves[i]);
                        }
                    }
                }
                lemma_pass_step(c2, m, all, d + 1, out2, moves2);
            },
        }
    }
}

/// The index once a pass's moves are applied in order: each moved key
/// points at its new place, a later move of a key overriding an earlier one.
pub open spec fn spec_relocate_all(
    m: Map<Seq<char>, KvPointer>,
    moves: Seq<(Seq<char>, KvPointer)>,
) -> Map<Seq<char>, KvPointer>
    decreases moves.len(),
{
    if moves.len() == 0 {
        m
    } else {
        spec_relocate_all(m.insert(moves[0].0, moves[0].1), moves.drop_first())
    }
}

pub(crate) proof fn lemma_relocate_all(m: Map<Seq<char>, KvPointer>, moves: Seq<(Seq<char>, KvPointer)>)
    ensures
        forall|k: Seq<char>|
            #[trigger] spec_relocate_all(m, moves).contains_key(k) <==> (m.contains_key(k) || exists|
                i: int,
            | 0 <= i < moves.len() && (#[trigger] moves[i]).0 == k),
        forall|k: Seq<char>|
            #[trigger] spec_relocate_all(m, moves).contains_key(k) ==> ((spec_relocate_all(m, moves)[k]
                == m[k] && !exists|i: int| 0 <= i < moves.len() && (#[trigger] moves[i]).0 == k)
                || exists|i: int|
                0 <= i < moves.len() && (#[trigger] moves[i]).0 == k && spec_relocate_all(m, moves)[k]
                    == moves[i].1),
    decreases moves.len(),
{
    if moves.len() > 0 {
        let m1 = m.insert(moves[0].0, moves[0].1);
        let rest = moves.drop_first();
        lemma_relocate_all(m1, rest);
        let m2 = spec_relocate_all(m, moves);
        assert(m2 == spec_relocate_all(m1, rest));
        assert forall|k: Seq<char>| #[trigger] m2.contains_key(k) <==> (m.contains_key(k) || exists|
            i: int,
        | 0 <= i < moves.len() && (#[trigger] moves[i]).0 == k) by {
            if exists|i: int| 0 <= i < rest.len() && (#[trigger] rest[i]).0 == k {
                let i = choose|i: int| 0 <= i < rest.len() && (#[trigger] rest[i]).0 == k;
                assert(moves[i + 1] == rest[i]);
            }
            if exists|i: int| 0 <= i < moves.len() && (#[trigger] moves[i]).0 == k {
                let i = choose|i: int| 0 <= i < moves.len() && (#[trigger] moves[i]).0 == k;
                if i > 0 {
                    assert(rest[i - 1] == moves[i]);
                }
            }
        }
        assert forall|k: Seq<char>| #[trigger] m2.contains_key(k) implies ((m2[k] == m[k] && !exists|
            i: int,
        | 0 <= i < moves.len() && (#[trigger] moves[i]).0 == k) || exists|i: int|
            0 <= i < moves.len() && (#[trigger] moves[i]).0 == k && m2[k] == moves[i].1) by {
            if exists|i: int| 0 <= i < rest.len() && (#[trigger] rest[i]).0 == k && m2[k] == rest[i].1 {
                let i = choose|i: int|
                    0 <= i < rest.len() && (#[trigger] rest[i]).0 == k && m2[k] == rest[i].1;
                assert(moves[i + 1] == rest[i]);
            } else {
                assert(m2[k] == m1[k]);
                assert(!exists|i: int| 0 <= i < rest.len() && (#[trigger] rest[i]).0 == k);
                if k == moves[0].0 {
                    assert(moves[0].0 == k && m2[k] == moves[0].1);
                } else {
                    assert(m2[k] == m[k]);
                    assert forall|i: int| 0 <= i < moves.len() implies (#[trigger] moves[i]).0 != k by {
                        if i > 0 {
                            assert(rest[i - 1] == moves[i]);
                        }
                    }
                }
            }
        }
    }
}

/// Whether the records a pass reads are the frames at their pointers in the
/// old log files.
pub open spec fn read_from(files: Map<u64, Seq<u8>>, rs: Seq<PassRecord>) -> bool {
    forall|j: int|
        0 <= j < rs.len() ==> {
            let f = (#[trigger] rs[j]).1;
            &&& files.contains_key(f.log)
            &&& f.pos + f.sz <= files[f.log].len()
            &&& rs[j].2 == files[f.log].subrange(f.pos as int, f.pos + f.sz)
        }
}

proof fn lemma_relocated_keys(
    m: Map<Seq<char>, KvPointer>,
    rs: Seq<PassRecord>,
    out2: Seq<Seq<u8>>,
    moves: Seq<(Seq<char>, KvPointer)>,
)
    requires
        moves_copy(m, rs, out2, moves),
    ensures
        spec_relocate_all(m, moves).dom() == m.dom(),
{
    reveal(moves_copy);
    let m2 = spec_relocate_all(m, moves);
    lemma_relocate_all(m, moves);
    assert forall|k: Seq<char>| #[trigger] m2.contains_key(k) <==> m.contains_key(k) by {
        if exists|i: int| 0 <= i < moves.len() && (#[trigger] moves[i]).0 == k {
            let i = choose|i: int| 0 <= i < moves.len() && (#[trigger] moves[i]).0 == k;
            assert(0 <= i < moves.len());
        }
    }
    assert(m2.dom() =~= m.dom());
}

proof fn lemma_unread_key_stays(
    m: Map<Seq<char>, KvPointer>,
    rs: Seq<PassRecord>,
    out2: Seq<Seq<u8>>,
    moves: Seq<(Seq<char>, KvPointer)>,
    k: Seq<char>,
)
    requires
        moves_copy(m, rs, out2, moves),
        m.contains_key(k),
        !exists|j: int| 0 <= j < rs.len() && (#[trigger] rs[j]).0 == k && rs[j].1 == m[k],
    ensures
        spec_relocate_all(m, moves)[k] == m[k],
{
    reveal(moves_copy);
    let m2 = spec_relocate_all(m, moves);
    lemma_relocate_all(m, moves);
    assert(m2.contains_key(k));
    if exists|i: int| 0 <= i < moves.len() && (#[trigger] moves[i]).0 == k && m2[k] == moves[i].1 {
        let i = choose|i: int|
            0 <= i < moves.len() && (#[trigger] moves[i]).0 == k && m2[k] == moves[i].1;
        assert(0 <= i < moves.len());
        assert(false);
    }
}

proof fn lemma_subrange_within(s: Seq<u8>, a: int, n: int, d: int)
    requires
        0 <= a,
        0 <= d <= n,
        a + n <= s.len(),
    ensures
        s.subrange(a + d, a + n) == s.subrange(a, a + n).subrange(d, n),
{
    assert(s.subrange(a + d, a + n) =~= s.subrange(a, a + n).subrange(d, n));
}

proof fn lemma_read_key_copied(
    m: Map<Seq<char>, KvPointer>,
    files: Map<u64, Seq<u8>>,
    rs: Seq<PassRecord>,
    out2: Seq<Seq<u8>>,
    moves: Seq<(Seq<char>, KvPointer)>,
    j: int,
)
    requires
        moves_copy(m, rs, out2, moves),
        kept_so_far(m, rs, rs.len() as int, moves),
        read_from(files, rs),
        0 <= j < rs.len(),
        m.contains_key(rs[j].0),
        m[rs[j].0] == rs[j].1,
    ensures
        ({
            let old = m[rs[j].0];
            let t = spec_relocate_all(m, moves)[rs[j].0];
            &&& t.log < out2.len()
            &&& t.sz == old.sz
            &&& t.pos + t.sz <= out2[t.log as int].len()
            &&& out2[t.log as int].subrange(t.pos as int, t.pos + t.sz) == files[old.log].subrange(
                old.pos as int,
                old.pos + old.sz,
            )
            &&& old.sz >= 8 ==> out2[t.log as int].subrange(t.pos + 8, t.pos + t.sz)
                == files[old.log].subrange(old.pos + 8, old.pos + old.sz)
        }),
{
    reveal(moves_copy);
    reveal(kept_so_far);
    let k = rs[j].0;
    let old = m[k];
    let m2 = spec_relocate_all(m, moves);
    lemma_relocate_all(m, moves);
    assert(m2.contains_key(k));
    assert(exists|i: int| 0 <= i < moves.len() && (#[trigger] moves[i]).0 == k);
    let i = choose|i: int| 0 <= i < moves.len() && (#[trigger] moves[i]).0 == k && m2[k] == moves[i].1;
    let j2 = choose|j2: int|
        0 <= j2 < rs.len() && #[trigger] rs[j2].0 == (#[trigger] moves[i]).0 && m.contains_key(
            rs[j2].0,
        ) && m[rs[j2].0] == rs[j2].1 && moves[i].1.log < out2.len() && moves[i].1.pos
            + moves[i].1.sz <= out2[moves[i].1.log as int].len() && out2[moves[i].1.log as int].subrange(
            moves[i].1.pos as int,
            moves[i].1.pos + moves[i].1.sz,
        ) == rs[j2].2;
    let t = m2[k];
    assert(t == moves[i].1);
    assert(rs[j2].1 == old);
    assert(rs[j2].2 == files[old.log].subrange(old.pos as int, old.pos + old.sz));
    assert(rs[j2].2.len() == old.sz);
    assert(out2[t.log as int].subrange(t.pos as int, t.pos + t.sz).len() == t.sz);
    assert(t.sz == old.sz);
    if old.sz >= 8 {
        lemma_subrange_within(out2[t.log as int], t.pos as int, t.sz as int, 8);
        lemma_subrange_within(files[old.log], old.pos as int, old.sz as int, 8);
    }
}

/// Compaction keeps the store's contents. Take a pass over records read
/// from the old log files, and point each key it moves at its new place:
/// the index then holds the same keys; every key whose latest record the
/// pass read points into the compacted files, at an exact copy of that
/// record's frame, so a read of it finds the record text it found before;
/// every other key points where it did.
pub proof fn lemma_compaction_keeps_contents(
    c: Compaction,
    m: Map<Seq<char>, KvPointer>,
    files: Map<u64, Seq<u8>>,
    rs: Seq<PassRecord>,
    out: Seq<Seq<u8>>,
)
    requires
        out_matches(c, out),
        pass_fits(c, m, rs),
        read_from(files, rs),
    ensures
        ({
            let (c2, out2, moves) = spec_compact_pass(c, m, rs, out, Seq::empty());
            let m2 = spec_relocate_all(m, moves);
            &&& out_matches(c2, out2)
            &&& m2.dom() == m.dom()
            &&& forall|k: Seq<char>|
                #![trigger m2[k]]
                m.contains_key(k) && !(exists|j: int|
                    0 <= j < rs.len() && (#[trigger] rs[j]).0 == k && rs[j].1 == m[k]) ==> m2[k]
                    == m[k]
            &&& forall|j: int|
                #![trigger rs[j]]
                0 <= j < rs.len() && m.contains_key(rs[j].0) && m[rs[j].0] == rs[j].1 ==> {
                    let old = m[rs[j].0];
                    let t = m2[rs[j].0];
                    &&& t.log < out2.len()
                    &&& t.sz == old.sz
                    &&& t.pos + t.sz <= out2[t.log as int].len()
                    &&& out2[t.log as int].subrange(t.pos as int, t.pos + t.sz)
                        == files[old.log].subrange(old.pos as int, old.pos + old.sz)
                    &&& old.sz >= 8 ==> out2[t.log as int].subrange(t.pos + 8, t.pos + t.sz)
                        == files[old.log].subrange(old.pos + 8, old.pos + old.sz)
                }
        }),
{
    assert(rs.skip(0) =~= rs);
    assert forall|j: int| 0 <= j < rs.len() implies (#[trigger] rs[j]).2.len() == rs[j].1.sz by {
        let f = rs[j].1;
        assert(rs[j].2 == files[f.log].subrange(f.pos as int, f.pos + f.sz));
    }
    assert(moves_copy(m, rs, out, Seq::empty())) by {
        reveal(moves_copy);
    }
    assert(kept_so_far(m, rs, 0, Seq::empty())) by {
        reveal(kept_so_far);
    }
    lemma_pass_step(c, m, rs, 0, out, Seq::empty());
    let (c2, out2, moves) = spec_compact_pass(c, m, rs, out, Seq::empty());
    let m2 = spec_relocate_all(m, moves);
    lemma_relocated_keys(m, rs, out2, moves);
    assert forall|k: Seq<char>|
        #![trigger m2[k]]
        m.contains_key(k) && !(exists|j: int|
            0 <= j < rs.len() && (#[trigger] rs[j]).0 == k && rs[j].1 == m[k]) implies m2[k]
            == m[k] by {
        lemma_unread_key_stays(m, rs, out2, moves, k);
    }
    assert forall|j: int|
        #![trigger rs[j]]
        0 <= j < rs.len() && m.contains_key(rs[j].0) && m[rs[j].0] == rs[j].1 implies {
            let old = m[rs[j].0];
            let t = m2[rs[j].0];
            &&& t.log < out2.len()
            &&& t.sz == old.sz
            &&& t.pos + t.sz <= out2[t.log as int].len()
            &&& out2[t.log as int].subrange(t.pos as int, t.pos + t.sz) == files[old.log].subrange(
                old.pos as int,
                old.pos + old.sz,
            )
            &&& old.sz >= 8 ==> out2[t.log as int].subrange(t.pos + 8, t.pos + t.sz)
                == files[old.log].subrange(old.pos + 8, old.pos + old.sz)
        } by {
        lemma_read_key_copied(m, files, rs, out2, moves, j);
    }
}

} // verus!

verus! {

/// The number of records that a replay makes stale.
pub open spec fn spec_replay_count(
    m: Map<Seq<char>, KvPointer>,
    rs: Seq<(KvCommand, Seq<char>, KvPointer)>,
) -> nat
    decreases rs.len(),
{
    if rs.len() == 0 {
        0
    } else {
        let step = spec_replay(m, rs[0].0, rs[0].1, rs[0].2);
        (if step.1 {
            1nat
        } else {
            0nat
        }) + spec_replay_count(step.0, rs.drop_first())
    }
}

proof fn lemma_replay_count_bound(
    m: Map<Seq<char>, KvPointer>,
    rs: Seq<(KvCommand, Seq<char>, KvPointer)>,
)
    ensures
        spec_replay_count(m, rs) <= rs.len(),
    decreases rs.len(),
{
    if rs.len() > 0 {
        let step = spec_replay(m, rs[0].0, rs[0].1, rs[0].2);
        lemma_replay_count_bound(step.0, rs.drop_first());
    }
}

/// One record read back from a log file.
pub struct ReplayRecord {
    pub command: KvCommand,
    pub key: String,
    pub pointer: KvPointer,
}

/// The records seen as plain values.
pub open spec fn replay_view(rs: Seq<ReplayRecord>) -> Seq<(KvCommand, Seq<char>, KvPointer)> {
    rs.map_values(|r: ReplayRecord| (r.command, r.key@, r.pointer))
}

impl StoreIndex {
    /// Replays the records of log file `log`, in file order. Gives the
    /// number of records made stale and the pointer after which the file is
    /// appended to: its last record, or its start when it has none.
    pub fn replay_file(&mut self, log: u64, records: &Vec<ReplayRecord>) -> (r: (u64, KvPointer))
        requires
            forall|i: int| 0 <= i < records@.len() ==> (#[trigger] records@[i]).pointer.well_formed(),
        ensures
            final(self)@ == spec_replays(old(self)@, replay_view(records@)),
            r.0 == spec_replay_count(old(self)@, replay_view(records@)),
            r.1 == (if records@.len() == 0 {
                KvPointer { log, pos: 0, sz: 0 }
            } else {
                records@.last().pointer
            }),
    {
        let ghost rs = replay_view(records@);
        let ghost start = self@;
        let mut active = KvPointer { log, pos: 0, sz: 0 };
        let mut stale: u64 = 0;
        let mut i: usize = 0;
        let n = records.len();
        proof {
            lemma_replay_count_bound(start, rs);
            assert(rs.skip(0) =~= rs);
        }
        while i < n
            invariant
                n == records@.len(),
                i <= n,
                stale <= i,
                rs == replay_view(records@),
                forall|j: int| 0 <= j < records@.len() ==> (#[trigger] records@[j]).pointer.well_formed(),
                spec_replays(start, rs) == spec_replays(self@, rs.skip(i as int)),
                spec_replay_count(start, rs) == stale + spec_replay_count(self@, rs.skip(i as int)),
                spec_replay_count(self@, rs.skip(i as int)) <= n - i,
                active == (if i == 0 {
                    KvPointer { log, pos: 0, sz: 0 }
                } else {
                    records@[i - 1].pointer
                }),
            decreases n - i,
        {
            let rec = &records[i];
            let ghost before = self@;
            let ghost tail = rs.skip(i as int);
            assert(tail[0] == (rec.command, rec.key@, rec.pointer));
            assert(tail.drop_first() =~= rs.skip(i + 1));
            proof {
                lemma_replay_count_bound(
                    spec_replay(before, tail[0].0, tail[0].1, tail[0].2).0,
                    tail.drop_first(),
                );
            }
            active = rec.pointer;
            let made_stale = self.replay(rec.command, rec.key.clone(), rec.pointer);
            if made_stale {
                stale = stale + 1;
            }
            i = i + 1;
        }
        proof {
            assert(rs.skip(n as int) =~= Seq::<(KvCommand, Seq<char>, KvPointer)>::empty());
        }
        (stale, active)
    }
}

} // verus!

verus! {

// ------------------------------------------------------------------
// Ordering log files.
// ------------------------------------------------------------------
/// Whether text `a` comes before or equals text `b`, character by
/// character (a prefix comes first).
pub open spec fn name_le(a: Seq<char>, b: Seq<char>) -> bool
    decreases a.len(),
{
    if a.len() == 0 {
        true
    } else if b.len() == 0 {
        false
    } else if (a[0] as u32) < (b[0] as u32) {
        true
    } else if (a[0] as u32) == (b[0] as u32) {
        name_le(a.drop_first(), b.drop_first())
    } else {
        false
    }
}

/// The order of log files: by number, then by file name.
pub open spec fn entry_le(a: (u64, String), b: (u64, String)) -> bool {
    a.0 < b.0 || (a.0 == b.0 && name_le(a.1@, b.1@))
}

/// Whether `a` may stand before `b`: in the order of log files, or in the
/// reverse order.
pub open spec fn entry_before(a: (u64, String), b: (u64, String), reverse: bool) -> bool {
    if reverse {
        entry_le(b, a)
    } else {
        entry_le(a, b)
    }
}

/// Whether log files are in order (or in reverse order).
pub open spec fn files_sorted(s: Seq<(u64, String)>, reverse: bool) -> bool {
    forall|i: int, j: int| 0 <= i < j < s.len() ==> entry_before(s[i], s[j], reverse)
}

proof fn lemma_name_le_total(a: Seq<char>, b: Seq<char>)
    ensures
        name_le(a, b) || name_le(b, a),
    decreases a.len(),
{
    if a.len() > 0 && b.len() > 0 && (a[0] as u32) == (b[0] as u32) {
        lemma_name_le_total(a.drop_first(), b.drop_first());
    }
}

proof fn lemma_name_le_trans(a: Seq<char>, b: Seq<char>, c: Seq<char>)
    requires
        name_le(a, b),
        name_le(b, c),
    ensures
        name_le(a, c),
    decreases a.len(),
{
    if a.len() > 0 && b.len() > 0 && c.len() > 0 && (a[0] as u32) == (b[0] as u32) && (b[0] as u32)
        == (c[0] as u32) {
        lemma_name_le_trans(a.drop_first(), b.drop_first(), c.drop_first());
    }
}

proof fn lemma_before_total(a: (u64, String), b: (u64, String), reverse: bool)
    ensures
        entry_before(a, b, reverse) || entry_before(b, a, reverse),
{
    lemma_name_le_total(a.1@, b.1@);
}

proof fn lemma_before_trans(a: (u64, String), b: (u64, String), c: (u64, String), reverse: bool)
    requires
        entry_before(a, b, reverse),
        entry_before(b, c, reverse),
    ensures
        entry_before(a, c, reverse),
{
    if a.0 == b.0 && b.0 == c.0 {
        if reverse {
            lemma_name_le_trans(c.1@, b.1@, a.1@);
        } else {
            lemma_name_le_trans(a.1@, b.1@, c.1@);
        }
    }
}

fn name_le_exec(a: &str, b: &str) -> (r: bool)
    ensures
        r == name_le(a@, b@),
{
    let x = crate::protocol::chars_of(a);
    let y = crate::protocol::chars_of(b);
    let mut i: usize = 0;
    assert(x@.skip(0) =~= x@);
    assert(y@.skip(0) =~= y@);
    while i < x.len() && i < y.len()
        invariant
            i <= x@.len(),
            i <= y@.len(),
            x@ == a@,
            y@ == b@,
            name_le(a@, b@) == name_le(x@.skip(i as int), y@.skip(i as int)),
        decreases x@.len() - i,
    {
        assert(x@.skip(i as int)[0] == x@[i as int]);
        assert(y@.skip(i as int)[0] == y@[i as int]);
        if (x[i] as u32) != (y[i] as u32) {
            return (x[i] as u32) < (y[i] as u32);
        }
        assert(x@.skip(i as int).drop_first() =~= x@.skip(i + 1));
        assert(y@.skip(i as int).drop_first() =~= y@.skip(i + 1));
        i = i + 1;
    }
    x.len() <= y.len()
}

fn before_exec(a: &(u64, String), b: &(u64, String), reverse: bool) -> (r: bool)
    ensures
        r == entry_before(*a, *b, reverse),
{
    if reverse {
        b.0 < a.0 || (b.0 == a.0 && name_le_exec(b.1.as_str(), a.1.as_str()))
    } else {
        a.0 < b.0 || (a.0 == b.0 && name_le_exec(a.1.as_str(), b.1.as_str()))
    }
}

/// Orders log files, given by number and file name, by number and then by
/// name, or in the reverse of that order.
pub fn sort_log_files(entries: &Vec<(u64, String)>, reverse: bool) -> (r: Vec<(u64, String)>)
    ensures
        r@.to_multiset() == entries@.to_multiset(),
        files_sorted(r@, reverse),
{
    broadcast use vstd::seq_lib::group_to_multiset_ensures;

    let mut r: Vec<(u64, String)> = Vec::new();
    let n = entries.len();
    let mut i: usize = 0;
    assert(entries@.take(0) =~= Seq::<(u64, String)>::empty());
    while i < n
        invariant
            i <= n,
            n == entries@.len(),
            r@.to_multiset() == entries@.take(i as int).to_multiset(),
            files_sorted(r@, reverse),
        decreases n - i,
    {
        let e = (entries[i].0, entries[i].1.clone());
        assert(e == entries@[i as int]);
        let mut p: usize = 0;
        while p < r.len() && before_exec(&r[p], &e, reverse)
            invariant
                p <= r@.len(),
                forall|q: int| 0 <= q < p ==> entry_before(#[trigger] r@[q], e, reverse),
            decreases r@.len() - p,
        {
            p = p + 1;
        }
        let ghost old_r = r@;
        proof {
            if p < old_r.len() {
                lemma_before_total(old_r[p as int], e, reverse);
            }
        }
        r.insert(p, e);
        proof {
            vstd::seq_lib::to_multiset_insert(old_r, p as int, e);
            assert(entries@.take(i + 1) =~= entries@.take(i as int).push(e));
            vstd::seq_lib::to_multiset_build(entries@.take(i as int), e);
            assert forall|a: int, b: int| 0 <= a < b < r@.len() implies entry_before(
                r@[a],
                r@[b],
                reverse,
            ) by {
                if b < p {
                    assert(r@[a] == old_r[a] && r@[b] == old_r[b]);
                } else if b == p {
                    assert(r@[a] == old_r[a]);
                } else if a < p {
                    assert(r@[a] == old_r[a] && r@[b] == old_r[b - 1]);
                    if p < old_r.len() {
                        assert(entry_before(e, old_r[p as int], reverse));
                        if b - 1 > p {
                            lemma_before_trans(e, old_r[p as int], old_r[b - 1], reverse);
                        }
                        lemma_before_trans(old_r[a], e, old_r[b - 1], reverse);
                    }
                } else if a == p {
                    assert(r@[b] == old_r[b - 1]);
                    assert(entry_before(e, old_r[p as int], reverse));
                    if b - 1 > p {
                        lemma_before_trans(e, old_r[p as int], old_r[b - 1], reverse);
                    }
                } else {
                    assert(r@[a] == old_r[a - 1] && r@[b] == old_r[b - 1]);
                }
            }
        }
        i = i + 1;
    }
    assert(entries@.take(n as int) =~= entries@);
    r
}

proof fn lemma_name_le_reflexive(a: Seq<char>)
    ensures
        name_le(a, a),
    decreases a.len(),
{
    if a.len() > 0 {
        lemma_name_le_reflexive(a.drop_first());
    }
}

/// Whether two names have the same characters: neither comes after the
/// other.
pub open spec fn same_name(a: Seq<char>, b: Seq<char>) -> bool {
    name_le(a, b) && name_le(b, a)
}

/// Whether no two log files share both their number and their name.
pub open spec fn distinct_files(s: Seq<(u64, String)>) -> bool {
    forall|i: int, j: int|
        0 <= i < s.len() && 0 <= j < s.len() && i != j ==> !(#[trigger] s[i].0 == #[trigger] s[j].0
            && same_name(s[i].1@, s[j].1@))
}

proof fn lemma_distinct_files_permuted(a: Seq<(u64, String)>, b: Seq<(u64, String)>)
    requires
        distinct_files(a),
        a.to_multiset() == b.to_multiset(),
    ensures
        distinct_files(b),
{
    broadcast use vstd::seq_lib::group_to_multiset_ensures;

    assert(a.no_duplicates()) by {
        assert forall|i: int, j: int|
            0 <= i < a.len() && 0 <= j < a.len() && i != j implies a[i] != a[j] by {
            if a[i] == a[j] {
                lemma_name_le_reflexive(a[i].1@);
                assert(a[i].0 == a[j].0);
            }
        }
    }
    a.lemma_multiset_has_no_duplicates();
    b.lemma_multiset_has_no_duplicates_conv();
    assert forall|i: int, j: int|
        0 <= i < b.len() && 0 <= j < b.len() && i != j implies !(#[trigger] b[i].0
        == #[trigger] b[j].0 && same_name(b[i].1@, b[j].1@)) by {
        assert(b.to_multiset().contains(b[i]));
        assert(b.to_multiset().contains(b[j]));
        let p = choose|p: int| 0 <= p < a.len() && a[p] == b[i];
        let q = choose|q: int| 0 <= q < a.len() && a[q] == b[j];
        assert(b[i] != b[j]);
    }
}

proof fn lemma_sorted_files_unique(x: Seq<(u64, String)>, y: Seq<(u64, String)>)
    requires
        files_sorted(x, false),
        files_sorted(y, false),
        distinct_files(x),
        x.to_multiset() == y.to_multiset(),
    ensures
        x == y,
    decreases x.len(),
{
    broadcast use vstd::seq_lib::group_to_multiset_ensures;

    if x.len() == 0 {
        assert(y.len() == 0) by {
            assert(x.to_multiset().len() == x.len());
            assert(y.to_multiset().len() == y.len());
        }
        assert(x =~= y);
    } else {
        assert(y.len() == x.len()) by {
            assert(x.to_multiset().len() == x.len());
            assert(y.to_multiset().len() == y.len());
        }
        assert(x.to_multiset().contains(y[0]));
        assert(y.to_multiset().contains(x[0]));
        let i = choose|i: int| 0 <= i < x.len() && x[i] == y[0];
        let k = choose|k: int| 0 <= k < y.len() && y[k] == x[0];
        if i != 0 {
            assert(entry_before(x[0], x[i], false));
        }
        if k != 0 {
            assert(entry_before(y[0], y[k], false));
        }
        if i != 0 {
            assert(x[i] == y[0] && y[k] == x[0]);
            assert(same_name(x[0].1@, x[i].1@));
            assert(false);
        }
        assert(x[0] == y[0]);
        let x1 = x.drop_first();
        let y1 = y.drop_first();
        assert(x1.to_multiset() =~= x.to_multiset().remove(x[0])) by {
            assert(x =~= seq![x[0]] + x1);
            vstd::seq_lib::lemma_multiset_commutative(seq![x[0]], x1);
        }
        assert(y1.to_multiset() =~= y.to_multiset().remove(y[0])) by {
            assert(y =~= seq![y[0]] + y1);
            vstd::seq_lib::lemma_multiset_commutative(seq![y[0]], y1);
        }
        assert forall|a: int, b: int| 0 <= a < b < x1.len() implies entry_before(
            x1[a],
            x1[b],
            false,
        ) by {
            assert(x1[a] == x[a + 1] && x1[b] == x[b + 1]);
        }
        assert forall|a: int, b: int| 0 <= a < b < y1.len() implies entry_before(
            y1[a],
            y1[b],
            false,
        ) by {
            assert(y1[a] == y[a + 1] && y1[b] == y[b + 1]);
        }
        assert forall|a: int, b: int|
            0 <= a < x1.len() && 0 <= b < x1.len() && a != b implies !(#[trigger] x1[a].0
            == #[trigger] x1[b].0 && same_name(x1[a].1@, x1[b].1@)) by {
            assert(x1[a] == x[a + 1] && x1[b] == x[b + 1]);
        }
        lemma_sorted_files_unique(x1, y1);
        assert(x =~= seq![x[0]] + x1);
        assert(y =~= seq![y[0]] + y1);
    }
}

/// Sorting log files in reverse order gives the reverse of sorting them in
/// order, when no two of them share both number and name.
pub proof fn lemma_reverse_sort_reverses(
    entries: Seq<(u64, String)>,
    forward: Seq<(u64, String)>,
    backward: Seq<(u64, String)>,
)
    requires
        distinct_files(entries),
        forward.to_multiset() == entries.to_multiset(),
        files_sorted(forward, false),
        backward.to_multiset() == entries.to_multiset(),
        files_sorted(backward, true),
    ensures
        backward == forward.reverse(),
{
    let flipped = backward.reverse();
    backward.lemma_reverse_to_multiset();
    assert forall|a: int, b: int| 0 <= a < b < flipped.len() implies entry_before(
        flipped[a],
        flipped[b],
        false,
    ) by {
        let n = backward.len() as int;
        assert(flipped[a] == backward[n - 1 - a] && flipped[b] == backward[n - 1 - b]);
        assert(entry_before(backward[n - 1 - b], backward[n - 1 - a], true));
    }
    lemma_distinct_files_permuted(entries, forward);
    lemma_sorted_files_unique(forward, flipped);
    assert(backward =~= flipped.reverse());
}

} // verus!

verus! {

// ------------------------------------------------------------------
// Laws of the store as a whole.
// ------------------------------------------------------------------
/// A write of the store: its command, its key and the JSON text of its
/// record.
pub type Write = (KvCommand, Seq<char>, Seq<u8>);

/// The record texts of some writes.
pub open spec fn write_texts(ws: Seq<Write>) -> Seq<Seq<u8>> {
    ws.map_values(|w: Write| w.2)
}

/// The index records of the writes appended to log file `log`: each with
/// the pointer the writer recorded for it.
pub open spec fn file_records(log: u64, ws: Seq<Write>) -> Seq<(KvCommand, Seq<char>, KvPointer)> {
    Seq::new(
        ws.len(),
        |j: int|
            (ws[j].0, ws[j].1, written_pointers(KvPointer { log, pos: 0, sz: 0 }, write_texts(ws))[j]),
    )
}

/// The index records of a history of writes: log file `i` holds the writes
/// `files[i]`, and the files were written one after the other.
pub open spec fn history_records(files: Seq<Seq<Write>>) -> Seq<(KvCommand, Seq<char>, KvPointer)>
    decreases files.len(),
{
    if files.len() == 0 {
        Seq::empty()
    } else {
        history_records(files.drop_last()) + file_records((files.len() - 1) as u64, files.last())
    }
}

/// The position of the last record of key `k`, if any.
pub open spec fn last_write(rs: Seq<(KvCommand, Seq<char>, KvPointer)>, k: Seq<char>) -> Option<int>
    decreases rs.len(),
{
    if rs.len() == 0 {
        None
    } else if rs.last().1 == k {
        Some(rs.len() - 1)
    } else {
        last_write(rs.drop_last(), k)
    }
}

proof fn lemma_writes_push(
    m: Map<Seq<char>, KvPointer>,
    rs: Seq<(KvCommand, Seq<char>, KvPointer)>,
    r: (KvCommand, Seq<char>, KvPointer),
)
    ensures
        spec_writes(m, rs.push(r)) == match spec_writes(m, rs) {
            None => None,
            Some(m2) => match spec_apply_write(m2, r.0, r.1, r.2) {
                None => None,
                Some((m3, _)) => Some(m3),
            },
        },
    decreases rs.len(),
{
    if rs.len() == 0 {
        let e = Seq::<(KvCommand, Seq<char>, KvPointer)>::empty();
        assert(rs.push(r).drop_first() =~= e);
        assert(rs.push(r)[0] == r);
        assert(spec_writes(m, rs) == Some(m));
        match spec_apply_write(m, r.0, r.1, r.2) {
            None => {},
            Some((m3, _)) => {
                assert(spec_writes(m3, e) == Some(m3));
            },
        }
    } else {
        assert(rs.push(r).drop_first() =~= rs.drop_first().push(r));
        assert(rs.push(r)[0] == rs[0]);
        match spec_apply_write(m, rs[0].0, rs[0].1, rs[0].2) {
            None => {},
            Some((m2, _)) => {
                lemma_writes_push(m2, rs.drop_first(), r);
            },
        }
    }
}

proof fn lemma_last_write_decides(
    m0: Map<Seq<char>, KvPointer>,
    rs: Seq<(KvCommand, Seq<char>, KvPointer)>,
    k: Seq<char>,
)
    requires
        spec_writes(m0, rs) is Some,
    ensures
        ({
            let m = spec_writes(m0, rs)->0;
            match last_write(rs, k) {
                None => m.contains_key(k) == m0.contains_key(k) && m[k] == m0[k],
                Some(j) => 0 <= j < rs.len() && rs[j].1 == k && (if rs[j].0 == KvCommand::Put {
                    m.contains_key(k) && m[k] == rs[j].2
                } else {
                    !m.contains_key(k)
                }),
            }
        }),
    decreases rs.len(),
{
    if rs.len() > 0 {
        let front = rs.drop_last();
        let r = rs.last();
        assert(front.push(r) =~= rs);
        lemma_writes_push(m0, front, r);
        lemma_last_write_decides(m0, front, k);
    }
}

proof fn lemma_written_pointers_log(prev: KvPointer, ps: Seq<Seq<u8>>, j: int)
    requires
        0 <= j < ps.len(),
    ensures
        written_pointers(prev, ps)[j].log == prev.log,
    decreases ps.len(),
{
    lemma_written_pointers_len(prev, ps);
    let p = KvPointer {
        log: prev.log,
        pos: (prev.pos + prev.sz) as u64,
        sz: (ps[0].len() + 9) as u64,
    };
    if j > 0 {
        lemma_written_pointers_log(p, ps.drop_first(), j - 1);
    }
}

proof fn lemma_history_position(files: Seq<Seq<Write>>, n: int)
    requires
        0 <= n < history_records(files).len(),
        files.len() <= u64::MAX,
    ensures
        exists|i: int, j: int|
            0 <= i < files.len() && 0 <= j < files[i].len() && history_records(files)[n]
                == #[trigger] file_records(i as u64, files[i])[j],
    decreases files.len(),
{
    let front = files.drop_last();
    let pre = history_records(front);
    if n < pre.len() {
        lemma_history_position(front, n);
        let (i, j) = choose|i: int, j: int|
            0 <= i < front.len() && 0 <= j < front[i].len() && pre[n]
                == #[trigger] file_records(i as u64, front[i])[j];
        assert(front[i] == files[i]);
        assert(history_records(files)[n] == pre[n]);
    } else {
        let i = files.len() - 1;
        let j = n - pre.len();
        assert(history_records(files)[n] == file_records(i as u64, files[i])[j]);
    }
}

/// What a read finds after a history of accepted writes: a key whose last
/// write is a set points into the log file of that write, and the bytes its
/// read plan names are exactly that write's record text and newline; a key
/// never written, or whose last write removed it, is absent (a read of it
/// gives no value).
pub proof fn lemma_get_after_writes(files: Seq<Seq<Write>>, k: Seq<char>)
    requires
        files.len() <= u64::MAX,
        forall|i: int| 0 <= i < files.len() ==> frames_file(write_texts(#[trigger] files[i])).len() <= u64::MAX,
        spec_writes(Map::empty(), history_records(files)) is Some,
    ensures
        ({
            let hist = history_records(files);
            let m = spec_writes(Map::empty(), hist)->0;
            &&& last_write(hist, k) is None ==> !m.contains_key(k)
            &&& last_write(hist, k) matches Some(n) ==> (hist[n].0 == KvCommand::Put
                <==> m.contains_key(k))
            &&& m.contains_key(k) ==> exists|i: int, j: int|
                0 <= i < files.len() && 0 <= j < files[i].len() && hist[last_write(hist, k)->0]
                    == #[trigger] file_records(i as u64, files[i])[j] && files[i][j].0
                    == KvCommand::Put && files[i][j].1 == k && m[k].log == i && m[k].pos + 8
                    <= m[k].pos + m[k].sz <= frames_file(write_texts(files[i])).len() && frames_file(
                    write_texts(files[i]),
                ).subrange(m[k].pos + 8, m[k].pos + m[k].sz) == files[i][j].2 + seq![10u8]
        }),
{
    let hist = history_records(files);
    let m = spec_writes(Map::empty(), hist)->0;
    lemma_last_write_decides(Map::empty(), hist, k);
    if m.contains_key(k) {
        let n = last_write(hist, k)->0;
        lemma_history_position(files, n);
        let (i, j) = choose|i: int, j: int|
            0 <= i < files.len() && 0 <= j < files[i].len() && hist[n]
                == #[trigger] file_records(i as u64, files[i])[j];
        let ws = files[i];
        let texts = write_texts(ws);
        let start = KvPointer { log: i as u64, pos: 0, sz: 0 };
        lemma_written_pointers_len(start, texts);
        lemma_written_pointers_log(start, texts, j);
        lemma_read_finds_written_text(texts, i as u64, j);
        assert(texts[j] == ws[j].2);
        assert(m[k] == written_pointers(start, texts)[j]);
    }
}

/// Reopening a store after a history of accepted writes: reading each log
/// file finds the pointers the writer recorded, and replaying the records
/// rebuilds the index the writes built.
pub proof fn lemma_reopen_after_writes(files: Seq<Seq<Write>>)
    requires
        files.len() <= u64::MAX,
        forall|i: int| 0 <= i < files.len() ==> frames_file(write_texts(#[trigger] files[i])).len() <= isize::MAX,
        spec_writes(Map::empty(), history_records(files)) is Some,
    ensures
        forall|i: int|
            0 <= i < files.len() ==> spec_frames(
                frames_file(write_texts(#[trigger] files[i])),
                i as u64,
                0,
            ) == Some(written_pointers(KvPointer { log: i as u64, pos: 0, sz: 0 }, write_texts(files[i]))),
        spec_replays(Map::empty(), history_records(files)) == spec_writes(
            Map::empty(),
            history_records(files),
        )->0,
{
    assert forall|i: int| 0 <= i < files.len() implies spec_frames(
        frames_file(write_texts(#[trigger] files[i])),
        i as u64,
        0,
    ) == Some(written_pointers(KvPointer { log: i as u64, pos: 0, sz: 0 }, write_texts(files[i]))) by {
        lemma_replay_finds_written_frames(write_texts(files[i]), i as u64);
    }
    lemma_replay_rebuilds_index(Map::empty(), history_records(files));
}

} // verus!
