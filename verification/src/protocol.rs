//! The line protocol between client and server.
//!
//! A message is a JSON string whose contents are a two-letter tag, the key
//! and, for a set request, a double tab and the value:
//! `"stkey\t\tvalue"`, `"gtkey"`, `"rmkey"`, and the replies `"se"`, `"ge"`,
//! `"gnKey not found"`, `"re..."`, and the shutdown request `"sd..."`.

use crate::error::KvError;
use crate::Result;
use vstd::prelude::*;
use vstd::string::*;

verus! {

broadcast use vstd::string::group_string_axioms;

/// The kind of a message: requests, and the replies to them.
#[derive(Clone, Copy, Debug, PartialEq, Eq, Structural)]
pub enum StreamCommand {
    /// Set request, or its success reply.
    St,
    /// Get request, or its reply carrying the value.
    Gt,
    /// Remove request, or its success reply.
    Rm,
    /// Set failed.
    Se,
    /// Get failed.
    Ge,
    /// Get found no value.
    Gn,
    /// Remove failed.
    Re,
    /// Shutdown request.
    Sd,
}

/// One message of the protocol.
#[derive(Clone, Debug)]
pub struct KvStream {
    pub command: StreamCommand,
    pub key: String,
    pub value: Option<String>,
}

/// A message seen as plain values.
pub struct StreamView {
    pub command: StreamCommand,
    pub key: Seq<char>,
    pub value: Option<Seq<char>>,
}

/// Why a text cannot be read as a message.
#[derive(Clone, Copy, Debug, PartialEq, Eq, Structural)]
pub enum Malformed {
    /// The first piece is shorter than two bytes, or its second byte is not
    /// the end of a character.
    HeadSplit,
    /// A set request carries no value.
    MissingValue,
}

pub open spec fn option_view(v: Option<String>) -> Option<Seq<char>> {
    match v {
        Some(s) => Some(s@),
        None => None,
    }
}

impl View for KvStream {
    type V = StreamView;

    open spec fn view(&self) -> StreamView {
        StreamView { command: self.command, key: self.key@, value: option_view(self.value) }
    }
}

impl KvStream {
    /// A message made of its three parts.
    pub fn build_from(command: StreamCommand, key: String, value: Option<String>) -> (s: Self)
        ensures
            s.command == command,
            s.key == key,
            s.value == value,
    {
        KvStream { command, key, value }
    }
}

// ------------------------------------------------------------------
// The text of a message.
// ------------------------------------------------------------------
pub open spec fn tab() -> char {
    '\t'
}

/// The two-letter tag written for a command.
pub open spec fn spec_tag(c: StreamCommand) -> Seq<char> {
    match c {
        StreamCommand::St => seq!['s', 't'],
        StreamCommand::Gt => seq!['g', 't'],
        StreamCommand::Rm => seq!['r', 'm'],
        StreamCommand::Se => seq!['s', 'e'],
        StreamCommand::Ge => seq!['g', 'e'],
        StreamCommand::Gn => seq!['g', 'n'],
        StreamCommand::Re => seq!['r', 'e'],
        StreamCommand::Sd => seq!['s', 'd'],
    }
}

/// The text of a message: `None` for a set request without a value.
pub open spec fn spec_wire(m: StreamView) -> Option<Seq<char>> {
    match m.command {
        StreamCommand::St => match m.value {
            Some(v) => Some(seq!['s', 't'] + m.key + seq![tab(), tab()] + v),
            None => None,
        },
        _ => Some(spec_tag(m.command) + m.key),
    }
}

/// Whether two tabs start at index `i`.
pub open spec fn pair_at(v: Seq<char>, i: int) -> bool {
    0 <= i && i + 1 < v.len() && v[i] == tab() && v[i + 1] == tab()
}

/// The index of the first double tab at or after `start`, or the length of
/// the text when there is none.
pub open spec fn find_pair(v: Seq<char>, start: int) -> int
    decreases v.len() - start,
{
    if start < 0 || start + 1 >= v.len() {
        v.len() as int
    } else if pair_at(v, start) {
        start
    } else {
        find_pair(v, start + 1)
    }
}

/// A double tab found by `find_pair` lies inside the text, at or after the
/// start of the search.
pub proof fn lemma_find_pair(v: Seq<char>, start: int)
    requires
        0 <= start <= v.len(),
    ensures
        start <= find_pair(v, start) <= v.len(),
        find_pair(v, start) < v.len() ==> pair_at(v, find_pair(v, start)),
        forall|j: int| start <= j < find_pair(v, start) ==> !pair_at(v, j),
    decreases v.len() - start,
{
    if start + 1 >= v.len() {
    } else if pair_at(v, start) {
    } else {
        lemma_find_pair(v, start + 1);
    }
}

/// The number of bytes that UTF-8 takes for a character.
pub open spec fn utf8_width(c: char) -> int {
    if (c as u32) < 0x80 {
        1
    } else if (c as u32) < 0x800 {
        2
    } else if (c as u32) < 0x10000 {
        3
    } else {
        4
    }
}

/// Whether the first two bytes of `p` end on a character boundary.
pub open spec fn head_in_bounds(p: Seq<char>) -> bool {
    &&& p.len() >= 1
    &&& (utf8_width(p[0]) == 2 || (utf8_width(p[0]) == 1 && p.len() >= 2 && utf8_width(p[1])
        == 1))
}

/// The command named by a two-letter tag.
pub open spec fn spec_command_of(a: char, b: char) -> Option<StreamCommand> {
    if a == 's' && b == 't' {
        Some(StreamCommand::St)
    } else if a == 'g' && b == 't' {
        Some(StreamCommand::Gt)
    } else if a == 'r' && b == 'm' {
        Some(StreamCommand::Rm)
    } else if a == 's' && b == 'e' {
        Some(StreamCommand::Se)
    } else if a == 'g' && b == 'e' {
        Some(StreamCommand::Ge)
    } else if a == 'g' && b == 'n' {
        Some(StreamCommand::Gn)
    } else if a == 'r' && b == 'e' {
        Some(StreamCommand::Re)
    } else if a == 's' && b == 'd' {
        Some(StreamCommand::Sd)
    } else {
        None
    }
}

/// The command named by the head of the first piece, if any.
pub open spec fn spec_head_command(p: Seq<char>) -> Option<StreamCommand> {
    if p.len() >= 2 {
        spec_command_of(p[0], p[1])
    } else {
        None
    }
}

/// Why a text cannot be read as a message, if it cannot.
pub open spec fn spec_wire_fault(v: Seq<char>) -> Option<Malformed> {
    let e = find_pair(v, 0);
    let p = v.subrange(0, e);
    if !head_in_bounds(p) {
        Some(Malformed::HeadSplit)
    } else if spec_head_command(p) == Some(StreamCommand::St) && e >= v.len() {
        Some(Malformed::MissingValue)
    } else {
        None
    }
}

/// The message that a text reads as.
///
/// The text is cut at its double tabs. A first piece that starts with a known
/// tag gives the command, and the rest of that piece gives the key; a set
/// request takes the second piece as its value. A first piece with an unknown
/// tag reads as a get request for the empty key.
pub open spec fn spec_decode(v: Seq<char>) -> StreamView {
    let e = find_pair(v, 0);
    let p = v.subrange(0, e);
    match spec_head_command(p) {
        None => StreamView { command: StreamCommand::Gt, key: Seq::empty(), value: None },
        Some(StreamCommand::St) => StreamView {
            command: StreamCommand::St,
            key: p.subrange(2, p.len() as int),
            value: Some(v.subrange(e + 2, find_pair(v, e + 2))),
        },
        Some(c) => StreamView { command: c, key: p.subrange(2, p.len() as int), value: None },
    }
}

// ------------------------------------------------------------------
// Writing and reading the text of a message.
// ------------------------------------------------------------------
pub(crate) fn chars_of(v: &str) -> (cs: Vec<char>)
    ensures
        cs@ == v@,
{
    let mut cs: Vec<char> = Vec::new();
    for c in iter: v.chars()
        invariant
            cs@ == iter.seq().take(iter.index() as int),
    {
        cs.push(c);
    }
    cs
}

fn tag_of(c: StreamCommand) -> (t: &'static str)
    ensures
        t@ == spec_tag(c),
{
    proof {
        reveal_strlit("st");
        reveal_strlit("gt");
        reveal_strlit("rm");
        reveal_strlit("se");
        reveal_strlit("ge");
        reveal_strlit("gn");
        reveal_strlit("re");
        reveal_strlit("sd");
    }
    match c {
        StreamCommand::St => "st",
        StreamCommand::Gt => "gt",
        StreamCommand::Rm => "rm",
        StreamCommand::Se => "se",
        StreamCommand::Ge => "ge",
        StreamCommand::Gn => "gn",
        StreamCommand::Re => "re",
        StreamCommand::Sd => "sd",
    }
}

impl KvStream {
    /// The text of this message; `None` for a set request without a value,
    /// which cannot be written.
    pub fn to_wire(&self) -> (r: Option<String>)
        ensures
            match r {
                Some(s) => spec_wire(self@) == Some(s@),
                None => spec_wire(self@) is None,
            },
    {
        match self.command {
            StreamCommand::St => match &self.value {
                Some(v) => {
                    proof {
                        reveal_strlit("\t\t");
                    }
                    let mut s = String::from_str(tag_of(StreamCommand::St));
                    s.append(self.key.as_str());
                    s.append("\t\t");
                    s.append(v.as_str());
                    Some(s)
                },
                None => None,
            },
            other => {
                let mut s = String::from_str(tag_of(other));
                s.append(self.key.as_str());
                Some(s)
            },
        }
    }
}

/// The index of the first double tab at or after `start`, or the length.
fn find_pair_exec(cs: &Vec<char>, start: usize) -> (e: usize)
    requires
        start <= cs@.len(),
    ensures
        e == find_pair(cs@, start as int),
        start <= e <= cs@.len(),
{
    let n = cs.len();
    let mut j = start;
    while j < n && j + 1 < n
        invariant
            start <= j <= n,
            n == cs@.len(),
            find_pair(cs@, start as int) == find_pair(cs@, j as int),
            j == start || j + 1 <= n,
        decreases n - j,
    {
        if cs[j] == '\t' && cs[j + 1] == '\t' {
            return j;
        }
        j = j + 1;
    }
    n
}

fn width_of(c: char) -> (w: u8)
    ensures
        w == utf8_width(c),
{
    let u = c as u32;
    if u < 0x80 {
        1
    } else if u < 0x800 {
        2
    } else if u < 0x10000 {
        3
    } else {
        4
    }
}

fn command_of(a: char, b: char) -> (r: Option<StreamCommand>)
    ensures
        r == spec_command_of(a, b),
{
    if a == 's' && b == 't' {
        Some(StreamCommand::St)
    } else if a == 'g' && b == 't' {
        Some(StreamCommand::Gt)
    } else if a == 'r' && b == 'm' {
        Some(StreamCommand::Rm)
    } else if a == 's' && b == 'e' {
        Some(StreamCommand::Se)
    } else if a == 'g' && b == 'e' {
        Some(StreamCommand::Ge)
    } else if a == 'g' && b == 'n' {
        Some(StreamCommand::Gn)
    } else if a == 'r' && b == 'e' {
        Some(StreamCommand::Re)
    } else if a == 's' && b == 'd' {
        Some(StreamCommand::Sd)
    } else {
        None
    }
}

/// Why a text cannot be read as a message, or `None` when it can.
pub fn wire_fault(v: &str) -> (r: Option<Malformed>)
    ensures
        r == spec_wire_fault(v@),
{
    let cs = chars_of(v);
    let e = find_pair_exec(&cs, 0);
    let ghost p = cs@.subrange(0, e as int);
    let head_ok = e >= 1 && (width_of(cs[0]) == 2 || (width_of(cs[0]) == 1 && e >= 2 && width_of(
        cs[1],
    ) == 1));
    assert(head_ok == head_in_bounds(p));
    if !head_ok {
        return Some(Malformed::HeadSplit);
    }
    let head = if e >= 2 {
        command_of(cs[0], cs[1])
    } else {
        None
    };
    assert(head == spec_head_command(p));
    if head == Some(StreamCommand::St) && e >= cs.len() {
        Some(Malformed::MissingValue)
    } else {
        None
    }
}

/// Reads a text as a message.
pub fn decode_stream(v: &str) -> (m: KvStream)
    requires
        spec_wire_fault(v@) is None,
    ensures
        m@ == spec_decode(v@),
{
    let cs = chars_of(v);
    let n = cs.len();
    let e = find_pair_exec(&cs, 0);
    let ghost p = cs@.subrange(0, e as int);
    let head = if e >= 2 {
        command_of(cs[0], cs[1])
    } else {
        None
    };
    assert(head == spec_head_command(p));
    proof {
        lemma_find_pair(cs@, 0);
    }
    match head {
        None => {
            let m = KvStream::build_from(StreamCommand::Gt, String::new(), None);
            assert(m@.key =~= Seq::<char>::empty());
            m
        },
        Some(c) => {
            let key = String::from_str(v.substring_char(2, e));
            assert(key@ =~= p.subrange(2, p.len() as int));
            if let StreamCommand::St = c {
                let f = find_pair_exec(&cs, e + 2);
                let value = String::from_str(v.substring_char(e + 2, f));
                KvStream::build_from(c, key, Some(value))
            } else {
                KvStream::build_from(c, key, None)
            }
        },
    }
}

// ------------------------------------------------------------------
// The JSON layer.
// ------------------------------------------------------------------
/// The external type of serde_json's errors.
#[verifier::external_type_specification]
#[verifier::external_body]
pub struct ExJsonError(serde_json::Error);

/// Whether bytes start and end with a double quote, the two being distinct.
pub open spec fn quoted(b: Seq<u8>) -> bool {
    b.len() >= 2 && b[0] == 34u8 && b[b.len() - 1] == 34u8
}

/// What `serde_json::to_vec` gives for a string: `None` when it fails.
pub uninterp spec fn json_str_encoding(s: Seq<char>) -> Option<Seq<u8>>;

/// What `serde_json::from_slice::<String>` gives for bytes: `None` when it
/// fails.
pub uninterp spec fn json_str_decoding(b: Seq<u8>) -> Option<Seq<char>>;

/// Calls `serde_json::to_vec` on a string. Claimed: it succeeds (a string
/// is written as an escaped JSON string into a growing byte vector, and
/// neither can fail), the result is the named encoding of the string,
/// reading those bytes back as a JSON string gives the string again, and the
/// bytes hold no newline (control characters are written as escapes) and
/// start and end with a double quote (the string is written between two).
#[verifier::external_body]
fn json_encode_str(s: &str) -> (r: std::result::Result<Vec<u8>, serde_json::Error>)
    ensures
        r is Ok,
        r is Ok <==> json_str_encoding(s@) is Some,
        r matches Ok(b) ==> Some(b@) == json_str_encoding(s@),
        r matches Ok(b) ==> json_str_decoding(b@) == Some(s@),
        r matches Ok(b) ==> !b@.contains(10u8),
        r matches Ok(b) ==> quoted(b@),
{
    serde_json::to_vec(s)
}

/// Calls `serde_json::from_slice::<String>` on bytes. Claimed: the result is
/// the named decoding of the bytes.
#[verifier::external_body]
fn json_decode_str(b: &[u8]) -> (r: std::result::Result<String, serde_json::Error>)
    ensures
        r is Ok <==> json_str_decoding(b@) is Some,
        r matches Ok(s) ==> Some(s@) == json_str_decoding(b@),
{
    serde_json::from_slice::<String>(b)
}

/// The bytes that `create_protocol_stream` gives for a message.
pub open spec fn spec_create(m: StreamView) -> std::result::Result<Seq<u8>, KvError> {
    match spec_wire(m) {
        None => Err(KvError::Serde),
        Some(w) => match json_str_encoding(w) {
            Some(b) => Ok(b),
            None => Err(KvError::Serde),
        },
    }
}

/// Writes a message as JSON bytes.
pub fn create_protocol_stream(kv_stream: &KvStream) -> (r: Result<Vec<u8>>)
    ensures
        match r {
            Ok(b) => spec_create(kv_stream@) == Ok::<Seq<u8>, KvError>(b@),
            Err(e) => spec_create(kv_stream@) == Err::<Seq<u8>, KvError>(e),
        },
        r is Ok <==> spec_wire(kv_stream@) is Some,
        r matches Ok(b) ==> json_str_decoding(b@) == spec_wire(kv_stream@),
        r matches Ok(b) ==> !b@.contains(10u8),
        r matches Ok(b) ==> quoted(b@),
{
    match kv_stream.to_wire() {
        None => Err(KvError::Serde),
        Some(w) => match json_encode_str(w.as_str()) {
            Ok(b) => Ok(b),
            Err(_) => Err(KvError::Serde),
        },
    }
}

/// What `try_parse_protocol_stream` gives for bytes.
pub open spec fn spec_parse(b: Seq<u8>) -> std::result::Result<
    std::result::Result<StreamView, KvError>,
    Malformed,
> {
    match json_str_decoding(b) {
        None => Ok(Err(KvError::Serde)),
        Some(s) => match spec_wire_fault(s) {
            Some(f) => Err(f),
            None => Ok(Ok(spec_decode(s))),
        },
    }
}

/// Reads JSON bytes as a message; the decoded text must be readable.
pub fn parse_protocol_stream(kv_stream: &[u8]) -> (r: Result<KvStream>)
    requires
        json_str_decoding(kv_stream@) matches Some(s) ==> spec_wire_fault(s) is None,
    ensures
        match r {
            Ok(m) => spec_parse(kv_stream@) == Ok::<_, Malformed>(
                Ok::<StreamView, KvError>(m@),
            ),
            Err(e) => spec_parse(kv_stream@) == Ok::<_, Malformed>(Err::<StreamView, KvError>(e)),
        },
{
    match json_decode_str(kv_stream) {
        Err(_) => Err(KvError::Serde),
        Ok(s) => Ok(decode_stream(s.as_str())),
    }
}

/// Reads JSON bytes as a message, reporting a text that cannot be read.
pub fn try_parse_protocol_stream(kv_stream: &[u8]) -> (r: std::result::Result<
    Result<KvStream>,
    Malformed,
>)
    ensures
        match r {
            Ok(Ok(m)) => spec_parse(kv_stream@) == Ok::<_, Malformed>(
                Ok::<StreamView, KvError>(m@),
            ),
            Ok(Err(e)) => spec_parse(kv_stream@) == Ok::<_, Malformed>(
                Err::<StreamView, KvError>(e),
            ),
            Err(f) => spec_parse(kv_stream@) == Err::<
                std::result::Result<StreamView, KvError>,
                Malformed,
            >(f),
        },
{
    match json_decode_str(kv_stream) {
        Err(_) => Ok(Err(KvError::Serde)),
        Ok(s) => match wire_fault(s.as_str()) {
            Some(f) => Err(f),
            None => Ok(parse_protocol_stream(kv_stream)),
        },
    }
}

} // verus!

verus! {

/// Whether no double tab occurs in a text.
pub open spec fn tab_pair_free(s: Seq<char>) -> bool {
    forall|i: int| !#[trigger] pair_at(s, i)
}

/// The messages that survive being written and read again: a value exactly
/// on set requests, no double tab in the key or the value, and no tab
/// closing the key of a set request.
pub open spec fn round_trips(m: StreamView) -> bool {
    &&& (m.value is Some <==> m.command == StreamCommand::St)
    &&& tab_pair_free(m.key)
    &&& m.command == StreamCommand::St ==> (m.key.len() == 0 || m.key.last() != tab())
    &&& m.value matches Some(v) ==> tab_pair_free(v)
}

/// `find_pair` stops at the first double tab, or at the end.
pub proof fn lemma_find_pair_is(v: Seq<char>, s: int, e: int)
    requires
        0 <= s <= e <= v.len(),
        forall|j: int| s <= j < e ==> !pair_at(v, j),
        e == v.len() || pair_at(v, e),
    ensures
        find_pair(v, s) == e,
    decreases e - s,
{
    if s + 1 >= v.len() {
        if e < v.len() {
            assert(pair_at(v, e));
        }
    } else if pair_at(v, s) {
    } else {
        lemma_find_pair_is(v, s + 1, e);
    }
}

/// Reading the text of a message gives the message back.
pub proof fn lemma_wire_round_trip(m: StreamView)
    requires
        round_trips(m),
    ensures
        spec_wire(m) matches Some(w) && spec_wire_fault(w) is None && spec_decode(w) == m,
{
    let w = spec_wire(m)->0;
    if m.command == StreamCommand::St {
        let v = m.value->0;
        let e: int = m.key.len() as int + 2;
        assert(w =~= seq!['s', 't'] + m.key + seq![tab(), tab()] + v);
        assert forall|j: int| 0 <= j < e implies !pair_at(w, j) by {
            if j >= 2 && j + 1 < e {
                assert(w[j] == m.key[j - 2] && w[j + 1] == m.key[j - 1]);
                assert(!pair_at(m.key, j - 2));
            }
        }
        assert(pair_at(w, e));
        lemma_find_pair_is(w, 0, e);
        assert forall|j: int| e + 2 <= j < w.len() implies !pair_at(w, j) by {
            if j + 1 < w.len() {
                assert(w[j] == v[j - e - 2] && w[j + 1] == v[j - e - 1]);
                assert(!pair_at(v, j - e - 2));
            }
        }
        lemma_find_pair_is(w, e + 2, w.len() as int);
        let p = w.subrange(0, e);
        assert(p.subrange(2, p.len() as int) =~= m.key);
        assert(w.subrange(e + 2, w.len() as int) =~= v);
    } else {
        assert(w =~= spec_tag(m.command) + m.key);
        assert forall|j: int| 0 <= j < w.len() implies !pair_at(w, j) by {
            if j >= 2 && j + 1 < w.len() {
                assert(w[j] == m.key[j - 2] && w[j + 1] == m.key[j - 1]);
                assert(!pair_at(m.key, j - 2));
            }
        }
        lemma_find_pair_is(w, 0, w.len() as int);
        let p = w.subrange(0, w.len() as int);
        assert(p.subrange(2, p.len() as int) =~= m.key);
    }
}

/// Bytes written for a message read back as that message.
pub proof fn lemma_protocol_round_trip(m: StreamView, b: Seq<u8>)
    requires
        round_trips(m),
        json_str_decoding(b) == spec_wire(m),
    ensures
        spec_parse(b) == Ok::<_, Malformed>(Ok::<StreamView, KvError>(m)),
{
    lemma_wire_round_trip(m);
}

} // verus!
