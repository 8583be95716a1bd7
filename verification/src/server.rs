//! The server: answers each request with the reply the engine's outcome
//! calls for.

use crate::engine::KvsEngine;
use crate::error::KvError;
use crate::client::{shutdown_key, spec_client_action, spec_request, ActionView};
use crate::kvs::KvCommand;
use crate::protocol::{create_protocol_stream, quoted, spec_create, KvStream, StreamCommand, StreamView};
use crate::thread_pool::ThreadPool;
use crate::Result;
use vstd::prelude::*;
use vstd::string::*;

verus! {

/// A server over an engine and a pool of workers.
pub struct KvsServer<S, T> where S: KvsEngine, T: ThreadPool {
    store: S,
    thread: T,
}

impl<S, T> KvsServer<S, T> where S: KvsEngine, T: ThreadPool {
    pub closed spec fn spec_store(&self) -> S {
        self.store
    }

    pub closed spec fn spec_thread(&self) -> T {
        self.thread
    }

    /// A server over `store`, running its jobs on `thread`.
    pub fn new(store: S, thread: T) -> (r: Result<Self>)
        ensures
            r matches Ok(s) && s.spec_store() == store && s.spec_thread() == thread,
    {
        Ok(KvsServer { store, thread })
    }

    /// The engine of the server.
    pub fn store(&self) -> (s: &S)
        ensures
            *s == self.spec_store(),
    {
        &self.store
    }

    /// Hands a job to the server's pool: the pool's `spawn` is called with
    /// the job itself.
    pub fn spawn<F>(&self, job: F) where F: FnOnce() + Send + 'static
        ensures
            call_ensures(T::spawn::<F>, (&self.spec_thread(), job), ()),
    {
        self.thread.spawn(job);
    }
}

/// A reply with an empty key and no value.
pub open spec fn bare(c: StreamCommand) -> StreamView {
    StreamView { command: c, key: Seq::empty(), value: None }
}

/// The text sent with replies that report a missing key.
pub open spec fn key_not_found() -> Seq<char> {
    seq!['K', 'e', 'y', ' ', 'n', 'o', 't', ' ', 'f', 'o', 'u', 'n', 'd']
}

/// The reply to a successful set: a set message with an empty key and an
/// empty value, so that it can be written.
pub open spec fn set_done() -> StreamView {
    StreamView { command: StreamCommand::St, key: Seq::empty(), value: Some(Seq::empty()) }
}

/// The reply to a set request, by whether the engine stored the value.
pub open spec fn spec_set_reply(ok: bool) -> StreamView {
    if ok {
        set_done()
    } else {
        bare(StreamCommand::Se)
    }
}

/// The reply to a get request, by the engine's answer.
pub open spec fn spec_get_reply(outcome: std::result::Result<Option<Seq<char>>, KvError>) -> StreamView {
    match outcome {
        Ok(Some(v)) => StreamView { command: StreamCommand::Gt, key: v, value: None },
        Ok(None) => StreamView { command: StreamCommand::Gn, key: key_not_found(), value: None },
        Err(_) => bare(StreamCommand::Ge),
    }
}

/// The reply to a remove request, by whether the engine removed the key.
pub open spec fn spec_remove_reply(ok: bool) -> StreamView {
    if ok {
        bare(StreamCommand::Rm)
    } else {
        StreamView { command: StreamCommand::Re, key: key_not_found(), value: None }
    }
}

/// An operation asked of the engine.
pub enum EngineOp {
    /// Set a key to a value.
    Put(String, String),
    /// Read a key.
    Get(String),
    /// Remove a key.
    Remove(String),
}

/// An engine operation seen as plain values.
pub enum OpView {
    Put(Seq<char>, Seq<char>),
    Get(Seq<char>),
    Remove(Seq<char>),
}

impl View for EngineOp {
    type V = OpView;

    open spec fn view(&self) -> OpView {
        match self {
            EngineOp::Put(k, v) => OpView::Put(k@, v@),
            EngineOp::Get(k) => OpView::Get(k@),
            EngineOp::Remove(k) => OpView::Remove(k@),
        }
    }
}

/// What the server does with a request: ask the engine, fail, or answer
/// with nothing.
pub enum Dispatch {
    Call(EngineOp),
    Fail(KvError),
    Nothing,
}

/// A dispatch seen as plain values.
pub enum DispatchView {
    Call(OpView),
    Fail(KvError),
    Nothing,
}

impl View for Dispatch {
    type V = DispatchView;

    open spec fn view(&self) -> DispatchView {
        match self {
            Dispatch::Call(op) => DispatchView::Call(op@),
            Dispatch::Fail(e) => DispatchView::Fail(*e),
            Dispatch::Nothing => DispatchView::Nothing,
        }
    }
}

/// A set request with a value sets the key; without one it is a network
/// error. Get and remove requests read and remove their key. A shutdown
/// request stops the connection with `KvError::Thread` and asks the engine
/// nothing. Replies received as requests are answered with nothing.
pub open spec fn spec_dispatch(m: StreamView) -> DispatchView {
    match m.command {
        StreamCommand::St => match m.value {
            Some(v) => DispatchView::Call(OpView::Put(m.key, v)),
            None => DispatchView::Fail(KvError::Network),
        },
        StreamCommand::Gt => DispatchView::Call(OpView::Get(m.key)),
        StreamCommand::Rm => DispatchView::Call(OpView::Remove(m.key)),
        StreamCommand::Sd => DispatchView::Fail(KvError::Thread),
        _ => DispatchView::Nothing,
    }
}

/// What the server does with a request.
pub fn dispatch(request: KvStream) -> (d: Dispatch)
    ensures
        d@ == spec_dispatch(request@),
{
    match request.command {
        StreamCommand::St => match request.value {
            Some(v) => Dispatch::Call(EngineOp::Put(request.key, v)),
            None => Dispatch::Fail(KvError::Network),
        },
        StreamCommand::Gt => Dispatch::Call(EngineOp::Get(request.key)),
        StreamCommand::Rm => Dispatch::Call(EngineOp::Remove(request.key)),
        StreamCommand::Sd => Dispatch::Fail(KvError::Thread),
        _ => Dispatch::Nothing,
    }
}

pub open spec fn bytes_view(r: Result<Vec<u8>>) -> std::result::Result<Seq<u8>, KvError> {
    match r {
        Ok(b) => Ok(b@),
        Err(e) => Err(e),
    }
}

pub open spec fn answer_view(
    r: Result<Option<String>>,
) -> std::result::Result<Option<Seq<char>>, KvError> {
    match r {
        Ok(Some(v)) => Ok(Some(v@)),
        Ok(None) => Ok(None),
        Err(e) => Err(e),
    }
}

fn bare_reply(c: StreamCommand) -> (m: KvStream)
    ensures
        m@ == bare(c),
{
    let m = KvStream::build_from(c, String::new(), None);
    assert(m@.key =~= Seq::<char>::empty());
    m
}

fn not_found_reply(c: StreamCommand) -> (m: KvStream)
    ensures
        m@ == (StreamView { command: c, key: key_not_found(), value: None }),
{
    proof {
        reveal_strlit("Key not found");
        assert("Key not found"@ =~= key_not_found());
    }
    KvStream::build_from(c, String::from_str("Key not found"), None)
}

/// The reply to a set request: success, or failure of the engine.
pub fn set_reply(ok: bool) -> (m: KvStream)
    ensures
        m@ == spec_set_reply(ok),
{
    if ok {
        let m = KvStream::build_from(StreamCommand::St, String::new(), Some(String::new()));
        assert(m@.key =~= Seq::<char>::empty());
        m
    } else {
        bare_reply(StreamCommand::Se)
    }
}

/// The reply to a get request: the value, a missing key, or failure of the
/// engine.
pub fn get_reply(outcome: Result<Option<String>>) -> (m: KvStream)
    ensures
        m@ == spec_get_reply(answer_view(outcome)),
{
    match outcome {
        Ok(Some(v)) => KvStream::build_from(StreamCommand::Gt, v, None),
        Ok(None) => not_found_reply(StreamCommand::Gn),
        Err(_) => bare_reply(StreamCommand::Ge),
    }
}

/// The reply to a remove request: success, or a missing key.
pub fn remove_reply(ok: bool) -> (m: KvStream)
    ensures
        m@ == spec_remove_reply(ok),
{
    if ok {
        bare_reply(StreamCommand::Rm)
    } else {
        not_found_reply(StreamCommand::Re)
    }
}

/// The reply bytes the server sends for a request, given what the engine
/// answered: for a set whether it stored the value, for a get its answer,
/// for a remove whether it removed the key. Fails where the dispatch fails,
/// and gives no bytes where it asks nothing.
pub open spec fn spec_served(
    m: StreamView,
    stored: bool,
    answer: std::result::Result<Option<Seq<char>>, KvError>,
    removed: bool,
) -> std::result::Result<Seq<u8>, KvError> {
    match spec_dispatch(m) {
        DispatchView::Call(OpView::Put(_, _)) => spec_create(spec_set_reply(stored)),
        DispatchView::Call(OpView::Get(_)) => spec_create(spec_get_reply(answer)),
        DispatchView::Call(OpView::Remove(_)) => spec_create(spec_remove_reply(removed)),
        DispatchView::Fail(e) => Err(e),
        DispatchView::Nothing => Ok(Seq::empty()),
    }
}

/// Serves one request: dispatches it, asks the engine the dispatched
/// operation with its key (and value), and gives the bytes of the reply to
/// what that call answered, to send before the newline.
pub fn serve_request<E: KvsEngine>(kvs: &E, request: KvStream) -> (r: Result<Vec<u8>>)
    ensures
        exists|stored: bool, answer: std::result::Result<Option<Seq<char>>, KvError>, removed: bool|
            bytes_view(r) == #[trigger] spec_served(request@, stored, answer, removed),
        match spec_dispatch(request@) {
            DispatchView::Fail(e) => r == Err::<Vec<u8>, KvError>(e),
            DispatchView::Nothing => r matches Ok(b) && b@.len() == 0,
            DispatchView::Call(OpView::Put(k, v)) => exists|key: String, value: String, a: Result<()>|
                #[trigger] call_ensures(E::set, (kvs, key, value), a) && key@ == k && value@ == v
                    && bytes_view(r) == spec_create(spec_set_reply(a is Ok)),
            DispatchView::Call(OpView::Get(k)) => exists|key: String, a: Result<Option<String>>|
                #[trigger] call_ensures(E::get, (kvs, key), a) && key@ == k && bytes_view(r)
                    == spec_create(spec_get_reply(answer_view(a))),
            DispatchView::Call(OpView::Remove(k)) => exists|key: String, a: Result<()>|
                #[trigger] call_ensures(E::remove, (kvs, key), a) && key@ == k && bytes_view(r)
                    == spec_create(spec_remove_reply(a is Ok)),
        },
        r matches Ok(b) ==> !b@.contains(10u8),
        r matches Ok(b) ==> b@.len() == 0 || quoted(b@),
{
    let ghost m = request@;
    match dispatch(request) {
        Dispatch::Call(op) => match op {
            EngineOp::Put(key, value) => {
                let ghost kg = key;
                let ghost vg = value;
                let a = kvs.set(key, value);
                assert(call_ensures(E::set, (kvs, kg, vg), a));
                let ok = a.is_ok();
                let r = create_protocol_stream(&set_reply(ok));
                assert(bytes_view(r) == spec_served(m, ok, Err(KvError::Io), false));
                r
            },
            EngineOp::Get(key) => {
                let ghost kg = key;
                let answer = kvs.get(key);
                assert(call_ensures(E::get, (kvs, kg), answer));
                let ghost a = answer_view(answer);
                let r = create_protocol_stream(&get_reply(answer));
                assert(bytes_view(r) == spec_served(m, false, a, false));
                r
            },
            EngineOp::Remove(key) => {
                let ghost kg = key;
                let a = kvs.remove(key);
                assert(call_ensures(E::remove, (kvs, kg), a));
                let ok = a.is_ok();
                let r = create_protocol_stream(&remove_reply(ok));
                assert(bytes_view(r) == spec_served(m, false, Err(KvError::Io), ok));
                r
            },
        },
        Dispatch::Fail(e) => {
            let r = Err(e);
            assert(bytes_view(r) == spec_served(m, false, Err(KvError::Io), false));
            r
        },
        Dispatch::Nothing => {
            let r = Ok(Vec::new());
            assert(bytes_view(r) =~= spec_served(m, false, Err(KvError::Io), false));
            r
        },
    }
}

/// A command line reaches the engine as itself: the request the client
/// builds for it makes the server ask the engine for that command on that
/// key (and value), except a set of the shutdown value under the shutdown
/// key, which stops the connection without asking the engine anything.
pub proof fn lemma_request_reaches_engine(
    c: KvCommand,
    key: Seq<char>,
    v: Seq<char>,
    shutdown: Seq<char>,
)
    ensures
        spec_request(KvCommand::Get, key, None, shutdown) is Some && spec_dispatch(
            spec_request(KvCommand::Get, key, None, shutdown)->0,
        ) == DispatchView::Call(OpView::Get(key)),
        spec_request(KvCommand::Rm, key, None, shutdown) is Some && spec_dispatch(
            spec_request(KvCommand::Rm, key, None, shutdown)->0,
        ) == DispatchView::Call(OpView::Remove(key)),
        !(key == shutdown_key() && v == shutdown) ==> (spec_request(
            KvCommand::Put,
            key,
            Some(v),
            shutdown,
        ) is Some && spec_dispatch(spec_request(KvCommand::Put, key, Some(v), shutdown)->0)
            == DispatchView::Call(OpView::Put(key, v))),
        key == shutdown_key() && v == shutdown ==> (spec_request(
            KvCommand::Put,
            key,
            Some(v),
            shutdown,
        ) is Some && spec_dispatch(spec_request(KvCommand::Put, key, Some(v), shutdown)->0)
            == DispatchView::Fail(KvError::Thread)),
        spec_request(KvCommand::Put, key, None, shutdown) is None,
        c != KvCommand::Put ==> spec_request(c, key, Some(v), shutdown) is None,
{
}

/// What the client shows for each answer of the engine: the value read is
/// printed; a key that is not there is printed as "Key not found"; a failed
/// read or set is reported with no text, a failed removal with "Key not
/// found"; a set or removal that succeeded shows nothing.
pub proof fn lemma_client_shows_the_answer(v: Seq<char>, e: KvError)
    ensures
        spec_client_action(spec_get_reply(Ok(Some(v)))) == ActionView::Print(v),
        spec_client_action(spec_get_reply(Ok(None))) == ActionView::Print(key_not_found()),
        spec_client_action(spec_get_reply(Err(e))) == ActionView::Fail(Seq::empty()),
        spec_client_action(spec_set_reply(true)) == ActionView::Quiet,
        spec_client_action(spec_set_reply(false)) == ActionView::Fail(Seq::empty()),
        spec_client_action(spec_remove_reply(true)) == ActionView::Quiet,
        spec_client_action(spec_remove_reply(false)) == ActionView::Fail(key_not_found()),
{
}

} // verus!
