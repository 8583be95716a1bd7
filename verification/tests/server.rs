use kvs::error::KvError;
use kvs::protocol::{create_protocol_stream, parse_protocol_stream, KvStream, StreamCommand};
use kvs::server::{dispatch, get_reply, remove_reply, serve_request, set_reply, Dispatch, EngineOp};
use kvs::thread_pool::ThreadPool;
use kvs::{KvsEngine, KvsServer, Result};
use std::collections::HashMap;
use std::sync::{Arc, Mutex};

#[derive(Clone)]
struct MemEngine {
    map: Arc<Mutex<HashMap<String, String>>>,
    broken: bool,
}

impl MemEngine {
    fn new(broken: bool) -> Self {
        MemEngine { map: Arc::new(Mutex::new(HashMap::new())), broken }
    }
}

impl KvsEngine for MemEngine {
    fn set(&self, key: String, value: String) -> Result<()> {
        if self.broken {
            return Err(KvError::Io);
        }
        self.map.lock().unwrap().insert(key, value);
        Ok(())
    }

    fn get(&self, key: String) -> Result<Option<String>> {
        if self.broken {
            return Err(KvError::Io);
        }
        Ok(self.map.lock().unwrap().get(&key).cloned())
    }

    fn remove(&self, key: String) -> Result<()> {
        if self.broken {
            return Err(KvError::Io);
        }
        match self.map.lock().unwrap().remove(&key) {
            Some(_) => Ok(()),
            None => Err(KvError::Log),
        }
    }
}

struct InlinePool;

impl ThreadPool for InlinePool {
    fn new(_threads: u32) -> Result<Self> {
        Ok(InlinePool)
    }

    fn spawn<F>(&self, job: F)
    where
        F: FnOnce() + Send + 'static,
    {
        job()
    }
}

fn msg(c: StreamCommand, key: &str, value: Option<&str>) -> KvStream {
    KvStream::build_from(c, key.to_string(), value.map(|v| v.to_string()))
}

fn reply_of(bytes: &[u8]) -> KvStream {
    parse_protocol_stream(bytes).unwrap()
}

#[test]
fn replies_to_set() {
    assert_eq!(set_reply(true).command, StreamCommand::St);
    assert_eq!(set_reply(true).key, "");
    assert_eq!(set_reply(true).value, Some(String::new()));
    assert_eq!(set_reply(false).command, StreamCommand::Se);
}

#[test]
fn replies_to_get() {
    let r = get_reply(Ok(Some("v".to_string())));
    assert_eq!((r.command, r.key.as_str()), (StreamCommand::Gt, "v"));
    let r = get_reply(Ok(None));
    assert_eq!((r.command, r.key.as_str()), (StreamCommand::Gn, "Key not found"));
    let r = get_reply(Err(KvError::Io));
    assert_eq!((r.command, r.key.as_str()), (StreamCommand::Ge, ""));
}

#[test]
fn replies_to_remove() {
    let r = remove_reply(true);
    assert_eq!((r.command, r.key.as_str()), (StreamCommand::Rm, ""));
    let r = remove_reply(false);
    assert_eq!((r.command, r.key.as_str()), (StreamCommand::Re, "Key not found"));
}

#[test]
fn serve_set_get_remove() {
    let e = MemEngine::new(false);
    let r = reply_of(&serve_request(&e, msg(StreamCommand::St, "k", Some("v"))).unwrap());
    assert_eq!(r.command, StreamCommand::St);
    let r = reply_of(&serve_request(&e, msg(StreamCommand::Gt, "k", None)).unwrap());
    assert_eq!((r.command, r.key.as_str()), (StreamCommand::Gt, "v"));
    let r = reply_of(&serve_request(&e, msg(StreamCommand::Rm, "k", None)).unwrap());
    assert_eq!(r.command, StreamCommand::Rm);
    let r = reply_of(&serve_request(&e, msg(StreamCommand::Gt, "k", None)).unwrap());
    assert_eq!((r.command, r.key.as_str()), (StreamCommand::Gn, "Key not found"));
    let r = reply_of(&serve_request(&e, msg(StreamCommand::Rm, "k", None)).unwrap());
    assert_eq!((r.command, r.key.as_str()), (StreamCommand::Re, "Key not found"));
}

#[test]
fn serve_reports_engine_failures() {
    let e = MemEngine::new(true);
    let r = reply_of(&serve_request(&e, msg(StreamCommand::St, "k", Some("v"))).unwrap());
    assert_eq!(r.command, StreamCommand::Se);
    let r = reply_of(&serve_request(&e, msg(StreamCommand::Gt, "k", None)).unwrap());
    assert_eq!(r.command, StreamCommand::Ge);
}

#[test]
fn serve_special_requests() {
    let e = MemEngine::new(false);
    assert_eq!(serve_request(&e, msg(StreamCommand::St, "k", None)).unwrap_err(), KvError::Network);
    assert_eq!(serve_request(&e, msg(StreamCommand::Sd, "sd", Some("x"))).unwrap_err(), KvError::Thread);
    assert_eq!(serve_request(&e, msg(StreamCommand::Se, "", None)).unwrap(), Vec::<u8>::new());
    assert_eq!(serve_request(&e, msg(StreamCommand::Gn, "", None)).unwrap(), Vec::<u8>::new());
}

#[test]
fn served_bytes_are_the_created_reply() {
    let e = MemEngine::new(false);
    e.set("k".to_string(), "v".to_string()).unwrap();
    let b = serve_request(&e, msg(StreamCommand::Gt, "k", None)).unwrap();
    assert_eq!(b, create_protocol_stream(&get_reply(Ok(Some("v".to_string())))).unwrap());
    assert_eq!(b, b"\"gtv\"".to_vec());
    let b = serve_request(&e, msg(StreamCommand::Rm, "k", None)).unwrap();
    assert_eq!(b, b"\"rm\"".to_vec());
    assert_eq!(create_protocol_stream(&set_reply(true)).unwrap(), b"\"st\\t\\t\"".to_vec());
    let b = serve_request(&e, msg(StreamCommand::St, "k", Some("a\nb"))).unwrap();
    assert_eq!(b, b"\"st\\t\\t\"".to_vec());
    assert!(!serve_request(&e, msg(StreamCommand::Gt, "k", None)).unwrap().contains(&b'\n'));
}

#[test]
fn server_spawns_on_its_pool() {
    let e = MemEngine::new(false);
    let server = KvsServer::new(e, InlinePool).unwrap();
    let store = server.store().clone();
    server.spawn(move || {
        store.set("x".to_string(), "1".to_string()).unwrap();
    });
    assert_eq!(server.store().get("x".to_string()).unwrap(), Some("1".to_string()));
}

#[test]
fn dispatch_of_requests() {
    match dispatch(msg(StreamCommand::St, "k", Some("v"))) {
        Dispatch::Call(EngineOp::Put(k, v)) => assert_eq!((k.as_str(), v.as_str()), ("k", "v")),
        _ => panic!("set dispatch"),
    }
    match dispatch(msg(StreamCommand::Gt, "k", None)) {
        Dispatch::Call(EngineOp::Get(k)) => assert_eq!(k, "k"),
        _ => panic!("get dispatch"),
    }
    match dispatch(msg(StreamCommand::Rm, "k", None)) {
        Dispatch::Call(EngineOp::Remove(k)) => assert_eq!(k, "k"),
        _ => panic!("remove dispatch"),
    }
    assert!(matches!(dispatch(msg(StreamCommand::St, "k", None)), Dispatch::Fail(KvError::Network)));
    assert!(matches!(dispatch(msg(StreamCommand::Sd, "sd", Some("x"))), Dispatch::Fail(KvError::Thread)));
    assert!(matches!(dispatch(msg(StreamCommand::Gn, "", None)), Dispatch::Nothing));
}
