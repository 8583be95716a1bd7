use kvs::client::{build_request, client_action, ClientAction, SHUTDOWN_SERVER_CMD};
use kvs::kvs::KvCommand;
use kvs::protocol::{KvStream, StreamCommand};
use kvs::thread_pool::ThreadPool;
use kvs::{KvsClient, Result};

struct InlinePool;

impl ThreadPool for InlinePool {
    fn new(_threads: u32) -> Result<Self> {
        Ok(InlinePool)
    }

    fn spawn<F>(&self, job: F)
    where
        F: FnOnce() + Send + 'static,
    {
        job()
    }
}

#[test]
fn requests_for_command_lines() {
    let r = build_request(KvCommand::Put, "k".into(), Some("v".into())).unwrap();
    assert_eq!((r.command, r.key.as_str(), r.value.as_deref()), (StreamCommand::St, "k", Some("v")));
    let r = build_request(KvCommand::Get, "k".into(), None).unwrap();
    assert_eq!((r.command, r.key.as_str(), r.value.as_deref()), (StreamCommand::Gt, "k", None));
    let r = build_request(KvCommand::Rm, "k".into(), None).unwrap();
    assert_eq!((r.command, r.key.as_str(), r.value.as_deref()), (StreamCommand::Rm, "k", None));
}

#[test]
fn mismatched_command_lines_give_no_request() {
    assert!(build_request(KvCommand::Put, "k".into(), None).is_none());
    assert!(build_request(KvCommand::Get, "k".into(), Some("v".into())).is_none());
    assert!(build_request(KvCommand::Rm, "k".into(), Some("v".into())).is_none());
}

#[test]
fn shutdown_request() {
    let r = build_request(KvCommand::Put, "sd".into(), Some(SHUTDOWN_SERVER_CMD.into())).unwrap();
    assert_eq!(r.command, StreamCommand::Sd);
    let r = build_request(KvCommand::Put, "sd".into(), Some("other".into())).unwrap();
    assert_eq!(r.command, StreamCommand::St);
    let r = build_request(KvCommand::Put, "x".into(), Some(SHUTDOWN_SERVER_CMD.into())).unwrap();
    assert_eq!(r.command, StreamCommand::St);
}

#[test]
fn actions_for_replies() {
    let m = |c, k: &str| KvStream::build_from(c, k.to_string(), None);
    assert_eq!(client_action(m(StreamCommand::Gt, "v")), ClientAction::Print("v".into()));
    assert_eq!(client_action(m(StreamCommand::Gn, "Key not found")), ClientAction::Print("Key not found".into()));
    assert_eq!(client_action(m(StreamCommand::Re, "Key not found")), ClientAction::Fail("Key not found".into()));
    assert_eq!(client_action(m(StreamCommand::Se, "")), ClientAction::Fail("".into()));
    assert_eq!(client_action(m(StreamCommand::Ge, "")), ClientAction::Fail("".into()));
    assert_eq!(client_action(m(StreamCommand::St, "")), ClientAction::Quiet);
    assert_eq!(client_action(m(StreamCommand::Rm, "")), ClientAction::Quiet);
    assert_eq!(client_action(m(StreamCommand::Sd, "")), ClientAction::Quiet);
}

#[test]
fn client_holds_its_pool() {
    let c = KvsClient::new(InlinePool).unwrap();
    let mut ran = false;
    let _ = c.pool();
    let flag = std::sync::Arc::new(std::sync::atomic::AtomicBool::new(false));
    let f2 = flag.clone();
    c.pool().spawn(move || f2.store(true, std::sync::atomic::Ordering::SeqCst));
    ran |= flag.load(std::sync::atomic::Ordering::SeqCst);
    assert!(ran);
}
