//! The client: turns a command line into a request, and a reply into what
//! the client shows.

use crate::kvs::KvCommand;
use crate::protocol::{KvStream, StreamCommand, StreamView};
use crate::thread_pool::ThreadPool;
use crate::Result;
use vstd::prelude::*;
use vstd::string::*;

verus! {

/// The value that, set under the key `sd`, asks the server to shut down.
pub const SHUTDOWN_SERVER_CMD: &'static str = "019f2122-f67f-71b3-b541-1cc2d603a1fc";

/// A client that runs its requests on a pool of workers.
pub struct KvsClient<T> where T: ThreadPool {
    thread: T,
}

impl<T> KvsClient<T> where T: ThreadPool {
    pub closed spec fn spec_thread(&self) -> T {
        self.thread
    }

    /// A client running its requests on `thread`.
    pub fn new(thread: T) -> (r: Result<Self>)
        ensures
            r matches Ok(c) && c.spec_thread() == thread,
    {
        Ok(KvsClient { thread })
    }

    /// The pool of the client.
    pub fn pool(&self) -> (t: &T)
        ensures
            *t == self.spec_thread(),
    {
        &self.thread
    }
}

/// The key under which the shutdown value asks the server to stop.
pub open spec fn shutdown_key() -> Seq<char> {
    seq!['s', 'd']
}

/// The request for a command line: `None` when the command and the value
/// do not go together (a set needs a value, a get or a remove takes none).
pub open spec fn spec_request(
    c: KvCommand,
    key: Seq<char>,
    value: Option<Seq<char>>,
    shutdown: Seq<char>,
) -> Option<StreamView> {
    match (c, value) {
        (KvCommand::Put, Some(v)) => Some(
            StreamView {
                command: if key == shutdown_key() && v == shutdown {
                    StreamCommand::Sd
                } else {
                    StreamCommand::St
                },
                key,
                value: Some(v),
            },
        ),
        (KvCommand::Get, None) => Some(StreamView { command: StreamCommand::Gt, key, value: None }),
        (KvCommand::Rm, None) => Some(StreamView { command: StreamCommand::Rm, key, value: None }),
        _ => None,
    }
}

/// The request for a command line.
pub fn build_request(command: KvCommand, key: String, value: Option<String>) -> (r: Option<
    KvStream,
>)
    ensures
        match r {
            Some(m) => spec_request(
                command,
                key@,
                crate::protocol::option_view(value),
                SHUTDOWN_SERVER_CMD@,
            ) == Some(m@),
            None => spec_request(
                command,
                key@,
                crate::protocol::option_view(value),
                SHUTDOWN_SERVER_CMD@,
            ) is None,
        },
{
    match command {
        KvCommand::Put => match value {
            Some(v) => {
                proof {
                    reveal_strlit("sd");
                    assert("sd"@ =~= shutdown_key());
                }
                let sd = String::from_str("sd");
                let stop = String::from_str(SHUTDOWN_SERVER_CMD);
                let shutdown = key == sd && v == stop;
                if shutdown {
                    Some(KvStream::build_from(StreamCommand::Sd, key, Some(v)))
                } else {
                    Some(KvStream::build_from(StreamCommand::St, key, Some(v)))
                }
            },
            None => None,
        },
        KvCommand::Get => match value {
            None => Some(KvStream::build_from(StreamCommand::Gt, key, None)),
            Some(_) => None,
        },
        KvCommand::Rm => match value {
            None => Some(KvStream::build_from(StreamCommand::Rm, key, None)),
            Some(_) => None,
        },
    }
}

/// What the client does with a reply.
#[derive(Debug, Clone, PartialEq, Eq)]
pub enum ClientAction {
    /// Print the text on standard output.
    Print(String),
    /// Print the text on standard error and exit with failure.
    Fail(String),
    /// Show nothing.
    Quiet,
}

/// What the client does with a reply, seen as plain values.
pub enum ActionView {
    Print(Seq<char>),
    Fail(Seq<char>),
    Quiet,
}

impl View for ClientAction {
    type V = ActionView;

    open spec fn view(&self) -> ActionView {
        match self {
            ClientAction::Print(t) => ActionView::Print(t@),
            ClientAction::Fail(t) => ActionView::Fail(t@),
            ClientAction::Quiet => ActionView::Quiet,
        }
    }
}

/// What the client does with a reply: a value read, or the report that
/// there is none, is printed; a failure is reported; anything else is
/// quiet.
pub open spec fn spec_client_action(reply: StreamView) -> ActionView {
    match reply.command {
        StreamCommand::Gt | StreamCommand::Gn => ActionView::Print(reply.key),
        StreamCommand::Se | StreamCommand::Ge | StreamCommand::Re => ActionView::Fail(reply.key),
        _ => ActionView::Quiet,
    }
}

/// A value read is printed, a failure is reported, anything else is quiet.
pub fn client_action(reply: KvStream) -> (a: ClientAction)
    ensures
        a@ == spec_client_action(reply@),
        match reply.command {
            StreamCommand::Gt | StreamCommand::Gn => a == ClientAction::Print(reply.key),
            StreamCommand::Se | StreamCommand::Ge | StreamCommand::Re => a == ClientAction::Fail(
                reply.key,
            ),
            _ => a == ClientAction::Quiet,
        },
{
    match reply.command {
        StreamCommand::Gt | StreamCommand::Gn => ClientAction::Print(reply.key),
        StreamCommand::Se | StreamCommand::Ge | StreamCommand::Re => ClientAction::Fail(reply.key),
        _ => ClientAction::Quiet,
    }
}

} // verus!
