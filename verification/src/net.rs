//! Requests that run elsewhere and are polled from the frame loop: how a
//! reply becomes an outcome, and how an outcome is handed out once.

use vstd::prelude::*;
use std::sync::mpsc::{Receiver, TryRecvError};
use crate::text::{join, push_decimal, trim};
#[allow(unused_imports)]
use crate::text::{decimal, trimmed};

verus! {

/// The receiving end of a standard channel.
#[verifier::external_type_specification]
#[verifier::external_body]
#[verifier::reject_recursive_types(T)]
pub struct ExReceiver<T>(std::sync::mpsc::Receiver<T>);

/// What a look into a channel finds.
#[derive(Debug)]
pub enum Received<T> {
    /// A message, taken out of the channel.
    Message(T),
    /// Nothing yet.
    Empty,
    /// Nothing, and the sender is gone.
    Gone,
}

/// `Receiver::try_recv`: a message if one waits. What comes depends on the
/// sending thread, so nothing is claimed of it.
#[verifier::external_body]
fn try_receive<T>(receiver: &Receiver<T>) -> (r: Received<T>)
{
    match receiver.try_recv() {
        Ok(message) => Received::Message(message),
        Err(TryRecvError::Empty) => Received::Empty,
        Err(TryRecvError::Disconnected) => Received::Gone,
    }
}

/// What a poll returns for what was received, and whether the task is
/// finished after it.
pub open spec fn settled<T>(finished: bool, received: Received<Result<T, String>>) -> (
    Option<Result<T, Seq<char>>>,
    bool,
) {
    if finished {
        (None, true)
    } else {
        match received {
            Received::Message(Ok(value)) => (Some(Ok(value)), true),
            Received::Message(Err(message)) => (Some(Err(message@)), true),
            Received::Empty => (None, false),
            Received::Gone => (Some(Err("request worker vanished"@)), true),
        }
    }
}

/// An outcome with its message taken as text.
pub open spec fn outcome_view<T>(r: Option<Result<T, String>>) -> Option<Result<T, Seq<char>>> {
    match r {
        Some(Ok(value)) => Some(Ok(value)),
        Some(Err(message)) => Some(Err(message@)),
        None => None,
    }
}

/// Hands out what was received, once: a task in flight yields nothing, and
/// a worker that went away without an answer yields an error.
pub fn settle<T>(finished: &mut bool, received: Received<Result<T, String>>) -> (r: Option<
    Result<T, String>,
>)
    ensures
        outcome_view(r) == settled(*old(finished), received).0,
        *final(finished) == settled(*old(finished), received).1,
{
    if *finished {
        return None;
    }
    match received {
        Received::Message(outcome) => {
            *finished = true;
            Some(outcome)
        },
        Received::Empty => None,
        Received::Gone => {
            *finished = true;
            Some(Err("request worker vanished".to_owned()))
        },
    }
}

/// A task hands out an outcome at most once, whatever is received later.
pub proof fn law_outcome_comes_once<T>(
    finished: bool,
    first: Received<Result<T, String>>,
    later: Received<Result<T, String>>,
)
    requires
        settled(finished, first).0 is Some,
    ensures
        settled(finished, first).1,
        settled(settled(finished, first).1, later).0 is None,
        settled(settled(finished, first).1, later).1,
{
}

/// A request for text in flight.
pub struct HttpTask {
    receiver: Receiver<Result<String, String>>,
    finished: bool,
}

impl HttpTask {
    /// The outcome has been handed out.
    pub closed spec fn done(&self) -> bool {
        self.finished
    }

    /// A task whose outcome will come through `receiver`.
    pub fn new(receiver: Receiver<Result<String, String>>) -> (r: HttpTask)
        ensures
            !r.done(),
    {
        HttpTask { receiver, finished: false }
    }

    /// The outcome, once: `None` while in flight and after it was handed
    /// out. Which outcome comes is for the worker to say; [`settle`] says
    /// what is returned for it.
    pub fn poll(&mut self) -> (r: Option<Result<String, String>>)
        ensures
            old(self).done() ==> r is None && final(self).done(),
            !old(self).done() ==> (r is Some <==> final(self).done()),
    {
        if self.finished {
            return None;
        }
        let received = try_receive(&self.receiver);
        settle(&mut self.finished, received)
    }
}

/// A download in flight.
pub struct BytesTask {
    receiver: Receiver<Result<Vec<u8>, String>>,
    finished: bool,
}

impl BytesTask {
    /// The outcome has been handed out.
    pub closed spec fn done(&self) -> bool {
        self.finished
    }

    /// A task whose outcome will come through `receiver`.
    pub fn new(receiver: Receiver<Result<Vec<u8>, String>>) -> (r: BytesTask)
        ensures
            !r.done(),
    {
        BytesTask { receiver, finished: false }
    }

    /// The outcome, once, as [`HttpTask::poll`].
    pub fn poll(&mut self) -> (r: Option<Result<Vec<u8>, String>>)
        ensures
            old(self).done() ==> r is None && final(self).done(),
            !old(self).done() ==> (r is Some <==> final(self).done()),
    {
        if self.finished {
            return None;
        }
        let received = try_receive(&self.receiver);
        settle(&mut self.finished, received)
    }
}

/// What came back from a server: a body, or an error status with whatever
/// body it had, or no reply at all. Read errors are messages.
#[derive(Debug)]
pub enum Reply<B> {
    Success(Result<B, String>),
    Status(u16, Result<B, String>),
    Failed(String),
}

/// The outcome of a text request. An error reply that has a readable body
/// counts as an answer: services explain themselves in it.
pub open spec fn text_result(reply: Reply<String>) -> Result<Seq<char>, Seq<char>> {
    match reply {
        Reply::Success(Ok(body)) => Ok(body@),
        Reply::Success(Err(e)) => Err("response read failed: "@ + e@),
        Reply::Status(code, Ok(body)) => if trimmed(body@).len() > 0 {
            Ok(body@)
        } else {
            Err("HTTP "@ + decimal(code as nat))
        },
        Reply::Status(code, Err(_)) => Err("HTTP "@ + decimal(code as nat)),
        Reply::Failed(e) => Err("request failed: "@ + e@),
    }
}

fn status_message(code: u16) -> (r: String)
    ensures
        r@ == "HTTP "@ + decimal(code as nat),
{
    let mut s = "HTTP ".to_owned();
    push_decimal(&mut s, code as u64);
    s
}

/// The outcome of a text request.
pub fn text_outcome(reply: Reply<String>) -> (r: Result<String, String>)
    ensures
        r is Ok == text_result(reply) is Ok,
        r matches Ok(body) ==> body@ == text_result(reply)->Ok_0,
        r matches Err(e) ==> e@ == text_result(reply)->Err_0,
{
    match reply {
        Reply::Success(Ok(body)) => Ok(body),
        Reply::Success(Err(e)) => Err(join("response read failed: ", e.as_str())),
        Reply::Status(code, Ok(body)) => {
            if trim(body.as_str()).as_str().unicode_len() > 0 {
                Ok(body)
            } else {
                Err(status_message(code))
            }
        },
        Reply::Status(code, Err(_)) => Err(status_message(code)),
        Reply::Failed(e) => Err(join("request failed: ", e.as_str())),
    }
}

/// The outcome of a download: an error status is an error, whatever its
/// body.
pub fn bytes_outcome(reply: Reply<Vec<u8>>) -> (r: Result<Vec<u8>, String>)
    ensures
        match reply {
            Reply::Success(Ok(body)) => r == Ok::<Vec<u8>, String>(body),
            Reply::Success(Err(e)) => r is Err && r->Err_0@ == "response read failed: "@ + e@,
            Reply::Status(code, _) => r is Err && r->Err_0@ == "HTTP "@ + decimal(code as nat),
            Reply::Failed(e) => r is Err && r->Err_0@ == "request failed: "@ + e@,
        },
{
    match reply {
        Reply::Success(Ok(body)) => Ok(body),
        Reply::Success(Err(e)) => Err(join("response read failed: ", e.as_str())),
        Reply::Status(code, _) => Err(status_message(code)),
        Reply::Failed(e) => Err(join("request failed: ", e.as_str())),
    }
}

/// A request to send.
#[derive(Debug)]
pub struct HttpRequest {
    pub method: String,
    pub url: String,
    pub headers: Vec<(String, String)>,
    pub body: Option<String>,
}

/// A plain GET that names its sender.
pub fn get_request(url: &str, user_agent: &str) -> (r: HttpRequest)
    ensures
        r.method@ == "GET"@,
        r.url@ == url@,
        r.headers@.len() == 1,
        r.headers@[0].0@ == "User-Agent"@,
        r.headers@[0].1@ == user_agent@,
        r.body is None,
{
    HttpRequest {
        method: "GET".to_owned(),
        url: url.to_owned(),
        headers: vec![("User-Agent".to_owned(), user_agent.to_owned())],
        body: None,
    }
}

/// Is the request sent as a GET? Everything else is sent as a POST.
pub fn sends_get(request: &HttpRequest) -> (r: bool)
    ensures
        r == (request.method@ == "GET"@),
{
    crate::text::same(request.method.as_str(), "GET")
}

} // verus!
