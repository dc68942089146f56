//! The PostgreSQL front end: the wire codec and what a connection answers to
//! each client message.
pub mod protocol;

use vstd::prelude::*;
use vstd::string::StringExecFns;
use crate::wire::{frozen_contents, frozen_from_vec};
use self::protocol::{BackendMessage, FrontendMessage, FrontendMsg, ReadyForQueryStatus};

verus! {

/// What a connection does after reading a client message.
pub enum Step {
    /// Send these messages, in order, then read the next client message.
    Reply(Vec<BackendMessage>),
    /// Run this query text in the session; once it succeeds, send
    /// `query_done()` and read the next client message.
    RunQuery(String),
    /// Stop serving the connection.
    Close,
}

/// The messages that answer a startup message: authentication succeeded, the
/// client encoding is UTF-8, and the server is idle.
pub open spec fn startup_reply(v: Seq<BackendMessage>) -> bool {
    &&& v.len() == 3
    &&& v[0] is AuthenticationOk
    &&& v[1] matches BackendMessage::ParameterStatus(k, val) && k@ == "client_encoding"@ && val@
        == "utf-8"@
    &&& v[2] == BackendMessage::ReadyForQuery(ReadyForQueryStatus::Idle)
}

/// The answer to an SSL request: the single byte `N` (no SSL).
pub open spec fn ssl_refusal(v: Seq<BackendMessage>) -> bool {
    &&& v.len() == 1
    &&& v[0] matches BackendMessage::Raw(b) && frozen_contents(b) == seq![78u8]
}

/// Decides what to do with one client message.
pub fn answer(msg: FrontendMessage) -> (step: Step)
    ensures
        match msg@ {
            FrontendMsg::StartupMessage { .. } => step matches Step::Reply(v) && startup_reply(v@),
            FrontendMsg::SSLRequest => step matches Step::Reply(v) && ssl_refusal(v@),
            FrontendMsg::Query(q) => step matches Step::RunQuery(text) && text@ == q,
            FrontendMsg::Terminate => step is Close,
        },
{
    match msg {
        FrontendMessage::StartupMessage { .. } => {
            let mut v: Vec<BackendMessage> = Vec::new();
            v.push(BackendMessage::AuthenticationOk);
            v.push(
                BackendMessage::ParameterStatus(
                    String::from_str("client_encoding"),
                    String::from_str("utf-8"),
                ),
            );
            v.push(BackendMessage::ReadyForQuery(ReadyForQueryStatus::Idle));
            Step::Reply(v)
        },
        FrontendMessage::SSLRequest => {
            let mut no: Vec<u8> = Vec::new();
            no.push(78u8);
            assert(no@ =~= seq![78u8]);
            let mut v: Vec<BackendMessage> = Vec::new();
            v.push(BackendMessage::Raw(frozen_from_vec(no)));
            Step::Reply(v)
        },
        FrontendMessage::Query(query) => Step::RunQuery(query),
        FrontendMessage::Terminate => Step::Close,
    }
}

/// The messages sent once a query has run: an empty response, then idle.
pub fn query_done() -> (v: Vec<BackendMessage>)
    ensures
        v@.len() == 2,
        v@[0] is EmptyQueryResponse,
        v@[1] == BackendMessage::ReadyForQuery(ReadyForQueryStatus::Idle),
{
    let mut v: Vec<BackendMessage> = Vec::new();
    v.push(BackendMessage::EmptyQueryResponse);
    v.push(BackendMessage::ReadyForQuery(ReadyForQueryStatus::Idle));
    v
}

} // verus!
