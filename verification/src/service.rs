//! What the service answers to the requests that reach it.
//!
//! The transport reads a request and hands over what it could make of the
//! parameters; the functions here decide the reply. None of them fails in
//! any other way than by returning a [`Failure`].

use crate::index::WordIndex;
use crate::listing::strictly_ascending;
use crate::tokenizer::tokens_of;
use vstd::prelude::*;
use vstd::string::StringExecFns;

verus! {

/// The code that the protocol has for a request with invalid parameters.
pub const INVALID_PARAMS_CODE: i64 = -32602;

/// The code of the failure that a `fetch` for a line outside the corpus ends
/// in: a server error of the service's own, apart from the codes that the
/// protocol defines.
pub const INVALID_RECORD_ID_CODE: i64 = -32001;

/// The kinds of failure that a request can end in.
#[derive(Clone, Copy, Debug, PartialEq, Eq, Structural)]
pub enum FailureKind {
    /// The parameters of the request were missing or of the wrong shape.
    InvalidParams,
    /// The request was well formed and named a line that the corpus lacks.
    InvalidRecordId,
}

/// The code under which a failure of the kind `kind` is reported.
pub open spec fn code_of(kind: FailureKind) -> i64 {
    match kind {
        FailureKind::InvalidParams => INVALID_PARAMS_CODE,
        FailureKind::InvalidRecordId => INVALID_RECORD_ID_CODE,
    }
}

impl FailureKind {
    /// The code under which a failure of this kind is reported. The two
    /// kinds have codes of their own.
    pub fn code(self) -> (code: i64)
        ensures
            code == code_of(self),
            code == INVALID_PARAMS_CODE <==> self == FailureKind::InvalidParams,
            code == INVALID_RECORD_ID_CODE <==> self == FailureKind::InvalidRecordId,
    {
        match self {
            FailureKind::InvalidParams => INVALID_PARAMS_CODE,
            FailureKind::InvalidRecordId => INVALID_RECORD_ID_CODE,
        }
    }
}

/// A failure to answer a request: its kind, and a message for the caller.
#[derive(Clone, Debug, PartialEq, Eq)]
pub struct Failure {
    pub kind: FailureKind,
    pub message: String,
}

/// Who sent an `initialize` request.
#[derive(Clone, Debug, PartialEq, Eq)]
pub struct ClientInfo {
    pub name: String,
    pub version: Option<String>,
}

/// What an `initialize` request says of its sender. The capabilities that
/// the sender announces are not kept: no reply depends on them.
#[derive(Clone, Debug, PartialEq, Eq)]
pub struct InitializeParams {
    pub protocol_version: Option<String>,
    pub client_info: Option<ClientInfo>,
}

/// Whether the list of tools may change while the service runs.
#[derive(Clone, Copy, Debug, PartialEq, Eq, Structural)]
pub struct ToolCapabilities {
    pub list_changed: bool,
}

/// Whether the service answers `search` requests.
#[derive(Clone, Copy, Debug, PartialEq, Eq, Structural)]
pub struct SearchCapabilities {
    pub enabled: bool,
}

/// Whether the service answers `fetch` requests.
#[derive(Clone, Copy, Debug, PartialEq, Eq, Structural)]
pub struct FetchCapabilities {
    pub enabled: bool,
}

/// What the service announces of itself.
#[derive(Clone, Copy, Debug, PartialEq, Eq, Structural)]
pub struct ServerCapabilities {
    pub tools: ToolCapabilities,
    pub search: SearchCapabilities,
    pub fetch: FetchCapabilities,
}

/// The reply to an `initialize` request.
#[derive(Clone, Copy, Debug, PartialEq, Eq, Structural)]
pub struct InitializeResult {
    pub capabilities: ServerCapabilities,
}

/// The capabilities of the service: the list of tools may change, and both
/// `search` and `fetch` are answered.
pub open spec fn announced() -> ServerCapabilities {
    ServerCapabilities {
        tools: ToolCapabilities { list_changed: true },
        search: SearchCapabilities { enabled: true },
        fetch: FetchCapabilities { enabled: true },
    }
}

/// The message of the failure of a `search` request without a usable query.
pub open spec fn search_params_message() -> Seq<char> {
    "Invalid parameters: Expected a single string query."@
}

/// The message of the failure of a `fetch` request without a usable line
/// number.
pub open spec fn fetch_params_message() -> Seq<char> {
    "Invalid parameters: Expected a single unsigned integer line number."@
}

/// The message of the failure of a `fetch` request for a line that the
/// corpus lacks.
pub open spec fn record_id_message() -> Seq<char> {
    "Invalid record ID: Line number out of bounds."@
}

/// The message of the failure of an `initialize` request whose parameters
/// could not be read for the reason `reason`.
pub open spec fn initialize_params_message(reason: Seq<char>) -> Seq<char> {
    "Invalid parameters for initialize: "@ + reason
}

/// Whether `reply` is a failure of the kind `kind` with the message
/// `message`.
pub open spec fn fails_with<T>(
    reply: Result<T, Failure>,
    kind: FailureKind,
    message: Seq<char>,
) -> bool {
    &&& reply matches Err(failure)
    &&& failure.kind == kind
    &&& failure.message@ == message
}

/// Answers a `search` request. `query` is the single string parameter of
/// the request, or `None` where the request had no such parameter.
///
/// A request with a query never fails: a query that finds nothing, or
/// that has no token, is answered with an empty list.
pub fn handle_search(index: &WordIndex, query: Option<&str>) -> (reply: Result<
    Vec<usize>,
    Failure,
>)
    ensures
        query is None ==> fails_with(reply, FailureKind::InvalidParams, search_params_message()),
        query matches Some(text) ==> (reply matches Ok(found) && strictly_ascending(found@)
            && found@.to_set() == index@.search(text@) && (index.wf() ==> forall|n: usize|
            found@.contains(n) <==> index@.holds_all(n, tokens_of(text@)))),
{
    match query {
        Some(text) => Ok(index.search(text)),
        None => Err(
            Failure {
                kind: FailureKind::InvalidParams,
                message: "Invalid parameters: Expected a single string query.".to_owned(),
            },
        ),
    }
}

/// Answers a `fetch` request. `line_number` is the single unsigned integer
/// parameter of the request, or `None` where the request had no such
/// parameter.
pub fn handle_fetch(index: &WordIndex, line_number: Option<usize>) -> (reply: Result<
    String,
    Failure,
>)
    ensures
        line_number is None ==> fails_with(
            reply,
            FailureKind::InvalidParams,
            fetch_params_message(),
        ),
        line_number matches Some(n) ==> (n >= index.lines.len() ==> fails_with(
            reply,
            FailureKind::InvalidRecordId,
            record_id_message(),
        )),
        line_number matches Some(n) ==> (n < index.lines.len() ==> (reply matches Ok(text)
            && text@ == index@.lines[n as int])),
{
    match line_number {
        Some(n) => match index.fetch(n) {
            Some(text) => Ok(text),
            None => Err(
                Failure {
                    kind: FailureKind::InvalidRecordId,
                    message: "Invalid record ID: Line number out of bounds.".to_owned(),
                },
            ),
        },
        None => Err(
            Failure {
                kind: FailureKind::InvalidParams,
                message: "Invalid parameters: Expected a single unsigned integer line number."
                    .to_owned(),
            },
        ),
    }
}

/// Answers an `initialize` request. `params` is what the request says of
/// its sender, or the reason why its parameters could not be read.
pub fn handle_initialize(params: Result<InitializeParams, String>) -> (reply: Result<
    InitializeResult,
    Failure,
>)
    ensures
        params is Ok ==> (reply matches Ok(result) && result.capabilities == announced()),
        params matches Err(reason) ==> fails_with(
            reply,
            FailureKind::InvalidParams,
            initialize_params_message(reason@),
        ),
{
    match params {
        Ok(_) => Ok(
            InitializeResult {
                capabilities: ServerCapabilities {
                    tools: ToolCapabilities { list_changed: true },
                    search: SearchCapabilities { enabled: true },
                    fetch: FetchCapabilities { enabled: true },
                },
            },
        ),
        Err(reason) => Err(
            Failure {
                kind: FailureKind::InvalidParams,
                message: "Invalid parameters for initialize: ".to_owned().concat(reason.as_str()),
            },
        ),
    }
}

} // verus!
