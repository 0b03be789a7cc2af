//! The wire protocol's data, and the exact translation between engine
//! results and responses.
//!
//! The network layer itself (framing over a stream transport) lives with
//! the I/O shell; here are the three request kinds, the response of each,
//! and the server that answers one request at a time through an engine.

use vstd::prelude::*;

use crate::engine::KvsEngine;
use crate::error::KvsError;

verus! {

/// One request from a client: read, write, or erase a key.
#[derive(Debug, PartialEq, Eq)]
pub enum Request {
    Get { key: String },
    Put { key: String, value: String },
    Remove { key: String },
}

/// The answer to a `Get`: the value looked up (or its absence), or a
/// failure message.
#[derive(Debug, PartialEq, Eq)]
pub enum GetResponse {
    Value(Option<String>),
    Failure(String),
}

/// The answer to a `Put`: done, or a failure message.
#[derive(Debug, PartialEq, Eq)]
pub enum SetResponse {
    Done,
    Failure(String),
}

/// The answer to a `Remove`: done, or a failure message.
#[derive(Debug, PartialEq, Eq)]
pub enum RemoveResponse {
    Done,
    Failure(String),
}

/// The answer to any request.
#[derive(Debug, PartialEq, Eq)]
pub enum Response {
    Get(GetResponse),
    Put(SetResponse),
    Remove(RemoveResponse),
}

/// Renders a lookup result as the response sent over the wire: a found
/// or absent value stays what it is; an error becomes its message.
pub fn get_response(r: Result<Option<String>, KvsError>) -> (resp: GetResponse)
    ensures
        match r {
            Ok(v) => resp == GetResponse::Value(v),
            Err(e) => resp matches GetResponse::Failure(m) && m@ == e.message_spec(),
        },
{
    match r {
        Ok(v) => GetResponse::Value(v),
        Err(e) => GetResponse::Failure(e.message()),
    }
}

/// Renders a write result as the response sent over the wire.
pub fn set_response(r: Result<(), KvsError>) -> (resp: SetResponse)
    ensures
        match r {
            Ok(_) => resp == SetResponse::Done,
            Err(e) => resp matches SetResponse::Failure(m) && m@ == e.message_spec(),
        },
{
    match r {
        Ok(_) => SetResponse::Done,
        Err(e) => SetResponse::Failure(e.message()),
    }
}

/// Renders a removal result as the response sent over the wire.
pub fn remove_response(r: Result<(), KvsError>) -> (resp: RemoveResponse)
    ensures
        match r {
            Ok(_) => resp == RemoveResponse::Done,
            Err(e) => resp matches RemoveResponse::Failure(m) && m@ == e.message_spec(),
        },
{
    match r {
        Ok(_) => RemoveResponse::Done,
        Err(e) => RemoveResponse::Failure(e.message()),
    }
}

/// Reads a `Get` response back into the client's result: a failure
/// message becomes a `StringError`, as the server's own error left the
/// wire as text.
pub fn get_result(resp: GetResponse) -> (r: Result<Option<String>, KvsError>)
    ensures
        match resp {
            GetResponse::Value(v) => r == Ok::<Option<String>, KvsError>(v),
            GetResponse::Failure(m) => r == Err::<Option<String>, KvsError>(
                KvsError::StringError(m),
            ),
        },
{
    match resp {
        GetResponse::Value(v) => Ok(v),
        GetResponse::Failure(m) => Err(KvsError::StringError(m)),
    }
}

/// Reads a `Put` response back into the client's result.
pub fn set_result(resp: SetResponse) -> (r: Result<(), KvsError>)
    ensures
        match resp {
            SetResponse::Done => r == Ok::<(), KvsError>(()),
            SetResponse::Failure(m) => r == Err::<(), KvsError>(KvsError::StringError(m)),
        },
{
    match resp {
        SetResponse::Done => Ok(()),
        SetResponse::Failure(m) => Err(KvsError::StringError(m)),
    }
}

/// Reads a `Remove` response back into the client's result.
pub fn remove_result(resp: RemoveResponse) -> (r: Result<(), KvsError>)
    ensures
        match resp {
            RemoveResponse::Done => r == Ok::<(), KvsError>(()),
            RemoveResponse::Failure(m) => r == Err::<(), KvsError>(KvsError::StringError(m)),
        },
{
    match resp {
        RemoveResponse::Done => Ok(()),
        RemoveResponse::Failure(m) => Err(KvsError::StringError(m)),
    }
}

/// The server of the key/value store: answers requests through the
/// engine it was given.
pub struct KvsServer<E: KvsEngine> {
    engine: E,
}

impl<E: KvsEngine> KvsServer<E> {
    /// The server is ready when its engine is.
    pub closed spec fn inv(&self) -> bool {
        self.engine.inv()
    }

    /// Create a `KvsServer` with a given storage engine.
    pub fn new(engine: E) -> (r: KvsServer<E>)
        requires
            engine.inv(),
        ensures
            r.inv(),
    {
        KvsServer { engine }
    }

    /// Answers one request: dispatches it to the engine and renders the
    /// engine's result as the matching response kind. Engine failures are
    /// answered, never propagated: the server keeps serving.
    pub fn serve(&mut self, req: Request) -> (resp: Response)
        requires
            old(self).inv(),
        ensures
            final(self).inv(),
            match req {
                Request::Get { .. } => resp is Get,
                Request::Put { .. } => resp is Put,
                Request::Remove { .. } => resp is Remove,
            },
    {
        match req {
            Request::Get { key } => Response::Get(get_response(self.engine.get(key))),
            Request::Put { key, value } => Response::Put(
                set_response(self.engine.set(key, value)),
            ),
            Request::Remove { key } => Response::Remove(remove_response(self.engine.remove(key))),
        }
    }
}

} // verus!
