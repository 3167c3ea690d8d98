//! The values, commands and responses that the server and its clients
//! exchange, with their mathematical views.
use vstd::prelude::*;

verus! {

/// The key used for indexing can only be arbitrary bytes.
pub type RedisKey = Vec<u8>;

/// Each command either returns a success value or a failure message.
pub type RedisResult<T> = Result<T, String>;

/// The value can be multiple specialised types. Currently, only the
/// following types are supported:
/// - Bulk string
pub enum RedisValue {
    Str(Vec<u8>),
}

impl View for RedisValue {
    type V = Seq<u8>;

    open spec fn view(&self) -> Seq<u8> {
        match self {
            RedisValue::Str(v) => v@,
        }
    }
}

/// A request that the store carries out.
pub enum Command {
    SetKey { key: RedisKey, value: RedisValue },
    Get { key: RedisKey },
    Del { keys: Vec<RedisKey> },
    Save,
}

/// A command, with keys and values taken as byte sequences.
pub enum CommandView {
    SetKey { key: Seq<u8>, value: Seq<u8> },
    Get { key: Seq<u8> },
    Del { keys: Seq<Seq<u8>> },
    Save,
}

/// The byte sequences held by a list of keys.
pub open spec fn keys_view(keys: Seq<Vec<u8>>) -> Seq<Seq<u8>> {
    keys.map_values(|k: Vec<u8>| k@)
}

impl View for Command {
    type V = CommandView;

    open spec fn view(&self) -> CommandView {
        match self {
            Command::SetKey { key, value } => CommandView::SetKey { key: key@, value: value@ },
            Command::Get { key } => CommandView::Get { key: key@ },
            Command::Del { keys } => CommandView::Del { keys: keys_view(keys@) },
            Command::Save => CommandView::Save,
        }
    }
}

/// What the server answers to a command.
pub enum Response {
    Okay,
    Simple(String),
    Nil,
    Bulk(Vec<u8>),
    Integer(i64),
    Error(String),
}

/// A response, with its texts taken as character sequences and its bytes
/// as byte sequences.
pub enum ResponseView {
    Okay,
    Simple(Seq<char>),
    Nil,
    Bulk(Seq<u8>),
    Integer(int),
    Error(Seq<char>),
}

impl View for Response {
    type V = ResponseView;

    open spec fn view(&self) -> ResponseView {
        match self {
            Response::Okay => ResponseView::Okay,
            Response::Simple(s) => ResponseView::Simple(s@),
            Response::Nil => ResponseView::Nil,
            Response::Bulk(v) => ResponseView::Bulk(v@),
            Response::Integer(i) => ResponseView::Integer(*i as int),
            Response::Error(e) => ResponseView::Error(e@),
        }
    }
}

} // verus!
