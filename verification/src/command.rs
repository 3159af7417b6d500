//! Parsed commands, as the executor consumes them.

use vstd::prelude::*;

use crate::bytes::deep;

verus! {

/// One parsed command. Keys and payloads are opaque byte strings.
pub enum Command {
    Ping,
    Echo(Vec<u8>),
    SetValue { key: Vec<u8>, value: Vec<u8>, px: Option<u64> },
    Get(Vec<u8>),
    Rpush { key: Vec<u8>, values: Vec<Vec<u8>> },
    Lpush { key: Vec<u8>, values: Vec<Vec<u8>> },
    Lrange { key: Vec<u8>, start: i64, stop: i64 },
    Llen(Vec<u8>),
    Lpop { key: Vec<u8>, count: Option<usize> },
    Blpop { keys: Vec<Vec<u8>>, timeout_ms: u64 },
}

/// Mathematical model of a `Command`.
#[verifier::ext_equal]
pub enum CommandModel {
    Ping,
    Echo { payload: Seq<u8> },
    SetValue { key: Seq<u8>, value: Seq<u8>, px: Option<u64> },
    Get { key: Seq<u8> },
    Rpush { key: Seq<u8>, values: Seq<Seq<u8>> },
    Lpush { key: Seq<u8>, values: Seq<Seq<u8>> },
    Lrange { key: Seq<u8>, start: i64, stop: i64 },
    Llen { key: Seq<u8> },
    Lpop { key: Seq<u8>, count: Option<usize> },
    Blpop { keys: Seq<Seq<u8>>, timeout_ms: u64 },
}

impl View for Command {
    type V = CommandModel;

    open spec fn view(&self) -> CommandModel {
        match self {
            Command::Ping => CommandModel::Ping,
            Command::Echo(p) => CommandModel::Echo { payload: p@ },
            Command::SetValue { key, value, px } => CommandModel::SetValue {
                key: key@,
                value: value@,
                px: *px,
            },
            Command::Get(k) => CommandModel::Get { key: k@ },
            Command::Rpush { key, values } => CommandModel::Rpush {
                key: key@,
                values: deep(values@),
            },
            Command::Lpush { key, values } => CommandModel::Lpush {
                key: key@,
                values: deep(values@),
            },
            Command::Lrange { key, start, stop } => CommandModel::Lrange {
                key: key@,
                start: *start,
                stop: *stop,
            },
            Command::Llen(k) => CommandModel::Llen { key: k@ },
            Command::Lpop { key, count } => CommandModel::Lpop { key: key@, count: *count },
            Command::Blpop { keys, timeout_ms } => CommandModel::Blpop {
                keys: deep(keys@),
                timeout_ms: *timeout_ms,
            },
        }
    }
}

} // verus!
