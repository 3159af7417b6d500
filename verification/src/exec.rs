//! The command executor: one atomic step of the engine per command.
//!
//! `spec_execute` is the mathematical semantics: for a keyspace model, a
//! clock reading and a command it gives the keyspace after the command, the
//! reply, and whether waiters are woken. `execute` performs that step on a
//! real `Store` and is proved to match `spec_execute` exactly.
//!
//! `BLPOP` is the one multi-phase command: its scan step is
//! `Store::blpop_scan`, its timeout decision `store::blpop_timed_out`, and its
//! replies `blpop_success_reply` and `Reply::NullArray`; the caller runs the
//! wait loop around them.

use vstd::prelude::*;

use crate::bytes::clone_bytes;
use crate::command::Command;
use crate::command::CommandModel;
use crate::resp::ok_text;
use crate::resp::ok_bytes;
use crate::resp::pong_text;
use crate::resp::pong_bytes;
use crate::resp::wrongtype_text;
use crate::resp::wrongtype_bytes;
use crate::resp::Reply;
use crate::resp::ReplyModel;
use crate::store::spec_after_read;
use crate::store::spec_lookup;
use crate::store::spec_pushed;
use crate::store::spec_lrange;
use crate::store::spec_take_count;
use crate::store::EntryModel;
use crate::store::ValueModel;
use crate::store::GetOutcome;
use crate::store::LenOutcome;
use crate::store::PopOutcome;
use crate::store::PushOutcome;
use crate::store::RangeOutcome;
use crate::store::Store;

verus! {

broadcast use crate::bytes::lemma_deep_len;

/// The outcome of one executor step: the keyspace after the command, the
/// reply to send, and whether list waiters are woken.
#[verifier::ext_equal]
pub struct StepModel {
    pub db: Map<Seq<u8>, EntryModel>,
    pub reply: ReplyModel,
    pub notify: bool,
}

/// The step a push command takes.
pub open spec fn spec_push_step(
    m: Map<Seq<u8>, EntryModel>,
    key: Seq<u8>,
    values: Seq<Seq<u8>>,
    right: bool,
    now_ms: u64,
) -> StepModel {
    if m.contains_key(key) && m[key].value is Scalar {
        StepModel { db: m, reply: ReplyModel::Error { text: wrongtype_text() }, notify: false }
    } else {
        let e = spec_pushed(m, key, values, right, now_ms);
        StepModel {
            db: m.insert(key, e),
            reply: ReplyModel::Integer { n: e.value->List_items.len() },
            notify: true,
        }
    }
}

/// The semantics of every single-step command.
///
/// A `BLPOP` that never finds a ready key and times out leaves the keyspace
/// unchanged and replies with the null array; that is the step given here.
/// Its scan and wait phases are specified on `Store::blpop_scan` and
/// `store::blpop_timed_out`.
pub open spec fn spec_execute(
    m: Map<Seq<u8>, EntryModel>,
    now_ms: u64,
    c: CommandModel,
) -> StepModel {
    match c {
        CommandModel::Ping => StepModel {
            db: m,
            reply: ReplyModel::Simple { text: pong_text() },
            notify: false,
        },
        CommandModel::Echo { payload } => StepModel {
            db: m,
            reply: ReplyModel::Bulk { bytes: payload },
            notify: false,
        },
        CommandModel::SetValue { key, value, px } => StepModel {
            db: m.insert(
                key,
                EntryModel {
                    value: ValueModel::Scalar { bytes: value },
                    created_at_ms: now_ms,
                    expires_in_ms: px,
                },
            ),
            reply: ReplyModel::Simple { text: ok_text() },
            notify: false,
        },
        CommandModel::Get { key } => StepModel {
            db: spec_after_read(m, key, now_ms),
            reply: match spec_lookup(m, key, now_ms) {
                None => ReplyModel::NullBulk,
                Some(e) => match e.value {
                    ValueModel::Scalar { bytes } => ReplyModel::Bulk { bytes },
                    ValueModel::List { .. } => ReplyModel::Error { text: wrongtype_text() },
                },
            },
            notify: false,
        },
        CommandModel::Rpush { key, values } => spec_push_step(m, key, values, true, now_ms),
        CommandModel::Lpush { key, values } => spec_push_step(m, key, values, false, now_ms),
        CommandModel::Lrange { key, start, stop } => StepModel {
            db: m,
            reply: if !m.contains_key(key) {
                ReplyModel::Array { items: Seq::empty() }
            } else {
                match m[key].value {
                    ValueModel::Scalar { .. } => ReplyModel::Error { text: wrongtype_text() },
                    ValueModel::List { items } => ReplyModel::Array {
                        items: spec_lrange(items, start as int, stop as int),
                    },
                }
            },
            notify: false,
        },
        CommandModel::Llen { key } => StepModel {
            db: m,
            reply: if !m.contains_key(key) {
                ReplyModel::Integer { n: 0 }
            } else {
                match m[key].value {
                    ValueModel::Scalar { .. } => ReplyModel::Error { text: wrongtype_text() },
                    ValueModel::List { items } => ReplyModel::Integer { n: items.len() },
                }
            },
            notify: false,
        },
        CommandModel::Lpop { key, count } => {
            if !m.contains_key(key) {
                StepModel { db: m, reply: ReplyModel::NullBulk, notify: false }
            } else {
                match m[key].value {
                    ValueModel::Scalar { .. } => StepModel {
                        db: m,
                        reply: ReplyModel::Error { text: wrongtype_text() },
                        notify: false,
                    },
                    ValueModel::List { items } => {
                        let wanted = match count {
                            None => 1int,
                            Some(c) => c as int,
                        };
                        let tk = spec_take_count(wanted, items.len() as int);
                        let db2 = m.insert(
                            key,
                            EntryModel {
                                value: ValueModel::List { items: items.skip(tk) },
                                created_at_ms: m[key].created_at_ms,
                                expires_in_ms: m[key].expires_in_ms,
                            },
                        );
                        let reply = match count {
                            None => if items.len() == 0 {
                                ReplyModel::NullBulk
                            } else {
                                ReplyModel::Bulk { bytes: items[0] }
                            },
                            Some(c) => if tk == 0 {
                                ReplyModel::NullArray
                            } else {
                                ReplyModel::Array { items: items.take(tk) }
                            },
                        };
                        StepModel { db: db2, reply, notify: false }
                    },
                }
            }
        },
        CommandModel::Blpop { .. } => StepModel {
            db: m,
            reply: ReplyModel::NullArray,
            notify: false,
        },
    }
}

/// Execute one single-step command against the store at clock reading
/// `now_ms`: the store afterwards, the reply, and the wake-up flag are
/// exactly those of `spec_execute`.
///
/// `BLPOP` is excluded: its blocking phases are driven through
/// `Store::blpop_scan` and `store::blpop_timed_out` by the caller.
pub fn execute(store: &mut Store, now_ms: u64, cmd: &Command) -> (r: (Reply, bool))
    requires
        old(store).wf(),
        !(cmd@ is Blpop),
    ensures
        final(store).wf(),
        final(store)@ == spec_execute(old(store)@, now_ms, cmd@).db,
        r.0@ == spec_execute(old(store)@, now_ms, cmd@).reply,
        r.1 == spec_execute(old(store)@, now_ms, cmd@).notify,
{
    match cmd {
        Command::Ping => (Reply::Simple(pong_bytes()), false),
        Command::Echo(p) => (Reply::Bulk(clone_bytes(p)), false),
        Command::SetValue { key, value, px } => {
            store.put_scalar(key, clone_bytes(value), *px, now_ms);
            (Reply::Simple(ok_bytes()), false)
        },
        Command::Get(key) => {
            let outcome = store.get(key, now_ms);
            match outcome {
                GetOutcome::Missing => (Reply::NullBulk, false),
                GetOutcome::Val(v) => (Reply::Bulk(v), false),
                GetOutcome::WrongType => (Reply::Error(wrongtype_bytes()), false),
            }
        },
        Command::Rpush { key, values } => {
            let outcome = store.list_push(key, values, true, now_ms);
            match outcome {
                PushOutcome::WrongType => (Reply::Error(wrongtype_bytes()), false),
                PushOutcome::Len(n) => (Reply::Integer(n as u64), true),
            }
        },
        Command::Lpush { key, values } => {
            let outcome = store.list_push(key, values, false, now_ms);
            match outcome {
                PushOutcome::WrongType => (Reply::Error(wrongtype_bytes()), false),
                PushOutcome::Len(n) => (Reply::Integer(n as u64), true),
            }
        },
        Command::Lrange { key, start, stop } => {
            let outcome = store.list_range(key, *start, *stop);
            match outcome {
                RangeOutcome::Missing => {
                    proof {
                        assert(crate::bytes::deep(Seq::<Vec<u8>>::empty())
                            =~= Seq::<Seq<u8>>::empty());
                    }
                    (Reply::Array(Vec::new()), false)
                },
                RangeOutcome::WrongType => (Reply::Error(wrongtype_bytes()), false),
                RangeOutcome::Items(v) => (Reply::Array(v), false),
            }
        },
        Command::Llen(key) => {
            let outcome = store.list_len(key);
            match outcome {
                LenOutcome::Missing => (Reply::Integer(0), false),
                LenOutcome::WrongType => (Reply::Error(wrongtype_bytes()), false),
                LenOutcome::Len(n) => (Reply::Integer(n as u64), false),
            }
        },
        Command::Lpop { key, count } => {
            let wanted: usize = match count {
                None => 1,
                Some(c) => *c,
            };
            let outcome = store.list_pop_left(key, wanted);
            match outcome {
                PopOutcome::Missing => (Reply::NullBulk, false),
                PopOutcome::WrongType => (Reply::Error(wrongtype_bytes()), false),
                PopOutcome::Popped(mut vs) => match count {
                    None => {
                        if vs.len() == 0 {
                            (Reply::NullBulk, false)
                        } else {
                            proof {
                                let items = old(store)@[key@].value->List_items;
                                crate::bytes::lemma_deep_index(vs@, 0);
                                assert(vs@[0]@ == items.take(1)[0]);
                            }
                            let head = match vs.pop() {
                                Some(v) => v,
                                None => unreached(),
                            };
                            (Reply::Bulk(head), false)
                        }
                    },
                    Some(_) => {
                        if vs.len() == 0 {
                            proof {
                                let items = old(store)@[key@].value->List_items;
                                assert(spec_take_count(wanted as int, items.len() as int) == 0);
                            }
                            (Reply::NullArray, false)
                        } else {
                            (Reply::Array(vs), false)
                        }
                    },
                },
            }
        },
        Command::Blpop { .. } => unreached(),
    }
}

} // verus!
