//! Engine-level laws, stated over the executor semantics `spec_execute` and
//! proved once and for all.

use vstd::prelude::*;

use crate::command::CommandModel;
use crate::exec::spec_execute;
use crate::resp::ReplyModel;
use crate::store::spec_expired;
use crate::store::spec_has_ready_list;
use crate::store::spec_lrange;
use crate::store::EntryModel;
use crate::store::ValueModel;

verus! {

/// A `GET` that returns a value is stable: if `GET k` at `t1` replies with a
/// bulk value and the keyspace is not written in between, then at any later
/// `t2` either the entry's expiry horizon has passed, or `GET k` replies with
/// the same value. The first `GET` itself leaves the keyspace unchanged.
pub proof fn lemma_get_stable(m: Map<Seq<u8>, EntryModel>, k: Seq<u8>, t1: u64, t2: u64)
    requires
        t1 <= t2,
        spec_execute(m, t1, CommandModel::Get { key: k }).reply is Bulk,
    ensures
        spec_execute(m, t1, CommandModel::Get { key: k }).db == m,
        spec_expired(m[k], t2) || spec_execute(m, t2, CommandModel::Get { key: k }).reply
            == spec_execute(m, t1, CommandModel::Get { key: k }).reply,
{
    assert(m.contains_key(k));
    assert(!spec_expired(m[k], t1));
}

/// A push of `n` values grows the list by exactly `n`: the integer reply and
/// the stored list length are both the old length plus `n`, for `RPUSH` and
/// `LPUSH` alike.
pub proof fn lemma_push_adds_length(
    m: Map<Seq<u8>, EntryModel>,
    k: Seq<u8>,
    vs: Seq<Seq<u8>>,
    right: bool,
    now_ms: u64,
)
    requires
        !(m.contains_key(k) && m[k].value is Scalar),
    ensures
        ({
            let before: nat = if m.contains_key(k) {
                m[k].value->List_items.len()
            } else {
                0
            };
            let c = if right {
                CommandModel::Rpush { key: k, values: vs }
            } else {
                CommandModel::Lpush { key: k, values: vs }
            };
            let step = spec_execute(m, now_ms, c);
            &&& step.reply == (ReplyModel::Integer { n: (before + vs.len()) as nat })
            &&& step.db.contains_key(k)
            &&& step.db[k].value matches ValueModel::List { items }
            &&& items.len() == before + vs.len()
            &&& step.notify
        }),
{
    assert(vs.reverse().len() == vs.len());
}

/// `LRANGE k 0 -1` selects the whole list, in head-to-tail order.
pub proof fn lemma_lrange_full(items: Seq<Seq<u8>>)
    ensures
        spec_lrange(items, 0, -1) == items,
{
    if items.len() > 0 {
        assert(items.subrange(0, items.len() as int) =~= items);
    } else {
        assert(spec_lrange(items, 0, -1) =~= items);
    }
}

/// The command form of the previous law: on a list key, `LRANGE k 0 -1`
/// replies with every stored element.
pub proof fn lemma_lrange_full_reply(m: Map<Seq<u8>, EntryModel>, k: Seq<u8>, now_ms: u64)
    requires
        m.contains_key(k),
        m[k].value is List,
    ensures
        spec_execute(m, now_ms, CommandModel::Lrange { key: k, start: 0i64, stop: -1i64 }).reply == (
        ReplyModel::Array { items: m[k].value->List_items }),
        spec_execute(m, now_ms, CommandModel::Lrange { key: k, start: 0i64, stop: -1i64 }).db == m,
{
    lemma_lrange_full(m[k].value->List_items);
}

/// Popping at least the list's length empties it: after `LPOP k n` with
/// `n >= LLEN k`, `LLEN k` replies `0`. An absent key counts as length zero.
pub proof fn lemma_pop_all_then_llen_zero(
    m: Map<Seq<u8>, EntryModel>,
    k: Seq<u8>,
    n: usize,
    now_ms: u64,
)
    requires
        m.contains_key(k) ==> (m[k].value matches ValueModel::List { items } && n
            >= items.len()),
    ensures
        ({
            let db2 = spec_execute(m, now_ms, CommandModel::Lpop { key: k, count: Some(n) }).db;
            spec_execute(db2, now_ms, CommandModel::Llen { key: k }).reply == (ReplyModel::Integer {
                n: 0,
            })
        }),
{
}

/// Round trip: `RPUSH` of `v1 .. vn` onto an absent key followed by
/// `LRANGE k 0 -1` returns exactly `v1 .. vn` in push order.
pub proof fn lemma_rpush_lrange_round_trip(
    m: Map<Seq<u8>, EntryModel>,
    k: Seq<u8>,
    vs: Seq<Seq<u8>>,
    now_ms: u64,
)
    requires
        !m.contains_key(k),
    ensures
        ({
            let db2 = spec_execute(m, now_ms, CommandModel::Rpush { key: k, values: vs }).db;
            spec_execute(db2, now_ms, CommandModel::Lrange { key: k, start: 0i64, stop: -1i64 }).reply
                == (ReplyModel::Array { items: vs })
        }),
{
    let db2 = spec_execute(m, now_ms, CommandModel::Rpush { key: k, values: vs }).db;
    assert(Seq::<Seq<u8>>::empty() + vs =~= vs);
    lemma_lrange_full_reply(db2, k, now_ms);
}

/// Round trip: `LPUSH` of `v1 .. vn` onto an absent key followed by
/// `LRANGE k 0 -1` returns `vn .. v1`: each value was inserted at the head.
pub proof fn lemma_lpush_lrange_round_trip(
    m: Map<Seq<u8>, EntryModel>,
    k: Seq<u8>,
    vs: Seq<Seq<u8>>,
    now_ms: u64,
)
    requires
        !m.contains_key(k),
    ensures
        ({
            let db2 = spec_execute(m, now_ms, CommandModel::Lpush { key: k, values: vs }).db;
            spec_execute(db2, now_ms, CommandModel::Lrange { key: k, start: 0i64, stop: -1i64 }).reply
                == (ReplyModel::Array { items: vs.reverse() })
        }),
{
    let db2 = spec_execute(m, now_ms, CommandModel::Lpush { key: k, values: vs }).db;
    assert(vs.reverse() + Seq::<Seq<u8>>::empty() =~= vs.reverse());
    lemma_lrange_full_reply(db2, k, now_ms);
}

/// The command sequence of `n` separate `RPUSH k v` steps, one value each.
pub open spec fn spec_single_rpushes(k: Seq<u8>, vs: Seq<Seq<u8>>) -> Seq<CommandModel> {
    Seq::new(vs.len(), |i: int| CommandModel::Rpush { key: k, values: seq![vs[i]] })
}

/// The keyspace after a sequence of commands has executed one at a time, in
/// order: the serialization that the keyspace lock imposes on concurrent
/// clients.
pub open spec fn spec_db_after(
    m: Map<Seq<u8>, EntryModel>,
    now_ms: u64,
    cmds: Seq<CommandModel>,
) -> Map<Seq<u8>, EntryModel>
    decreases cmds.len(),
{
    if cmds.len() == 0 {
        m
    } else {
        spec_db_after(spec_execute(m, now_ms, cmds[0]).db, now_ms, cmds.skip(1))
    }
}

/// `n` single-value `RPUSH k v` commands, executed in any serialization (they
/// all commute to this same sequential form under the keyspace lock), leave
/// `LLEN k` at its old value plus `n`.
pub proof fn lemma_serialized_pushes_count(
    m: Map<Seq<u8>, EntryModel>,
    k: Seq<u8>,
    vs: Seq<Seq<u8>>,
    now_ms: u64,
)
    requires
        !(m.contains_key(k) && m[k].value is Scalar),
    ensures
        ({
            let before: nat = if m.contains_key(k) {
                m[k].value->List_items.len()
            } else {
                0
            };
            let db2 = spec_db_after(m, now_ms, spec_single_rpushes(k, vs));
            spec_execute(db2, now_ms, CommandModel::Llen { key: k }).reply == (ReplyModel::Integer {
                n: before + vs.len(),
            })
        }),
    decreases vs.len(),
{
    let cmds = spec_single_rpushes(k, vs);
    if vs.len() == 0 {
    } else {
        let m1 = spec_execute(m, now_ms, cmds[0]).db;
        lemma_push_adds_length(m, k, seq![vs[0]], true, now_ms);
        lemma_serialized_pushes_count(m1, k, vs.skip(1), now_ms);
        assert(cmds.skip(1) =~~= spec_single_rpushes(k, vs.skip(1)));
    }
}

/// An entry's variant never changes in place: any command other than a
/// `SET` of that key leaves a list key holding a list and a scalar key
/// holding a scalar, for as long as the key survives.
pub proof fn lemma_variant_stable(
    m: Map<Seq<u8>, EntryModel>,
    now_ms: u64,
    c: CommandModel,
    k: Seq<u8>,
)
    requires
        m.contains_key(k),
        !(c matches CommandModel::SetValue { key, .. } && key == k),
    ensures
        ({
            let db2 = spec_execute(m, now_ms, c).db;
            db2.contains_key(k) ==> (db2[k].value is List <==> m[k].value is List)
        }),
{
}

/// Liveness of the blocking pop's re-check: a committed push of at least one
/// value leaves its key holding a non-empty list, so any waiter whose key set
/// contains that key finds a ready key on its next scan: by
/// `Store::blpop_scan`'s contract, that scan cannot return `None`.
pub proof fn lemma_push_makes_scan_ready(
    m: Map<Seq<u8>, EntryModel>,
    k: Seq<u8>,
    vs: Seq<Seq<u8>>,
    right: bool,
    now_ms: u64,
    keys: Seq<Seq<u8>>,
    i: int,
)
    requires
        !(m.contains_key(k) && m[k].value is Scalar),
        vs.len() > 0,
        0 <= i < keys.len(),
        keys[i] == k,
    ensures
        ({
            let c = if right {
                CommandModel::Rpush { key: k, values: vs }
            } else {
                CommandModel::Lpush { key: k, values: vs }
            };
            spec_has_ready_list(spec_execute(m, now_ms, c).db, keys[i])
        }),
{
    lemma_push_adds_length(m, k, vs, right, now_ms);
}

} // verus!
