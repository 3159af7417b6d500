//! The keyspace: a mapping from byte-string keys to entries that hold either a
//! scalar byte string (with an optional millisecond expiry) or an ordered list
//! of byte strings.
//!
//! The abstract model of a store is a `Map<Seq<u8>, EntryModel>`; every
//! operation's contract says exactly how it changes that map and what it
//! returns.

use vstd::prelude::*;

use crate::bytes::clone_bytes;
use crate::bytes::deep;
use crate::bytes::lemma_deep_index;
use crate::bytes::lemma_deep_insert_head;
use crate::bytes::lemma_deep_len;
use crate::bytes::lemma_deep_push;
use crate::bytes::lemma_deep_remove_head;

verus! {

broadcast use lemma_deep_len;

/// A stored value: either a scalar byte string or an ordered list of byte strings.
pub enum Value {
    Scalar(Vec<u8>),
    List(Vec<Vec<u8>>),
}

/// Mathematical model of a `Value`.
#[verifier::ext_equal]
pub enum ValueModel {
    Scalar { bytes: Seq<u8> },
    List { items: Seq<Seq<u8>> },
}

/// One keyspace entry: a value, the clock reading (in milliseconds) captured
/// when the entry was created by `SET` or by list auto-creation, and an
/// optional expiry duration in milliseconds relative to that reading.
pub struct Entry {
    pub value: Value,
    pub created_at_ms: u64,
    pub expires_in_ms: Option<u64>,
}

/// Mathematical model of an `Entry`.
#[verifier::ext_equal]
pub struct EntryModel {
    pub value: ValueModel,
    pub created_at_ms: u64,
    pub expires_in_ms: Option<u64>,
}

impl View for Value {
    type V = ValueModel;

    open spec fn view(&self) -> ValueModel {
        match self {
            Value::Scalar(b) => ValueModel::Scalar { bytes: b@ },
            Value::List(l) => ValueModel::List { items: deep(l@) },
        }
    }
}

impl View for Entry {
    type V = EntryModel;

    open spec fn view(&self) -> EntryModel {
        EntryModel {
            value: self.value@,
            created_at_ms: self.created_at_ms,
            expires_in_ms: self.expires_in_ms,
        }
    }
}

/// An entry is past its expiry horizon at `now_ms` when it carries an expiry
/// and the time elapsed since its creation strictly exceeds that expiry.
pub open spec fn spec_expired(e: EntryModel, now_ms: u64) -> bool {
    e.expires_in_ms matches Some(d) && now_ms > e.created_at_ms + d
}

/// The keyspace after lazy expiry has been applied to key `k` at time `now_ms`:
/// an entry observed past its horizon is removed before the read resolves.
pub open spec fn spec_after_read(m: Map<Seq<u8>, EntryModel>, k: Seq<u8>, now_ms: u64) -> Map<
    Seq<u8>,
    EntryModel,
> {
    if m.contains_key(k) && spec_expired(m[k], now_ms) {
        m.remove(k)
    } else {
        m
    }
}

/// What a read of key `k` observes at time `now_ms`, after lazy expiry.
pub open spec fn spec_lookup(m: Map<Seq<u8>, EntryModel>, k: Seq<u8>, now_ms: u64) -> Option<
    EntryModel,
> {
    let m2 = spec_after_read(m, k, now_ms);
    if m2.contains_key(k) {
        Some(m2[k])
    } else {
        None
    }
}

/// The entry that a push leaves at key `k`: the existing list (or a fresh
/// empty one when `k` is absent) with `vs` appended at the tail (`right`) or
/// prepended one by one at the head (`!right`), so that a head push of
/// `a b c` yields `[c, b, a]` before the old elements. The creation stamp and
/// expiry of an existing entry are kept; a fresh entry is stamped `now_ms`
/// with no expiry.
pub open spec fn spec_pushed(
    m: Map<Seq<u8>, EntryModel>,
    k: Seq<u8>,
    vs: Seq<Seq<u8>>,
    right: bool,
    now_ms: u64,
) -> EntryModel
    recommends
        !(m.contains_key(k) && m[k].value is Scalar),
{
    let olditems = if m.contains_key(k) {
        m[k].value->List_items
    } else {
        Seq::<Seq<u8>>::empty()
    };
    let newitems = if right {
        olditems + vs
    } else {
        vs.reverse() + olditems
    };
    EntryModel {
        value: ValueModel::List { items: newitems },
        created_at_ms: if m.contains_key(k) {
            m[k].created_at_ms
        } else {
            now_ms
        },
        expires_in_ms: if m.contains_key(k) {
            m[k].expires_in_ms
        } else {
            None
        },
    }
}

/// How many elements a pop of `n` removes from a list of length `len`.
pub open spec fn spec_take_count(n: int, len: int) -> int {
    if n <= len {
        n
    } else {
        len
    }
}

/// Clamp `x` into the inclusive interval `[lo, hi]`.
pub open spec fn spec_clamp(x: int, lo: int, hi: int) -> int {
    if x < lo {
        lo
    } else if x > hi {
        hi
    } else {
        x
    }
}

/// The elements `LRANGE start stop` selects from a list: signed indices,
/// negative values relative to the end (`-1` is the last element); the start
/// is clamped to `[0, len]` and the stop to `[0, len - 1]`; an empty list, a
/// start at or past the end, or a start beyond the stop select nothing;
/// otherwise the selection is inclusive on both sides.
pub open spec fn spec_lrange(items: Seq<Seq<u8>>, start: int, stop: int) -> Seq<Seq<u8>> {
    let len = items.len() as int;
    if len == 0 {
        Seq::empty()
    } else {
        let s = spec_clamp(if start < 0 { len + start } else { start }, 0, len);
        let e = spec_clamp(if stop < 0 { len + stop } else { stop }, 0, len - 1);
        if s >= len || s > e {
            Seq::empty()
        } else {
            items.subrange(s, e + 1)
        }
    }
}

/// Key `k` currently holds a non-empty list.
pub open spec fn spec_has_ready_list(m: Map<Seq<u8>, EntryModel>, k: Seq<u8>) -> bool {
    &&& m.contains_key(k)
    &&& m[k].value matches ValueModel::List { items }
    &&& items.len() > 0
}

struct Slot {
    key: Vec<u8>,
    entry: Entry,
}

/// The keyspace. Concretely an association vector; abstractly (through `view`)
/// a map from key to entry model, in which insertion order is not observable.
pub struct Store {
    slots: Vec<Slot>,
}

spec fn to_map(s: Seq<Slot>) -> Map<Seq<u8>, EntryModel>
    decreases s.len(),
{
    if s.len() == 0 {
        Map::empty()
    } else {
        to_map(s.drop_last()).insert(s.last().key@, s.last().entry@)
    }
}

spec fn uniq_keys(s: Seq<Slot>) -> bool {
    forall|i: int, j: int| 0 <= i < j < s.len() ==> s[i].key@ != s[j].key@
}

spec fn lists_never_expire(s: Seq<Slot>) -> bool {
    forall|i: int|
        0 <= i < s.len() && #[trigger] s[i].entry.value is List ==> s[i].entry.expires_in_ms
            is None
}

impl View for Store {
    type V = Map<Seq<u8>, EntryModel>;

    closed spec fn view(&self) -> Map<Seq<u8>, EntryModel> {
        to_map(self.slots@)
    }
}

proof fn lemma_to_map_contains(s: Seq<Slot>, k: Seq<u8>)
    ensures
        to_map(s).contains_key(k) <==> exists|i: int| 0 <= i < s.len() && s[i].key@ == k,
    decreases s.len(),
{
    if s.len() > 0 {
        lemma_to_map_contains(s.drop_last(), k);
        if s.last().key@ == k {
            assert(s[s.len() - 1].key@ == k);
        } else {
            if to_map(s).contains_key(k) {
                let i = choose|i: int| 0 <= i < s.drop_last().len() && s.drop_last()[i].key@ == k;
                assert(s[i].key@ == k);
            }
            if exists|i: int| 0 <= i < s.len() && s[i].key@ == k {
                let i = choose|i: int| 0 <= i < s.len() && s[i].key@ == k;
                assert(s.drop_last()[i].key@ == k);
            }
        }
    }
}

proof fn lemma_uniq_drop_last(s: Seq<Slot>)
    requires
        uniq_keys(s),
        s.len() > 0,
    ensures
        uniq_keys(s.drop_last()),
{
    assert forall|a: int, b: int|
        0 <= a < b < s.drop_last().len() implies s.drop_last()[a].key@ != s.drop_last()[b].key@ by {
        assert(s[a].key@ != s[b].key@);
    }
}

proof fn lemma_to_map_index(s: Seq<Slot>, i: int)
    requires
        uniq_keys(s),
        0 <= i < s.len(),
    ensures
        to_map(s).contains_key(s[i].key@),
        to_map(s)[s[i].key@] == s[i].entry@,
    decreases s.len(),
{
    if i < s.len() - 1 {
        lemma_uniq_drop_last(s);
        lemma_to_map_index(s.drop_last(), i);
        assert(s.drop_last()[i] == s[i]);
        assert(s[i].key@ != s.last().key@);
    }
}

proof fn lemma_to_map_push(s: Seq<Slot>, slot: Slot)
    ensures
        to_map(s.push(slot)) == to_map(s).insert(slot.key@, slot.entry@),
{
    assert(s.push(slot).drop_last() =~= s);
    assert(s.push(slot).last() == slot);
}

proof fn lemma_remove_indexing(s: Seq<Slot>, i: int)
    requires
        0 <= i < s.len(),
    ensures
        s.remove(i).len() == s.len() - 1,
        forall|j: int|
            0 <= j < s.len() - 1 ==> #[trigger] s.remove(i)[j] == (if j < i {
                s[j]
            } else {
                s[j + 1]
            }),
{
    s.remove_ensures(i);
}

proof fn lemma_to_map_remove(s: Seq<Slot>, i: int)
    requires
        uniq_keys(s),
        0 <= i < s.len(),
    ensures
        to_map(s.remove(i)) == to_map(s).remove(s[i].key@),
    decreases s.len(),
{
    lemma_remove_indexing(s, i);
    if i == s.len() - 1 {
        assert(s.remove(i) =~= s.drop_last());
        lemma_uniq_drop_last(s);
        lemma_to_map_contains(s.drop_last(), s[i].key@);
        assert forall|j: int| 0 <= j < s.len() - 1 implies s.drop_last()[j].key@ != s[i].key@ by {
            assert(s[j].key@ != s[s.len() - 1].key@);
        }
        assert(!to_map(s.drop_last()).contains_key(s[i].key@));
        assert(to_map(s.drop_last()).insert(s[i].key@, s[i].entry@).remove(s[i].key@)
            =~= to_map(s.drop_last()));
    } else {
        let s2 = s.drop_last();
        lemma_uniq_drop_last(s);
        lemma_to_map_remove(s2, i);
        lemma_remove_indexing(s2, i);
        assert(s.remove(i) =~= s2.remove(i).push(s.last()));
        lemma_to_map_push(s2.remove(i), s.last());
        assert(s[i].key@ != s.last().key@);
        assert(to_map(s2).remove(s[i].key@).insert(s.last().key@, s.last().entry@)
            =~= to_map(s2).insert(s.last().key@, s.last().entry@).remove(s[i].key@));
    }
}

/// Outcome of a `GET`-style scalar read.
pub enum GetOutcome {
    /// The key is absent (possibly because lazy expiry just removed it).
    Missing,
    /// The key holds a scalar; the bytes are returned.
    Val(Vec<u8>),
    /// The key holds a list.
    WrongType,
}

/// Outcome of a list push.
pub enum PushOutcome {
    /// The key holds a scalar; nothing was mutated.
    WrongType,
    /// The push committed; the list now has this many elements.
    Len(usize),
}

/// Outcome of a list pop.
pub enum PopOutcome {
    /// The key is absent.
    Missing,
    /// The key holds a scalar; nothing was mutated.
    WrongType,
    /// The removed elements, in their original head-to-tail order.
    Popped(Vec<Vec<u8>>),
}

/// Outcome of a list range query.
pub enum RangeOutcome {
    /// The key is absent.
    Missing,
    /// The key holds a scalar.
    WrongType,
    /// The selected elements, in head-to-tail order.
    Items(Vec<Vec<u8>>),
}

/// Outcome of a list length query.
pub enum LenOutcome {
    /// The key is absent.
    Missing,
    /// The key holds a scalar.
    WrongType,
    /// The list length.
    Len(usize),
}

impl Store {
    /// Well-formedness: keys are unique, and list entries never carry an
    /// expiry (`SET` with `PX` is the only producer of expiries, and it only
    /// produces scalars).
    pub closed spec fn wf(&self) -> bool {
        uniq_keys(self.slots@) && lists_never_expire(self.slots@)
    }

    /// Every list entry of a well-formed store is free of expiry.
    pub proof fn lemma_wf_lists_never_expire(&self, k: Seq<u8>)
        requires
            self.wf(),
            self@.contains_key(k),
            self@[k].value is List,
        ensures
            self@[k].expires_in_ms is None,
    {
        lemma_to_map_contains(self.slots@, k);
        let i = choose|i: int| 0 <= i < self.slots@.len() && self.slots@[i].key@ == k;
        lemma_to_map_index(self.slots@, i);
    }

    /// An empty keyspace.
    pub fn new() -> (s: Store)
        ensures
            s.wf(),
            s@ == Map::<Seq<u8>, EntryModel>::empty(),
    {
        Store { slots: Vec::new() }
    }

    fn find(&self, k: &Vec<u8>) -> (r: Option<usize>)
        ensures
            match r {
                Some(i) => i < self.slots@.len() && self.slots@[i as int].key@ == k@,
                None => forall|i: int| 0 <= i < self.slots@.len() ==> self.slots@[i].key@ != k@,
            },
    {
        let mut i: usize = 0;
        while i < self.slots.len()
            invariant
                i <= self.slots@.len(),
                forall|j: int| 0 <= j < i ==> self.slots@[j].key@ != k@,
            decreases self.slots@.len() - i,
        {
            if &self.slots[i].key == k {
                proof {
                    assert(self.slots@[i as int].key@ =~= k@);
                }
                return Some(i);
            }
            proof {
                assert(self.slots@[i as int].key@ != k@);
            }
            i = i + 1;
        }
        None
    }

    /// Remove the slot at `i`; the map loses exactly that slot's key.
    fn take_at(&mut self, i: usize) -> (slot: Slot)
        requires
            old(self).wf(),
            i < old(self).slots@.len(),
        ensures
            final(self).wf(),
            slot == old(self).slots@[i as int],
            final(self)@ == old(self)@.remove(slot.key@),
            old(self)@.contains_key(slot.key@),
            old(self)@[slot.key@] == slot.entry@,
            forall|j: int|
                0 <= j < final(self).slots@.len() ==> final(self).slots@[j].key@ != slot.key@,
    {
        proof {
            lemma_to_map_remove(self.slots@, i as int);
            lemma_to_map_index(self.slots@, i as int);
            lemma_remove_indexing(self.slots@, i as int);
        }
        let slot = self.slots.remove(i);
        proof {
            let s0 = old(self).slots@;
            let s1 = self.slots@;
            assert forall|a: int, b: int| 0 <= a < b < s1.len() implies s1[a].key@ != s1[b].key@ by {
                assert(s1[a] == (if a < i as int { s0[a] } else { s0[a + 1] }));
                assert(s1[b] == (if b < i as int { s0[b] } else { s0[b + 1] }));
            }
            assert forall|j: int|
                0 <= j < s1.len() && #[trigger] s1[j].entry.value is List implies s1[j].entry.expires_in_ms is None by {
                assert(s1[j] == (if j < i as int { s0[j] } else { s0[j + 1] }));
            }
            assert forall|j: int| 0 <= j < s1.len() implies s1[j].key@ != s0[i as int].key@ by {
                assert(s1[j] == (if j < i as int { s0[j] } else { s0[j + 1] }));
            }
        }
        slot
    }

    /// Append a slot whose key is absent; the map gains exactly that binding.
    fn put_new(&mut self, slot: Slot)
        requires
            old(self).wf(),
            forall|j: int|
                0 <= j < old(self).slots@.len() ==> old(self).slots@[j].key@ != slot.key@,
            slot.entry.value is List ==> slot.entry.expires_in_ms is None,
        ensures
            final(self).wf(),
            final(self)@ == old(self)@.insert(slot.key@, slot.entry@),
    {
        let ghost s0 = self.slots@;
        let ghost slotg = slot;
        self.slots.push(slot);
        proof {
            lemma_to_map_push(s0, slotg);
            let s1 = self.slots@;
            assert(s1 =~= s0.push(slotg));
            assert forall|a: int, b: int| 0 <= a < b < s1.len() implies s1[a].key@ != s1[b].key@ by {
                if b == s1.len() - 1 {
                    assert(s1[a] == s0[a]);
                } else {
                    assert(s1[a] == s0[a]);
                    assert(s1[b] == s0[b]);
                }
            }
            assert forall|j: int|
                0 <= j < s1.len() && #[trigger] s1[j].entry.value is List implies s1[j].entry.expires_in_ms is None by {
                if j < s1.len() - 1 {
                    assert(s1[j] == s0[j]);
                }
            }
        }
    }

    /// `SET`: unconditionally create or overwrite a scalar entry at `k`,
    /// stamped with the current clock reading and the given optional expiry.
    pub fn put_scalar(&mut self, k: &Vec<u8>, v: Vec<u8>, ttl_ms: Option<u64>, now_ms: u64)
        requires
            old(self).wf(),
        ensures
            final(self).wf(),
            final(self)@ == old(self)@.insert(
                k@,
                EntryModel {
                    value: ValueModel::Scalar { bytes: v@ },
                    created_at_ms: now_ms,
                    expires_in_ms: ttl_ms,
                },
            ),
    {
        let entry = Entry { value: Value::Scalar(v), created_at_ms: now_ms, expires_in_ms: ttl_ms };
        match self.find(k) {
            Some(i) => {
                let victim = self.take_at(i);
                proof {
                    assert(victim.key@ == k@);
                }
                self.put_new(Slot { key: clone_bytes(k), entry });
                proof {
                    assert(self@ =~= old(self)@.insert(
                        k@,
                        EntryModel {
                            value: ValueModel::Scalar { bytes: v@ },
                            created_at_ms: now_ms,
                            expires_in_ms: ttl_ms,
                        },
                    ));
                }
            },
            None => {
                self.put_new(Slot { key: clone_bytes(k), entry });
            },
        }
    }

    /// `GET`: apply lazy expiry to `k`, then report what the key holds.
    pub fn get(&mut self, k: &Vec<u8>, now_ms: u64) -> (r: GetOutcome)
        requires
            old(self).wf(),
        ensures
            final(self).wf(),
            final(self)@ == spec_after_read(old(self)@, k@, now_ms),
            match r {
                GetOutcome::Missing => spec_lookup(old(self)@, k@, now_ms) is None,
                GetOutcome::Val(v) => spec_lookup(old(self)@, k@, now_ms) matches Some(e)
                    && e.value == (ValueModel::Scalar { bytes: v@ }),
                GetOutcome::WrongType => spec_lookup(old(self)@, k@, now_ms) matches Some(e)
                    && e.value is List,
            },
    {
        match self.find(k) {
            None => {
                proof {
                    lemma_to_map_contains(self.slots@, k@);
                }
                GetOutcome::Missing
            },
            Some(i) => {
                proof {
                    lemma_to_map_index(self.slots@, i as int);
                }
                let expired = match self.slots[i].entry.expires_in_ms {
                    Some(d) => (now_ms as u128) > (self.slots[i].entry.created_at_ms as u128) + (
                    d as u128),
                    None => false,
                };
                proof {
                    assert(expired == spec_expired(old(self)@[k@], now_ms));
                }
                if expired {
                    let victim = self.take_at(i);
                    GetOutcome::Missing
                } else {
                    match &self.slots[i].entry.value {
                        Value::Scalar(b) => {
                            let v = clone_bytes(b);
                            proof {
                                assert(old(self)@[k@].value =~= ValueModel::Scalar { bytes: v@ });
                            }
                            GetOutcome::Val(v)
                        },
                        Value::List(_) => GetOutcome::WrongType,
                    }
                }
            },
        }
    }

    /// `RPUSH`/`LPUSH`: push `values` onto the list at `k`, creating the list
    /// when `k` is absent; `right` selects tail (`RPUSH`) or head (`LPUSH`).
    /// A scalar at `k` is a type error and nothing is mutated.
    pub fn list_push(&mut self, k: &Vec<u8>, values: &Vec<Vec<u8>>, right: bool, now_ms: u64) -> (r:
        PushOutcome)
        requires
            old(self).wf(),
        ensures
            final(self).wf(),
            old(self)@.contains_key(k@) && old(self)@[k@].value is Scalar ==> r is WrongType
                && final(self)@ == old(self)@,
            !(old(self)@.contains_key(k@) && old(self)@[k@].value is Scalar) ==> {
                let e = spec_pushed(old(self)@, k@, deep(values@), right, now_ms);
                &&& final(self)@ == old(self)@.insert(k@, e)
                &&& r matches PushOutcome::Len(n) && n == e.value->List_items.len()
            },
    {
        match self.find(k) {
            None => {
                proof {
                    lemma_to_map_contains(self.slots@, k@);
                }
                let mut list: Vec<Vec<u8>> = Vec::new();
                if right {
                    append_values(&mut list, values);
                } else {
                    prepend_values(&mut list, values);
                }
                let n = list.len();
                self.put_new(
                    Slot {
                        key: clone_bytes(k),
                        entry: Entry {
                            value: Value::List(list),
                            created_at_ms: now_ms,
                            expires_in_ms: None,
                        },
                    },
                );
                proof {
                    let e = spec_pushed(old(self)@, k@, deep(values@), right, now_ms);
                    assert(Seq::<Seq<u8>>::empty() + deep(values@) =~= deep(values@));
                    assert(deep(values@).reverse() + Seq::<Seq<u8>>::empty()
                        =~= deep(values@).reverse());
                    assert(self@ =~= old(self)@.insert(k@, e));
                }
                PushOutcome::Len(n)
            },
            Some(i) => {
                proof {
                    lemma_to_map_index(self.slots@, i as int);
                }
                let is_scalar = match &self.slots[i].entry.value {
                    Value::Scalar(_) => true,
                    Value::List(_) => false,
                };
                if is_scalar {
                    return PushOutcome::WrongType;
                }
                let slot = self.take_at(i);
                let Slot { key, entry } = slot;
                let Entry { value, created_at_ms, expires_in_ms } = entry;
                match value {
                    Value::List(mut list) => {
                        let ghost olditems = deep(list@);
                        if right {
                            append_values(&mut list, values);
                        } else {
                            prepend_values(&mut list, values);
                        }
                        let n = list.len();
                        self.put_new(
                            Slot {
                                key,
                                entry: Entry {
                                    value: Value::List(list),
                                    created_at_ms,
                                    expires_in_ms,
                                },
                            },
                        );
                        proof {
                            let e = spec_pushed(old(self)@, k@, deep(values@), right, now_ms);
                            assert(self@ =~= old(self)@.insert(k@, e));
                        }
                        PushOutcome::Len(n)
                    },
                    Value::Scalar(_) => unreached(),
                }
            },
        }
    }

    /// `LPOP`: remove and return up to `n` elements from the head of the list
    /// at `k`, in their original head-to-tail order. A scalar at `k` is a type
    /// error and nothing is mutated; an absent key pops nothing.
    pub fn list_pop_left(&mut self, k: &Vec<u8>, n: usize) -> (r: PopOutcome)
        requires
            old(self).wf(),
        ensures
            final(self).wf(),
            match r {
                PopOutcome::Missing => !old(self)@.contains_key(k@) && final(self)@ == old(self)@,
                PopOutcome::WrongType => old(self)@.contains_key(k@) && old(self)@[k@].value
                    is Scalar && final(self)@ == old(self)@,
                PopOutcome::Popped(vs) => {
                    &&& old(self)@.contains_key(k@)
                    &&& old(self)@[k@].value matches ValueModel::List { items }
                    &&& deep(vs@) == items.take(spec_take_count(n as int, items.len() as int))
                    &&& final(self)@ == old(self)@.insert(
                        k@,
                        EntryModel {
                            value: ValueModel::List {
                                items: items.skip(
                                    spec_take_count(n as int, items.len() as int),
                                ),
                            },
                            created_at_ms: old(self)@[k@].created_at_ms,
                            expires_in_ms: old(self)@[k@].expires_in_ms,
                        },
                    )
                },
            },
    {
        match self.find(k) {
            None => {
                proof {
                    lemma_to_map_contains(self.slots@, k@);
                }
                PopOutcome::Missing
            },
            Some(i) => {
                proof {
                    lemma_to_map_index(self.slots@, i as int);
                }
                let is_scalar = match &self.slots[i].entry.value {
                    Value::Scalar(_) => true,
                    Value::List(_) => false,
                };
                if is_scalar {
                    return PopOutcome::WrongType;
                }
                let slot = self.take_at(i);
                let Slot { key, entry } = slot;
                let Entry { value, created_at_ms, expires_in_ms } = entry;
                match value {
                    Value::List(mut list) => {
                        let ghost items0 = deep(list@);
                        let take = if n < list.len() {
                            n
                        } else {
                            list.len()
                        };
                        let mut popped: Vec<Vec<u8>> = Vec::new();
                        let mut j: usize = 0;
                        while j < take
                            invariant
                                j <= take,
                                take as int == spec_take_count(n as int, items0.len() as int),
                                take <= list@.len() + j,
                                deep(popped@) == items0.take(j as int),
                                deep(list@) == items0.skip(j as int),
                            decreases take - j,
                        {
                            let ghost prelist = list@;
                            let ghost prepopped = popped@;
                            let head = list.remove(0);
                            proof {
                                lemma_deep_remove_head(prelist);
                            }
                            popped.push(head);
                            j = j + 1;
                            proof {
                                let c = popped@.last();
                                assert(popped@ == prepopped.push(c));
                                lemma_deep_push(prepopped, c);
                                assert(c@ == deep(prelist)[0]);
                                assert(deep(prelist)[0] == items0.skip(j - 1)[0]);
                                assert(deep(popped@) =~= items0.take(j as int));
                                assert(deep(list@) =~= items0.skip(j as int));
                            }
                        }
                        self.put_new(
                            Slot {
                                key,
                                entry: Entry {
                                    value: Value::List(list),
                                    created_at_ms,
                                    expires_in_ms,
                                },
                            },
                        );
                        proof {
                            assert(self@ =~= old(self)@.insert(
                                k@,
                                EntryModel {
                                    value: ValueModel::List {
                                        items: items0.skip(
                                            spec_take_count(n as int, items0.len() as int),
                                        ),
                                    },
                                    created_at_ms,
                                    expires_in_ms,
                                },
                            ));
                        }
                        PopOutcome::Popped(popped)
                    },
                    Value::Scalar(_) => unreached(),
                }
            },
        }
    }

    /// `LRANGE`: the selected elements of the list at `k` (see `spec_lrange`).
    pub fn list_range(&self, k: &Vec<u8>, start: i64, stop: i64) -> (r: RangeOutcome)
        requires
            self.wf(),
        ensures
            match r {
                RangeOutcome::Missing => !self@.contains_key(k@),
                RangeOutcome::WrongType => self@.contains_key(k@) && self@[k@].value is Scalar,
                RangeOutcome::Items(v) => {
                    &&& self@.contains_key(k@)
                    &&& self@[k@].value matches ValueModel::List { items }
                    &&& deep(v@) == spec_lrange(items, start as int, stop as int)
                },
            },
    {
        match self.find(k) {
            None => {
                proof {
                    lemma_to_map_contains(self.slots@, k@);
                }
                RangeOutcome::Missing
            },
            Some(i) => {
                proof {
                    lemma_to_map_index(self.slots@, i as int);
                }
                match &self.slots[i].entry.value {
                    Value::Scalar(_) => RangeOutcome::WrongType,
                    Value::List(list) => {
                        let ghost items = deep(list@);
                        let len_i: i128 = list.len() as i128;
                        if list.len() == 0 {
                            let out: Vec<Vec<u8>> = Vec::new();
                            proof {
                                assert(deep(out@) =~= spec_lrange(
                                    items,
                                    start as int,
                                    stop as int,
                                ));
                            }
                            return RangeOutcome::Items(out);
                        }
                        let s0: i128 = if start < 0 {
                            len_i + start as i128
                        } else {
                            start as i128
                        };
                        let s: i128 = if s0 < 0 {
                            0
                        } else if s0 > len_i {
                            len_i
                        } else {
                            s0
                        };
                        let e0: i128 = if stop < 0 {
                            len_i + stop as i128
                        } else {
                            stop as i128
                        };
                        let e: i128 = if e0 < 0 {
                            0
                        } else if e0 > len_i - 1 {
                            len_i - 1
                        } else {
                            e0
                        };
                        if s >= len_i || s > e {
                            let out: Vec<Vec<u8>> = Vec::new();
                            proof {
                                assert(deep(out@) =~= spec_lrange(
                                    items,
                                    start as int,
                                    stop as int,
                                ));
                            }
                            return RangeOutcome::Items(out);
                        }
                        let su: usize = s as usize;
                        let eu: usize = e as usize;
                        let mut out: Vec<Vec<u8>> = Vec::new();
                        let mut idx: usize = su;
                        while idx <= eu
                            invariant
                                su <= idx,
                                idx <= eu + 1,
                                eu < list@.len(),
                                list@.len() <= usize::MAX,
                                su as int == s,
                                eu as int == e,
                                items == deep(list@),
                                deep(out@) == items.subrange(su as int, idx as int),
                            decreases eu + 1 - idx,
                        {
                            let ghost preout = out@;
                            out.push(clone_bytes(&list[idx]));
                            idx = idx + 1;
                            proof {
                                let c = out@.last();
                                assert(out@ == preout.push(c));
                                lemma_deep_push(preout, c);
                                lemma_deep_index(list@, idx - 1);
                                assert(c@ == deep(list@)[idx - 1]);
                                assert(deep(out@) =~= items.subrange(su as int, idx as int));
                            }
                        }
                        proof {
                            assert(deep(out@) =~= spec_lrange(items, start as int, stop as int));
                        }
                        RangeOutcome::Items(out)
                    },
                }
            },
        }
    }

    /// `LLEN`: the length of the list at `k`.
    pub fn list_len(&self, k: &Vec<u8>) -> (r: LenOutcome)
        requires
            self.wf(),
        ensures
            match r {
                LenOutcome::Missing => !self@.contains_key(k@),
                LenOutcome::WrongType => self@.contains_key(k@) && self@[k@].value is Scalar,
                LenOutcome::Len(n) => {
                    &&& self@.contains_key(k@)
                    &&& self@[k@].value matches ValueModel::List { items }
                    &&& n == items.len()
                },
            },
    {
        match self.find(k) {
            None => {
                proof {
                    lemma_to_map_contains(self.slots@, k@);
                }
                LenOutcome::Missing
            },
            Some(i) => {
                proof {
                    lemma_to_map_index(self.slots@, i as int);
                }
                match &self.slots[i].entry.value {
                    Value::Scalar(_) => LenOutcome::WrongType,
                    Value::List(list) => LenOutcome::Len(list.len()),
                }
            },
        }
    }

    /// `BLPOP`'s scan step: walk `keys` in the given order; at the first key
    /// that holds a non-empty list, pop its head and return the winning
    /// position together with the popped element. Earlier keys win ties; keys
    /// that are absent or hold scalars or empty lists are skipped. When no key
    /// is ready nothing is mutated.
    pub fn blpop_scan(&mut self, keys: &Vec<Vec<u8>>) -> (r: Option<(usize, Vec<u8>)>)
        requires
            old(self).wf(),
        ensures
            final(self).wf(),
            match r {
                None => final(self)@ == old(self)@ && forall|j: int|
                    0 <= j < keys@.len() ==> !spec_has_ready_list(old(self)@, keys@[j]@),
                Some((i, v)) => {
                    &&& (i as int) < keys@.len()
                    &&& spec_has_ready_list(old(self)@, keys@[i as int]@)
                    &&& forall|j: int|
                        0 <= j < i as int ==> !spec_has_ready_list(old(self)@, keys@[j]@)
                    &&& old(self)@[keys@[i as int]@].value matches ValueModel::List { items }
                    &&& v@ == items[0]
                    &&& final(self)@ == old(self)@.insert(
                        keys@[i as int]@,
                        EntryModel {
                            value: ValueModel::List { items: items.skip(1) },
                            created_at_ms: old(self)@[keys@[i as int]@].created_at_ms,
                            expires_in_ms: old(self)@[keys@[i as int]@].expires_in_ms,
                        },
                    )
                },
            },
    {
        let mut i: usize = 0;
        while i < keys.len()
            invariant
                old(self).wf(),
                *self == *old(self),
                i <= keys@.len(),
                forall|j: int| 0 <= j < i ==> !spec_has_ready_list(old(self)@, keys@[j]@),
            decreases keys@.len() - i,
        {
            let ready = match self.find(&keys[i]) {
                Some(slot_i) => {
                    proof {
                        lemma_to_map_index(self.slots@, slot_i as int);
                    }
                    match &self.slots[slot_i].entry.value {
                        Value::List(list) => list.len() > 0,
                        Value::Scalar(_) => false,
                    }
                },
                None => {
                    proof {
                        lemma_to_map_contains(self.slots@, keys@[i as int]@);
                    }
                    false
                },
            };
            if ready {
                let popped = self.list_pop_left(&keys[i], 1);
                match popped {
                    PopOutcome::Popped(mut vs) => {
                        proof {
                            let items = old(self)@[keys@[i as int]@].value->List_items;
                            assert(deep(vs@) =~= items.take(1));
                            assert(deep(vs@).len() == 1);
                            assert(vs@.len() == 1);
                            assert(deep(vs@)[0] == items[0]);
                        }
                        let v = match vs.pop() {
                            Some(v) => v,
                            None => unreached(),
                        };
                        proof {
                            let items = old(self)@[keys@[i as int]@].value->List_items;
                            assert(items.skip(spec_take_count(1int, items.len() as int))
                                =~= items.skip(1));
                        }
                        return Some((i, v));
                    },
                    _ => unreached(),
                }
            }
            proof {
                assert(!spec_has_ready_list(old(self)@, keys@[i as int]@));
            }
            i = i + 1;
        }
        None
    }
}

/// Append clones of `values` at the tail of `list`, in order.
fn append_values(list: &mut Vec<Vec<u8>>, values: &Vec<Vec<u8>>)
    ensures
        deep(final(list)@) == deep(old(list)@) + deep(values@),
{
    let ghost base = list@;
    let mut j: usize = 0;
    while j < values.len()
        invariant
            j <= values@.len(),
            deep(list@) == deep(base) + deep(values@).take(j as int),
        decreases values@.len() - j,
    {
        let ghost pre = list@;
        list.push(clone_bytes(&values[j]));
        j = j + 1;
        proof {
            let c = list@.last();
            assert(list@ == pre.push(c));
            assert(c@ == values@[j - 1]@);
            lemma_deep_push(pre, c);
            lemma_deep_index(values@, j - 1);
            assert(deep(list@) =~= deep(base) + deep(values@).take(j as int));
        }
    }
    proof {
        assert(deep(values@).take(values@.len() as int) =~= deep(values@));
        assert(deep(base) + deep(values@) =~= deep(list@));
    }
}

/// Insert clones of `values` one by one at the head of `list`: the first value
/// ends up deepest, the last value at the head.
fn prepend_values(list: &mut Vec<Vec<u8>>, values: &Vec<Vec<u8>>)
    ensures
        deep(final(list)@) == deep(values@).reverse() + deep(old(list)@),
{
    let ghost base = list@;
    let mut j: usize = 0;
    while j < values.len()
        invariant
            j <= values@.len(),
            deep(list@) == deep(values@).take(j as int).reverse() + deep(base),
        decreases values@.len() - j,
    {
        let ghost pre = list@;
        list.insert(0, clone_bytes(&values[j]));
        j = j + 1;
        proof {
            let c = list@[0];
            assert(list@ == pre.insert(0, c));
            assert(c@ == values@[j - 1]@);
            lemma_deep_insert_head(pre, c);
            lemma_deep_index(values@, j - 1);
            assert(deep(values@).take(j as int).reverse() =~= seq![deep(values@)[j - 1]]
                + deep(values@).take(j - 1).reverse());
            assert(deep(list@) =~= deep(values@).take(j as int).reverse() + deep(base));
        }
    }
    proof {
        assert(deep(values@).take(values@.len() as int) =~= deep(values@));
    }
}

/// `BLPOP`'s timeout decision: with a positive timeout the wait is over once
/// the elapsed time reaches it; a timeout of zero waits forever.
pub fn blpop_timed_out(timeout_ms: u64, elapsed_ms: u64) -> (r: bool)
    ensures
        r == (timeout_ms > 0 && elapsed_ms >= timeout_ms),
{
    timeout_ms > 0 && elapsed_ms >= timeout_ms
}

} // verus!
