//! Byte strings and sequences of byte strings.

use vstd::prelude::*;

verus! {

/// The sequence of byte strings that a sequence of byte vectors denotes.
pub open spec fn deep(s: Seq<Vec<u8>>) -> Seq<Seq<u8>> {
    Seq::new(s.len(), |i: int| s[i]@)
}

/// `deep` preserves length.
pub broadcast proof fn lemma_deep_len(s: Seq<Vec<u8>>)
    ensures
        (#[trigger] deep(s)).len() == s.len(),
{
}

/// `deep` maps indexing.
pub broadcast proof fn lemma_deep_index(s: Seq<Vec<u8>>, i: int)
    requires
        0 <= i < s.len(),
    ensures
        #[trigger] deep(s)[i] == s[i]@,
{
}

/// `deep` maps `push`.
pub proof fn lemma_deep_push(s: Seq<Vec<u8>>, v: Vec<u8>)
    ensures
        deep(s.push(v)) == deep(s).push(v@),
{
    assert forall|i: int| 0 <= i < s.len() + 1 implies deep(s.push(v))[i] == deep(s).push(v@)[i] by {
        if i < s.len() {
            assert(s.push(v)[i] == s[i]);
        } else {
            assert(s.push(v)[i] == v);
        }
    }
    assert(deep(s.push(v)) =~= deep(s).push(v@));
}

/// `deep` maps insertion at the head.
pub proof fn lemma_deep_insert_head(s: Seq<Vec<u8>>, v: Vec<u8>)
    ensures
        deep(s.insert(0, v)) == seq![v@] + deep(s),
{
    assert forall|i: int| 0 <= i < s.len() + 1 implies deep(s.insert(0, v))[i] == (seq![v@] + deep(
        s,
    ))[i] by {
        if i == 0 {
            assert(s.insert(0, v)[0] == v);
        } else {
            assert(s.insert(0, v)[i] == s[i - 1]);
        }
    }
    assert(deep(s.insert(0, v)) =~= seq![v@] + deep(s));
}

/// `deep` maps removal at the head.
pub proof fn lemma_deep_remove_head(s: Seq<Vec<u8>>)
    requires
        s.len() > 0,
    ensures
        deep(s.remove(0)) == deep(s).skip(1),
        deep(s)[0] == s[0]@,
{
    assert forall|i: int| 0 <= i < s.len() - 1 implies deep(s.remove(0))[i] == deep(s).skip(1)[i] by {
        assert(s.remove(0)[i] == s[i + 1]);
    }
    assert(deep(s.remove(0)) =~= deep(s).skip(1));
}

/// Clone a byte string; the copy has the same bytes.
pub fn clone_bytes(v: &Vec<u8>) -> (r: Vec<u8>)
    ensures
        r@ == v@,
{
    let r = v.clone();
    proof {
        assert(r@ =~= v@);
    }
    r
}

/// A byte string holding the bytes of a fixed array.
pub fn bytes_of<const N: usize>(a: &[u8; N]) -> (r: Vec<u8>)
    ensures
        r@ == a@,
{
    let mut v: Vec<u8> = Vec::new();
    let mut i: usize = 0;
    while i < N
        invariant
            i <= N,
            a@.len() == N,
            v@ == a@.take(i as int),
        decreases N - i,
    {
        v.push(a[i]);
        i = i + 1;
        proof {
            assert(v@ =~= a@.take(i as int));
        }
    }
    proof {
        assert(v@ =~= a@);
    }
    v
}

} // verus!
