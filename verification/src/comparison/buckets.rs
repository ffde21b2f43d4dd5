//! Fingerprint-set bucketing: the XOR-fold key of a fingerprint set,
//! which does not depend on the order in which the set is walked.
use vstd::prelude::*;

use std::collections::HashSet;
use vstd::std_specs::iter::IteratorSpec;

verus! {

broadcast use vstd::std_specs::hash::group_hash_axioms;

/// The XOR of a sequence of values (0 for the empty sequence).
pub open spec fn xor_seq(s: Seq<u64>) -> u64
    decreases s.len(),
{
    if s.len() == 0 {
        0
    } else {
        xor_seq(s.drop_last()) ^ s.last()
    }
}

/// The XOR of a finite set's elements: the XOR of any enumeration of
/// it without repetition (all give the same value).
pub open spec fn set_xor(s: Set<u64>) -> u64 {
    xor_seq(choose|e: Seq<u64>| e.no_duplicates() && e.to_set() == s)
}

/// The bucket key of a fingerprint set: the XOR of its elements (0 for
/// the empty set).
pub fn bucket_key(set: &HashSet<u64>) -> (r: u64)
    ensures
        r == set_xor(set@),
{
    let mut acc: u64 = 0;
    let it0 = set.iter();
    let ghost keys = it0.remaining().unref();
    assert(keys.no_duplicates());
    for x in it: it0
        invariant
            acc == xor_seq(it.seq().unref().take(it.index())),
            it.seq().unref() == keys,
    {
        assert(it.seq().unref().take(it.index() + 1).drop_last() =~= it.seq().unref().take(it.index()));
        acc = acc ^ *x;
    }
    assert(keys.take(keys.len() as int) =~= keys);
    proof {
        let e = choose|e: Seq<u64>| e.no_duplicates() && e.to_set() == set@;
        assert(keys.no_duplicates() && keys.to_set() == set@);
        lemma_xor_seq_perm(keys, e);
    }
    acc
}

/// Dropping element `j` and XOR-ing it back gives the whole XOR.
pub proof fn lemma_xor_remove(s: Seq<u64>, j: int)
    requires
        0 <= j < s.len(),
    ensures
        xor_seq(s) == xor_seq(s.remove(j)) ^ s[j],
    decreases s.len(),
{
    if j == s.len() - 1 {
        assert(s.remove(j) =~= s.drop_last());
    } else {
        lemma_xor_remove(s.drop_last(), j);
        assert(s.remove(j).drop_last() =~= s.drop_last().remove(j));
        assert(s.remove(j).last() == s.last());
        let a = xor_seq(s.drop_last().remove(j));
        let b = s[j];
        let c = s.last();
        assert((a ^ b) ^ c == (a ^ c) ^ b) by (bit_vector);
    }
}

/// Two enumerations without repetition of the same set have the same
/// XOR: the key does not depend on the order a set is walked in.
pub proof fn lemma_xor_seq_perm(a: Seq<u64>, b: Seq<u64>)
    requires
        a.no_duplicates(),
        b.no_duplicates(),
        a.to_set() == b.to_set(),
    ensures
        xor_seq(a) == xor_seq(b),
    decreases a.len(),
{
    if a.len() == 0 {
        if b.len() > 0 {
            assert(b.to_set().contains(b[0]));
            assert(!a.to_set().contains(b[0]));
        }
    } else {
        let x = a.last();
        assert(a.to_set().contains(x));
        assert(b.to_set().contains(x));
        let j = choose|j: int| 0 <= j < b.len() && b[j] == x;
        let a2 = a.drop_last();
        let b2 = b.remove(j);
        assert forall|y: u64| a2.to_set().contains(y) <==> b2.to_set().contains(y) by {
            if a2.to_set().contains(y) {
                let i = choose|i: int| 0 <= i < a2.len() && a2[i] == y;
                assert(a[i] == y);
                assert(y != x);
                assert(a.to_set().contains(y));
                assert(b.to_set().contains(y));
                let k = choose|k: int| 0 <= k < b.len() && b[k] == y;
                assert(k != j);
                if k < j {
                    assert(b2[k] == y);
                } else {
                    assert(b2[k - 1] == y);
                }
            }
            if b2.to_set().contains(y) {
                let k = choose|k: int| 0 <= k < b2.len() && b2[k] == y;
                let kk = if k < j { k } else { k + 1 };
                assert(b[kk] == y);
                assert(kk != j);
                assert(y != x);
                assert(b.to_set().contains(y));
                assert(a.to_set().contains(y));
                let i = choose|i: int| 0 <= i < a.len() && a[i] == y;
                assert(i != a.len() - 1);
                assert(a2[i] == y);
            }
        }
        assert(a2.to_set() =~= b2.to_set());
        assert(a2.no_duplicates());
        assert(b2.no_duplicates()) by {
            assert forall|p: int, q: int| 0 <= p < b2.len() && 0 <= q < b2.len() && p != q implies b2[p]
                != b2[q] by {
                let pp = if p < j { p } else { p + 1 };
                let qq = if q < j { q } else { q + 1 };
                assert(b2[p] == b[pp]);
                assert(b2[q] == b[qq]);
            }
        }
        lemma_xor_seq_perm(a2, b2);
        lemma_xor_remove(b, j);
    }
}

} // verus!
