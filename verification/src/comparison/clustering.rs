//! The integer side of the comparison engine: exact-match bucketing of
//! forms by fingerprint set, the claim-aware ordering of the pairwise
//! pass, the absorption test of the clique pass, and the paths and
//! references reported for forms.
use vstd::prelude::*;

use std::collections::{BTreeMap, HashSet};
use vstd::std_specs::iter::IteratorSpec;

use crate::domain::{FilePath, FormRef, NormalizedForm};
use super::buckets::{bucket_key, set_xor};
use crate::text::strings_view;

verus! {

broadcast use {
    vstd::laws_cmp::group_laws_cmp,
    vstd::std_specs::btree::group_btree_axioms,
    vstd::std_specs::hash::group_hash_axioms,
};

/// The bucket key of a form: the XOR of its fingerprint set.
pub open spec fn form_key(f: NormalizedForm) -> u64 {
    set_xor(f.fingerprint_set@)
}

/// The indices below `n`, ascending, of the forms with a non-empty
/// fingerprint set whose key is `key`.
pub open spec fn bucket_indices(forms: Seq<NormalizedForm>, key: u64, n: int) -> Seq<usize>
    decreases n,
{
    if n <= 0 {
        Seq::empty()
    } else {
        bucket_indices(forms, key, n - 1) + if !forms[n - 1].fingerprint_set@.is_empty()
            && form_key(forms[n - 1]) == key {
            seq![(n - 1) as usize]
        } else {
            Seq::empty()
        }
    }
}

/// Group the forms with a non-empty fingerprint set by bucket key: each
/// key present maps to the ascending indices of its forms.
pub fn group_forms_by_bucket_key(forms: &[NormalizedForm]) -> (r: BTreeMap<u64, Vec<usize>>)
    ensures
        forall|key: u64|
            #[trigger] r@.contains_key(key) <==> bucket_indices(forms@, key, forms@.len() as int).len()
                > 0,
        forall|key: u64|
            #[trigger] r@.contains_key(key) ==> r@[key]@ == bucket_indices(
                forms@,
                key,
                forms@.len() as int,
            ),
{
    let mut buckets: BTreeMap<u64, Vec<usize>> = BTreeMap::new();
    let mut i: usize = 0;
    while i < forms.len()
        invariant
            i <= forms@.len(),
            forall|key: u64|
                #[trigger] buckets@.contains_key(key) <==> bucket_indices(forms@, key, i as int).len()
                    > 0,
            forall|key: u64|
                #[trigger] buckets@.contains_key(key) ==> buckets@[key]@ == bucket_indices(
                    forms@,
                    key,
                    i as int,
                ),
        decreases forms@.len() - i,
    {
        let ghost before = buckets@;
        if !forms[i].fingerprint_set.is_empty() {
            let key = bucket_key(&forms[i].fingerprint_set);
            let mut v = match buckets.remove(&key) {
                Some(v) => v,
                None => Vec::new(),
            };
            let ghost prev = v@;
            v.push(i);
            buckets.insert(key, v);
            proof {
                assert(prev == bucket_indices(forms@, key, i as int));
                assert forall|k: u64| #[trigger] buckets@.contains_key(k) <==> bucket_indices(forms@, k, i + 1).len() > 0 by {
                    if k != key {
                        assert(bucket_indices(forms@, k, i + 1) =~= bucket_indices(forms@, k, i as int));
                    }
                }
                assert forall|k: u64| #[trigger] buckets@.contains_key(k) implies buckets@[k]@ == bucket_indices(forms@, k, i + 1) by {
                    if k != key {
                        assert(bucket_indices(forms@, k, i + 1) =~= bucket_indices(forms@, k, i as int));
                    }
                }
            }
        } else {
            proof {
                assert forall|k: u64| #[trigger] bucket_indices(forms@, k, i + 1) == bucket_indices(forms@, k, i as int) by {
                    assert(bucket_indices(forms@, k, i + 1) =~= bucket_indices(forms@, k, i as int));
                }
            }
        }
        i = i + 1;
    }
    buckets
}

/// Whether two fingerprint sets hold the same fingerprints.
pub fn fingerprint_sets_equal(a: &HashSet<u64>, b: &HashSet<u64>) -> (r: bool)
    ensures
        r == (a@ == b@),
{
    if a.len() != b.len() {
        return false;
    }
    let it0 = a.iter();
    let ghost keys = it0.remaining().unref();
    for x in it: it0
        invariant
            a@.len() == b@.len(),
            it.seq().unref() == keys,
            keys.to_set() == a@,
            forall|k: int| 0 <= k < it.index() ==> b@.contains(keys[k]),
    {
        if !b.contains(x) {
            assert(keys.to_set().contains(*x));
            return false;
        }
    }
    proof {
        assert forall|y: u64| a@.contains(y) implies b@.contains(y) by {
            assert(keys.to_set().contains(y));
            let k = choose|k: int| 0 <= k < keys.len() && keys[k] == y;
        }
        let bk = vstd::std_specs::hash::spec_hash_keys_iter(b).remaining().unref();
        assert(bk.to_set() == b@);
        vstd::seq_lib::seq_to_set_is_finite(bk);
        vstd::seq_lib::seq_to_set_is_finite(keys);
        vstd::set_lib::lemma_subset_equality(a@, b@);
    }
    true
}

/// The indices of `idx`, in order, whose form's fingerprint set is (for
/// `want`) or is not (for `!want`) equal to `s`.
pub open spec fn keep(forms: Seq<NormalizedForm>, idx: Seq<usize>, s: Set<u64>, want: bool) -> Seq<
    usize,
>
    decreases idx.len(),
{
    if idx.len() == 0 {
        Seq::empty()
    } else {
        keep(forms, idx.drop_last(), s, want) + if (forms[idx.last() as int].fingerprint_set@ == s)
            == want {
            seq![idx.last()]
        } else {
            Seq::empty()
        }
    }
}

/// Splitting by a predicate keeps every index once, and an index whose
/// set is `s` goes to the matching side.
pub proof fn lemma_keep_split(forms: Seq<NormalizedForm>, idx: Seq<usize>, s: Set<u64>)
    ensures
        keep(forms, idx, s, true).len() + keep(forms, idx, s, false).len() == idx.len(),
        idx.len() > 0 && forms[idx[0] as int].fingerprint_set@ == s ==> keep(forms, idx, s, true).len()
            > 0,
    decreases idx.len(),
{
    if idx.len() > 0 {
        lemma_keep_split(forms, idx.drop_last(), s);
        if idx.len() > 1 {
            assert(idx.drop_last()[0] == idx[0]);
        }
    }
}

/// The exact-match clusters of a bucket: the indices whose set equals
/// the first index's set form one cluster (kept when it has at least
/// two members), and the rest of the bucket is split the same way.
pub open spec fn clusters_spec(forms: Seq<NormalizedForm>, idx: Seq<usize>) -> Seq<Seq<usize>>
    decreases idx.len(),
{
    if idx.len() < 2 {
        Seq::empty()
    } else {
        let s = forms[idx[0] as int].fingerprint_set@;
        let c = keep(forms, idx, s, true);
        let l = keep(forms, idx, s, false);
        proof {
            lemma_keep_split(forms, idx, s);
        }
        (if c.len() >= 2 {
            seq![c]
        } else {
            Seq::empty()
        }) + clusters_spec(forms, l)
    }
}

/// Split `indices` into `(matching, rest)` by whether each form's
/// fingerprint set equals `set`.
fn partition_by_set(forms: &[NormalizedForm], indices: &Vec<usize>, set: &HashSet<u64>) -> (r: (
    Vec<usize>,
    Vec<usize>,
))
    requires
        forall|k: int| 0 <= k < indices@.len() ==> #[trigger] indices@[k] < forms@.len(),
    ensures
        r.0@ == keep(forms@, indices@, set@, true),
        r.1@ == keep(forms@, indices@, set@, false),
{
    let mut yes: Vec<usize> = Vec::new();
    let mut no: Vec<usize> = Vec::new();
    let mut k: usize = 0;
    while k < indices.len()
        invariant
            k <= indices@.len(),
            forall|q: int| 0 <= q < indices@.len() ==> #[trigger] indices@[q] < forms@.len(),
            yes@ == keep(forms@, indices@.take(k as int), set@, true),
            no@ == keep(forms@, indices@.take(k as int), set@, false),
        decreases indices@.len() - k,
    {
        let i = indices[k];
        assert(indices@.take(k + 1).drop_last() =~= indices@.take(k as int));
        assert(indices@.take(k + 1).last() == i);
        if fingerprint_sets_equal(&forms[i].fingerprint_set, set) {
            yes.push(i);
        } else {
            no.push(i);
        }
        assert(yes@ =~= keep(forms@, indices@.take(k + 1), set@, true));
        assert(no@ =~= keep(forms@, indices@.take(k + 1), set@, false));
        k = k + 1;
    }
    assert(indices@.take(indices@.len() as int) =~= indices@);
    (yes, no)
}

/// Every kept index comes from the input.
proof fn lemma_keep_within(forms: Seq<NormalizedForm>, idx: Seq<usize>, s: Set<u64>, want: bool, n: int)
    requires
        forall|k: int| 0 <= k < idx.len() ==> #[trigger] idx[k] < n,
    ensures
        forall|k: int| 0 <= k < keep(forms, idx, s, want).len() ==> #[trigger] keep(forms, idx, s, want)[k] < n,
    decreases idx.len(),
{
    if idx.len() > 0 {
        lemma_keep_within(forms, idx.drop_last(), s, want, n);
        let prev = keep(forms, idx.drop_last(), s, want);
        let cur = keep(forms, idx, s, want);
        assert(idx.last() == idx[idx.len() - 1]);
        assert forall|k: int| 0 <= k < cur.len() implies #[trigger] cur[k] < n by {
            if k < prev.len() {
                assert(cur[k] == prev[k]);
            } else {
                assert(cur[k] == idx.last());
            }
        }
    }
}

/// The exact-match clusters within one bucket: repeatedly take the
/// indices whose fingerprint set equals that of the first remaining
/// index; a group of two or more is a cluster, a lone index is left
/// over.
pub fn clusters_for_bucket(forms: &[NormalizedForm], indices: Vec<usize>) -> (r: Vec<Vec<usize>>)
    requires
        forall|k: int| 0 <= k < indices@.len() ==> #[trigger] indices@[k] < forms@.len(),
    ensures
        r@.map_values(|c: Vec<usize>| c@) == clusters_spec(forms@, indices@),
{
    let ghost total = clusters_spec(forms@, indices@);
    let mut out: Vec<Vec<usize>> = Vec::new();
    let mut indices = indices;
    while indices.len() >= 2
        invariant
            forall|k: int| 0 <= k < indices@.len() ==> #[trigger] indices@[k] < forms@.len(),
            out@.map_values(|c: Vec<usize>| c@) + clusters_spec(forms@, indices@) == total,
        decreases indices@.len(),
    {
        let first = indices[0];
        let (cluster, leftover) = partition_by_set(forms, &indices, &forms[first].fingerprint_set);
        proof {
            lemma_keep_split(forms@, indices@, forms@[first as int].fingerprint_set@);
            lemma_keep_within(forms@, indices@, forms@[first as int].fingerprint_set@, false, forms@.len() as int);
        }
        let ghost prev = out@;
        let ghost rest = clusters_spec(forms@, leftover@);
        if cluster.len() >= 2 {
            let ghost c = cluster@;
            out.push(cluster);
            assert(out@.map_values(|c: Vec<usize>| c@) =~= prev.map_values(|c: Vec<usize>| c@).push(c));
            assert(out@.map_values(|c: Vec<usize>| c@) + rest =~= prev.map_values(|c: Vec<usize>| c@) + (seq![c] + rest));
        } else {
            assert(prev.map_values(|c: Vec<usize>| c@) + (Seq::<Seq<usize>>::empty() + rest) =~= prev.map_values(|c: Vec<usize>| c@) + rest);
        }
        indices = leftover;
    }
    assert(out@.map_values(|c: Vec<usize>| c@) + Seq::<Seq<usize>>::empty() =~= out@.map_values(|c: Vec<usize>| c@));
    out
}

/// Whether both ends of an edge already belong to one clique.
pub fn edge_absorbed(clique_of: &BTreeMap<usize, usize>, i: usize, j: usize) -> (r: bool)
    ensures
        r == (clique_of@.contains_key(i) && clique_of@.contains_key(j) && clique_of@[i]
            == clique_of@[j]),
{
    match (clique_of.get(&i), clique_of.get(&j)) {
        (Some(a), Some(b)) => *a == *b,
        _ => false,
    }
}

/// The pairwise pass visits `a` before `b`: fewer nodes first, then the
/// smaller index.
pub open spec fn visits_before(forms: Seq<NormalizedForm>, a: usize, b: usize) -> bool {
    forms[a as int].node_count < forms[b as int].node_count || (forms[a as int].node_count
        == forms[b as int].node_count && a < b)
}

/// The indices of the forms no exact-match cluster claimed, ordered by
/// node count, then index.
pub fn sort_unclaimed_by_node_count(forms: &[NormalizedForm], claimed: &HashSet<usize>) -> (r: Vec<
    usize,
>)
    ensures
        forall|k: int| 0 <= k < r@.len() ==> #[trigger] r@[k] < forms@.len(),
        forall|i: usize| i < forms@.len() ==> (r@.contains(i) <==> !claimed@.contains(i)),
        forall|p: int, q: int| 0 <= p < q < r@.len() ==> visits_before(forms@, #[trigger] r@[p], #[trigger] r@[q]),
{
    let mut out: Vec<usize> = Vec::new();
    let mut i: usize = 0;
    while i < forms.len()
        invariant
            i <= forms@.len(),
            forall|k: int| 0 <= k < out@.len() ==> #[trigger] out@[k] < i,
            forall|x: usize| x < i ==> (out@.contains(x) <==> !claimed@.contains(x)),
            forall|p: int, q: int| 0 <= p < q < out@.len() ==> visits_before(forms@, #[trigger] out@[p], #[trigger] out@[q]),
        decreases forms@.len() - i,
    {
        if !claimed.contains(&i) {
            let nc = forms[i].node_count;
            let mut p: usize = out.len();
            while p > 0 && forms[out[p - 1]].node_count > nc
                invariant
                    p <= out@.len(),
                    i < forms@.len(),
                    nc == forms@[i as int].node_count,
                    forall|k: int| 0 <= k < out@.len() ==> #[trigger] out@[k] < i,
                    forall|k: int| p <= k < out@.len() ==> forms@[#[trigger] out@[k] as int].node_count > nc,
                decreases p,
            {
                p = p - 1;
            }
            let ghost before = out@;
            out.insert(p, i);
            proof {
                assert forall|x: usize| x < i + 1 implies (out@.contains(x) <==> !claimed@.contains(x)) by {
                    if x < i {
                        if before.contains(x) {
                            let k = choose|k: int| 0 <= k < before.len() && before[k] == x;
                            if k < p {
                                assert(out@[k] == x);
                            } else {
                                assert(out@[k + 1] == x);
                            }
                        }
                        if out@.contains(x) {
                            let k = choose|k: int| 0 <= k < out@.len() && out@[k] == x;
                            if k < p {
                                assert(before[k] == x);
                            } else if k > p {
                                assert(before[k - 1] == x);
                            }
                        }
                    } else {
                        assert(out@[p as int] == i);
                    }
                }
                assert forall|a: int, b: int| 0 <= a < b < out@.len() implies visits_before(forms@, #[trigger] out@[a], #[trigger] out@[b]) by {
                    if a < p && b < p {
                        assert(visits_before(forms@, before[a], before[b]));
                    } else if a < p && b == p {
                        assert(before[a] < i);
                        if p > 0 {
                            assert(forms@[before[p - 1] as int].node_count <= nc);
                            if a < p - 1 {
                                assert(visits_before(forms@, before[a], before[p - 1]));
                            }
                        }
                    } else if a < p && b > p {
                        assert(visits_before(forms@, before[a], before[b - 1]));
                    } else if a == p {
                        assert(forms@[before[b - 1] as int].node_count > nc);
                    } else {
                        assert(visits_before(forms@, before[a - 1], before[b - 1]));
                    }
                }
            }
        }
        i = i + 1;
    }
    out
}

/// The qualified name's components joined with `::`.
pub open spec fn join_path(parts: Seq<Seq<char>>) -> Seq<char>
    decreases parts.len(),
{
    if parts.len() == 0 {
        Seq::empty()
    } else if parts.len() == 1 {
        parts[0]
    } else {
        join_path(parts.drop_last()) + "::"@ + parts.last()
    }
}

/// The path reported for a form when no file path is known: its
/// qualified name joined with `::`, or `<unknown>` when it has none.
pub fn synthetic_path(form: &NormalizedForm) -> (r: FilePath)
    ensures
        r@ == if form.qualified_name@.len() == 0 {
            "<unknown>"@
        } else {
            join_path(strings_view(form.qualified_name@))
        },
{
    if form.qualified_name.len() == 0 {
        return FilePath::new("<unknown>");
    }
    let ghost parts = strings_view(form.qualified_name@);
    let mut text = form.qualified_name[0].clone();
    let mut k: usize = 1;
    assert(parts.take(1) =~= seq![parts[0]]);
    while k < form.qualified_name.len()
        invariant
            1 <= k <= form.qualified_name@.len(),
            parts == strings_view(form.qualified_name@),
            text@ == join_path(parts.take(k as int)),
        decreases form.qualified_name@.len() - k,
    {
        text.append("::");
        text.append(form.qualified_name[k].as_str());
        assert(parts.take(k + 1).drop_last() =~= parts.take(k as int));
        k = k + 1;
    }
    assert(parts.take(form.qualified_name@.len() as int) =~= parts);
    FilePath::new(text.as_str())
}

/// The reference reported for a form found at `path`.
pub fn form_ref_for(form: &NormalizedForm, path: FilePath) -> (r: FormRef)
    ensures
        r.file == path,
        r.span == form.span,
        r.kind == form.kind,
{
    FormRef::new(path, form.span, form.kind)
}

/// How many elements of `s` the set `b` holds.
pub open spec fn count_in(s: Seq<u64>, b: Set<u64>) -> nat
    decreases s.len(),
{
    if s.len() == 0 {
        0
    } else {
        count_in(s.drop_last(), b) + if b.contains(s.last()) {
            1nat
        } else {
            0nat
        }
    }
}

/// Counting the members of `b` along an enumeration without repetition
/// counts the intersection.
pub proof fn lemma_count_in(s: Seq<u64>, b: Set<u64>)
    requires
        s.no_duplicates(),
    ensures
        s.to_set().finite(),
        count_in(s, b) == s.to_set().intersect(b).len(),
    decreases s.len(),
{
    vstd::seq_lib::seq_to_set_is_finite(s);
    if s.len() == 0 {
        assert(s.to_set().intersect(b) =~= Set::<u64>::empty());
    } else {
        let t = s.drop_last();
        let x = s.last();
        assert(t.no_duplicates());
        lemma_count_in(t, b);
        assert forall|y: u64| s.to_set().contains(y) <==> t.to_set().insert(x).contains(y) by {
            if s.to_set().contains(y) {
                let i = choose|i: int| 0 <= i < s.len() && s[i] == y;
                if i < s.len() - 1 {
                    assert(t[i] == y);
                }
            }
            if t.to_set().contains(y) {
                let i = choose|i: int| 0 <= i < t.len() && t[i] == y;
                assert(s[i] == y);
            }
            if y == x {
                assert(s[s.len() - 1] == y);
            }
        }
        assert(s.to_set() =~= t.to_set().insert(x));
        assert(!t.to_set().contains(x)) by {
            if t.to_set().contains(x) {
                let k = choose|k: int| 0 <= k < t.len() && t[k] == x;
                assert(s[k] == s[s.len() - 1]);
            }
        }
        vstd::seq_lib::seq_to_set_is_finite(t);
        if b.contains(x) {
            assert(s.to_set().intersect(b) =~= t.to_set().intersect(b).insert(x));
            assert(!t.to_set().intersect(b).contains(x));
        } else {
            assert(s.to_set().intersect(b) =~= t.to_set().intersect(b));
        }
    }
}

/// The number of elements of `a` that `b` also holds.
fn count_common(a: &HashSet<u64>, b: &HashSet<u64>) -> (r: usize)
    ensures
        r == a@.intersect(b@).len(),
        a@.finite(),
{
    let mut n: usize = 0;
    assert(a.len() == a@.len());
    let it0 = a.iter();
    let ghost keys = it0.remaining().unref();
    for x in it: it0
        invariant
            it.seq().unref() == keys,
            keys.no_duplicates(),
            keys.to_set() == a@,
            n == count_in(keys.take(it.index()), b@),
            n <= it.index(),
            keys.len() == a@.len(),
            a@.len() <= usize::MAX,
    {
        assert(keys.take(it.index() + 1).drop_last() =~= keys.take(it.index()));
        if b.contains(x) {
            n = n + 1;
        }
    }
    assert(keys.take(keys.len() as int) =~= keys);
    proof {
        lemma_count_in(keys, b@);
    }
    n
}

/// The sizes of the intersection and of the union of two fingerprint
/// sets (the numerator and denominator of their Jaccard similarity).
pub fn jaccard_counts(a: &HashSet<u64>, b: &HashSet<u64>) -> (r: (usize, usize))
    requires
        a@.len() + b@.len() <= usize::MAX,
    ensures
        r.0 == a@.intersect(b@).len(),
        r.1 == a@.union(b@).len(),
{
    let inter = if a.len() <= b.len() {
        count_common(a, b)
    } else {
        let n = count_common(b, a);
        assert(b@.intersect(a@) =~= a@.intersect(b@));
        n
    };
    proof {
        let bk = vstd::std_specs::hash::spec_hash_keys_iter(b).remaining().unref();
        assert(bk.to_set() == b@);
        vstd::seq_lib::seq_to_set_is_finite(bk);
        let ak = vstd::std_specs::hash::spec_hash_keys_iter(a).remaining().unref();
        assert(ak.to_set() == a@);
        vstd::seq_lib::seq_to_set_is_finite(ak);
        vstd::set_lib::lemma_set_intersect_union_lens(a@, b@);
        vstd::set_lib::lemma_len_intersect(a@, b@);
    }
    (inter, a.len() + b.len() - inter)
}


/// The Jaccard counts of two finite sets: the intersection is no larger
/// than the union; both counts are symmetric; the union is empty only
/// when both sets are; and for non-empty sets the counts are equal
/// exactly when the sets are (similarity `1.0` only for equal sets).
pub proof fn lemma_jaccard_counts_laws(a: Set<u64>, b: Set<u64>)
    requires
        a.finite(),
        b.finite(),
    ensures
        a.intersect(b).len() <= a.union(b).len(),
        a.intersect(b).len() == b.intersect(a).len(),
        a.union(b).len() == b.union(a).len(),
        (a.len() > 0 || b.len() > 0) ==> a.union(b).len() > 0,
        a.len() > 0 ==> (a.intersect(b).len() == a.union(b).len() <==> a == b),
{
    broadcast use vstd::set::group_set_axioms;
    vstd::set_lib::lemma_set_intersect_union_lens(a, b);
    vstd::set_lib::lemma_len_intersect(a, b);
    assert(a.intersect(b) =~= b.intersect(a));
    assert(a.union(b) =~= b.union(a));
    vstd::set_lib::lemma_len_subset(a, a.union(b));
    vstd::set_lib::lemma_len_subset(b, a.union(b));
    if a.len() > 0 && a.intersect(b).len() == a.union(b).len() {
        vstd::set_lib::lemma_len_intersect(b, a);
        vstd::set_lib::lemma_len_subset(a.intersect(b), a);
        vstd::set_lib::lemma_len_subset(a.intersect(b), b);
        vstd::set_lib::lemma_subset_equality(a.intersect(b), a);
        vstd::set_lib::lemma_subset_equality(a.intersect(b), b);
        assert(a =~= b);
    }
    if a == b {
        assert(a.intersect(b) =~= a.union(b));
    }
}

/// Exact-match clusters hold only forms whose fingerprint sets are
/// equal, at least two of them: a bucket-key collision between different
/// sets never makes a cluster.
pub proof fn lemma_clusters_exact(forms: Seq<NormalizedForm>, idx: Seq<usize>)
    ensures
        forall|q: int| 0 <= q < clusters_spec(forms, idx).len() ==> (#[trigger] clusters_spec(forms, idx)[q]).len() >= 2,
        forall|q: int, k: int|
            0 <= q < clusters_spec(forms, idx).len() && 0 <= k < clusters_spec(forms, idx)[q].len()
                ==> forms[#[trigger] clusters_spec(forms, idx)[q][k] as int].fingerprint_set@ == forms[clusters_spec(forms, idx)[q][0] as int].fingerprint_set@,
    decreases idx.len(),
{
    if idx.len() >= 2 {
        let s = forms[idx[0] as int].fingerprint_set@;
        let c = keep(forms, idx, s, true);
        let l = keep(forms, idx, s, false);
        lemma_keep_split(forms, idx, s);
        lemma_keep_same(forms, idx, s);
        lemma_clusters_exact(forms, l);
        let head = if c.len() >= 2 { seq![c] } else { Seq::<Seq<usize>>::empty() };
        let all = clusters_spec(forms, idx);
        assert(all == head + clusters_spec(forms, l));
        assert forall|q: int| 0 <= q < all.len() implies (#[trigger] all[q]).len() >= 2 by {
            if q >= head.len() {
                assert(all[q] == clusters_spec(forms, l)[q - head.len()]);
            }
        }
        assert forall|q: int, k: int| 0 <= q < all.len() && 0 <= k < all[q].len()
            implies forms[#[trigger] all[q][k] as int].fingerprint_set@ == forms[all[q][0] as int].fingerprint_set@ by {
            if q >= head.len() {
                assert(all[q] == clusters_spec(forms, l)[q - head.len()]);
            } else {
                assert(all[q] == c);
            }
        }
    }
}

/// Every kept index has the set asked for.
proof fn lemma_keep_same(forms: Seq<NormalizedForm>, idx: Seq<usize>, s: Set<u64>)
    ensures
        forall|k: int| 0 <= k < keep(forms, idx, s, true).len() ==> forms[#[trigger] keep(forms, idx, s, true)[k] as int].fingerprint_set@ == s,
    decreases idx.len(),
{
    if idx.len() > 0 {
        lemma_keep_same(forms, idx.drop_last(), s);
        let prev = keep(forms, idx.drop_last(), s, true);
        let cur = keep(forms, idx, s, true);
        assert forall|k: int| 0 <= k < cur.len() implies forms[#[trigger] cur[k] as int].fingerprint_set@ == s by {
            if k < prev.len() {
                assert(cur[k] == prev[k]);
            }
        }
    }
}

/// An index of the bucket whose form has the set `s` (as `want` asks)
/// is kept.
proof fn lemma_keep_has(forms: Seq<NormalizedForm>, idx: Seq<usize>, s: Set<u64>, want: bool, k: int)
    requires
        0 <= k < idx.len(),
        (forms[idx[k] as int].fingerprint_set@ == s) == want,
    ensures
        keep(forms, idx, s, want).contains(idx[k]),
    decreases idx.len(),
{
    let cur = keep(forms, idx, s, want);
    if k == idx.len() - 1 {
        assert(cur[cur.len() - 1] == idx[k]);
    } else {
        lemma_keep_has(forms, idx.drop_last(), s, want, k);
        let prev = keep(forms, idx.drop_last(), s, want);
        let p = choose|p: int| 0 <= p < prev.len() && prev[p] == idx[k];
        assert(cur[p] == prev[p]);
    }
}

/// Completeness of exact-match clustering: an index of the bucket whose
/// fingerprint set is shared by another index of the bucket lies in a
/// returned cluster, together with every index of the bucket with that
/// set. (With [`lemma_clusters_exact`], the clusters are exactly the
/// groups of two or more indices of equal set.)
pub proof fn lemma_clusters_complete(forms: Seq<NormalizedForm>, idx: Seq<usize>, a: int, b: int) -> (q: int)
    requires
        0 <= a < idx.len(),
        0 <= b < idx.len(),
        idx[a] != idx[b],
        forms[idx[a] as int].fingerprint_set@ == forms[idx[b] as int].fingerprint_set@,
    ensures
        0 <= q < clusters_spec(forms, idx).len(),
        clusters_spec(forms, idx)[q].contains(idx[a]),
        forall|k: int|
            0 <= k < idx.len() && forms[#[trigger] idx[k] as int].fingerprint_set@ == forms[idx[a] as int].fingerprint_set@
                ==> clusters_spec(forms, idx)[q].contains(idx[k]),
    decreases idx.len(),
{
    let s = forms[idx[0] as int].fingerprint_set@;
    let sa = forms[idx[a] as int].fingerprint_set@;
    let c = keep(forms, idx, s, true);
    let l = keep(forms, idx, s, false);
    lemma_keep_split(forms, idx, s);
    let head = if c.len() >= 2 { seq![c] } else { Seq::<Seq<usize>>::empty() };
    let all = clusters_spec(forms, idx);
    assert(all == head + clusters_spec(forms, l));
    if sa == s {
        lemma_keep_has(forms, idx, s, true, a);
        lemma_keep_has(forms, idx, s, true, b);
        let pa = choose|p: int| 0 <= p < c.len() && c[p] == idx[a];
        let pb = choose|p: int| 0 <= p < c.len() && c[p] == idx[b];
        assert(pa != pb);
        assert(c.len() >= 2);
        assert(all[0] == c);
        assert forall|k: int|
            0 <= k < idx.len() && forms[#[trigger] idx[k] as int].fingerprint_set@ == sa
                implies all[0].contains(idx[k]) by {
            lemma_keep_has(forms, idx, s, true, k);
        }
        0
    } else {
        lemma_keep_has(forms, idx, s, false, a);
        lemma_keep_has(forms, idx, s, false, b);
        let pa = choose|p: int| 0 <= p < l.len() && l[p] == idx[a];
        let pb = choose|p: int| 0 <= p < l.len() && l[p] == idx[b];
        let q2 = lemma_clusters_complete(forms, l, pa, pb);
        let rest = clusters_spec(forms, l);
        assert(all[head.len() + q2] == rest[q2]);
        assert forall|k: int|
            0 <= k < idx.len() && forms[#[trigger] idx[k] as int].fingerprint_set@ == sa
                implies all[head.len() + q2].contains(idx[k]) by {
            lemma_keep_has(forms, idx, s, false, k);
            let pk = choose|p: int| 0 <= p < l.len() && l[p] == idx[k];
            assert(forms[l[pk] as int].fingerprint_set@ == forms[l[pa] as int].fingerprint_set@);
        }
        head.len() + q2
    }
}

} // verus!
