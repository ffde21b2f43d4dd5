//! Per-hole divergence summaries: binding keys, the fingerprint tally,
//! the modal baseline, and the ordered distinct-value list.
use vstd::prelude::*;

use crate::domain::template::{
    bindings_of, DistinctShape, DistinctValue, Divergence, DivergenceShape, SubElement,
    Substitution,
};
use std::collections::BTreeMap;

use crate::text::{lex_lt, str_lt};
use super::divergence_laws::{
    lemma_tally_from_entries, lemma_tally_matches_empty, lemma_tally_matches_insert, tally_matches,
    tally_wf,
};

verus! {

/// Fingerprint of an absent binding (a member binding zero elements).
pub const ABSENT_FP: u64 = 0;

/// `n` saturated into `u32`.
pub open spec fn sat_u32(n: nat) -> u32 {
    if n <= u32::MAX { n as u32 } else { u32::MAX }
}

/// Saturating conversion of a length into `u32`.
pub fn saturating_u32(n: usize) -> (r: u32)
    ensures
        r == sat_u32(n as nat),
{
    if n <= u32::MAX as usize { n as u32 } else { u32::MAX }
}

/// XOR-fold of the element fingerprints of a binding.
pub open spec fn xor_fold(b: Seq<SubElement>) -> u64
    decreases b.len(),
{
    if b.len() == 0 { 0 } else { xor_fold(b.drop_last()) ^ b.last().fp }
}

/// The element lexemes of a binding joined with single spaces.
pub open spec fn join_lexemes(b: Seq<SubElement>) -> Seq<char>
    decreases b.len(),
{
    if b.len() == 0 {
        Seq::empty()
    } else if b.len() == 1 {
        b[0].lexeme@
    } else {
        join_lexemes(b.drop_last()) + " "@ + b.last().lexeme@
    }
}

/// The (fingerprint, display lexeme) key of one member's binding: the
/// absent key for an empty binding, else the XOR-fold of its element
/// fingerprints with the space-joined lexemes.
pub open spec fn binding_key_spec(b: Seq<SubElement>) -> (u64, Seq<char>) {
    if b.len() == 0 {
        (ABSENT_FP, "<absent>"@)
    } else {
        (xor_fold(b), join_lexemes(b))
    }
}

/// The keys of every member's binding, in member order.
pub open spec fn binding_keys(bs: Seq<Seq<SubElement>>) -> Seq<(u64, Seq<char>)> {
    bs.map_values(|b: Seq<SubElement>| binding_key_spec(b))
}

/// Index of the first tally entry whose fingerprint is not below `fp`,
/// scanning from `j`.
pub open spec fn first_not_below(t: Seq<(u64, Seq<char>, nat)>, fp: u64, j: int) -> int
    decreases t.len() - j,
{
    if j < 0 || j >= t.len() || t[j].0 >= fp { j } else { first_not_below(t, fp, j + 1) }
}

/// Record one binding key in a tally kept ascending by fingerprint: a
/// known fingerprint gains one member and keeps the smaller lexeme, a
/// new one enters in order with count one.
pub open spec fn tally_insert(t: Seq<(u64, Seq<char>, nat)>, fp: u64, lex: Seq<char>) -> Seq<
    (u64, Seq<char>, nat),
> {
    let j = first_not_below(t, fp, 0);
    if 0 <= j < t.len() && t[j].0 == fp {
        t.update(j, (fp, if lex_lt(lex, t[j].1) { lex } else { t[j].1 }, t[j].2 + 1))
    } else {
        t.insert(j, (fp, lex, 1))
    }
}

/// The tally of binding keys: per distinct fingerprint, ascending, the
/// smallest lexeme and the number of members binding it.
pub open spec fn tally(keys: Seq<(u64, Seq<char>)>) -> Seq<(u64, Seq<char>, nat)>
    decreases keys.len(),
{
    if keys.len() == 0 {
        Seq::empty()
    } else {
        tally_insert(tally(keys.drop_last()), keys.last().0, keys.last().1)
    }
}

/// The modal entry of a tally: highest count, the smallest fingerprint
/// among equal counts (the absent key with count zero when empty).
pub open spec fn modal(t: Seq<(u64, Seq<char>, nat)>) -> (u64, nat)
    decreases t.len(),
{
    if t.len() == 0 {
        (ABSENT_FP, 0)
    } else {
        let p = modal(t.drop_last());
        if t.last().2 > p.1 { (t.last().0, t.last().2) } else { p }
    }
}

/// Number of keys whose fingerprint differs from `m`.
pub open spec fn count_differing(keys: Seq<(u64, Seq<char>)>, m: u64) -> nat
    decreases keys.len(),
{
    if keys.len() == 0 {
        0
    } else {
        count_differing(keys.drop_last(), m) + if keys.last().0 != m { 1nat } else { 0nat }
    }
}

/// `x` sorts before `y` in the distinct-value list: higher count first,
/// then smaller fingerprint.
pub open spec fn value_precedes(x: (u64, Seq<char>, nat), y: (u64, Seq<char>, nat)) -> bool {
    x.2 > y.2 || (x.2 == y.2 && x.0 < y.0)
}

/// Position at which `x` enters the ordered list `vs`, scanning from `p`.
pub open spec fn value_slot(vs: Seq<(u64, Seq<char>, nat)>, x: (u64, Seq<char>, nat), p: int) -> int
    decreases vs.len() - p,
{
    if p < 0 || p >= vs.len() || value_precedes(x, vs[p]) { p } else { value_slot(vs, x, p + 1) }
}

/// The tally entries ordered by descending count, then ascending
/// fingerprint.
pub open spec fn ordered_values(t: Seq<(u64, Seq<char>, nat)>) -> Seq<(u64, Seq<char>, nat)>
    decreases t.len(),
{
    if t.len() == 0 {
        Seq::empty()
    } else {
        let vs = ordered_values(t.drop_last());
        vs.insert(value_slot(vs, t.last(), 0), t.last())
    }
}

/// The shape of one tally entry as a distinct value.
pub open spec fn entry_shape(e: (u64, Seq<char>, nat)) -> DistinctShape {
    DistinctShape { fp: e.0, lexeme: e.1, count: e.2 as u32 }
}

/// The divergence summary of a hole whose members bind `bs`: distinct
/// binding fingerprints, members differing from the modal fingerprint,
/// member count, and the ordered distinct values.
pub open spec fn divergence_spec(bs: Seq<Seq<SubElement>>) -> DivergenceShape {
    let keys = binding_keys(bs);
    let t = tally(keys);
    DivergenceShape {
        distinct: sat_u32(t.len()),
        differing: sat_u32(count_differing(keys, modal(t).0)),
        members: sat_u32(bs.len()),
        values: ordered_values(t).map_values(|e: (u64, Seq<char>, nat)| entry_shape(e)),
    }
}

/// The view of an executable tally.
pub open spec fn tally_view(t: Seq<(u64, String, u32)>) -> Seq<(u64, Seq<char>, nat)> {
    t.map_values(|e: (u64, String, u32)| (e.0, e.1@, e.2 as nat))
}

/// The view of executable binding keys.
pub open spec fn keys_view(k: Seq<(u64, String)>) -> Seq<(u64, Seq<char>)> {
    k.map_values(|e: (u64, String)| (e.0, e.1@))
}

/// Join a binding's element lexemes for display: one element is itself,
/// several are space-joined.
pub fn joined_lexeme(elements: &[SubElement]) -> (r: String)
    requires
        elements@.len() > 0,
    ensures
        r@ == join_lexemes(elements@),
{
    let mut out = elements[0].lexeme.clone();
    assert(elements@.take(1).drop_last() =~= Seq::<SubElement>::empty());
    let mut i: usize = 1;
    while i < elements.len()
        invariant
            1 <= i <= elements@.len(),
            out@ == join_lexemes(elements@.take(i as int)),
        decreases elements@.len() - i,
    {
        out.append(" ");
        out.append(elements[i].lexeme.as_str());
        assert(elements@.take(i + 1).drop_last() =~= elements@.take(i as int));
        i = i + 1;
    }
    assert(elements@.take(elements@.len() as int) =~= elements@);
    out
}

/// The (fingerprint, display-lexeme) key for one member's binding.
pub fn binding_key(sub: &Substitution) -> (r: (u64, String))
    ensures
        (r.0, r.1@) == binding_key_spec(sub.elements@),
{
    if sub.elements.len() == 0 {
        return (ABSENT_FP, "<absent>".to_owned());
    }
    let mut fp: u64 = 0;
    let mut i: usize = 0;
    while i < sub.elements.len()
        invariant
            i <= sub.elements@.len(),
            fp == xor_fold(sub.elements@.take(i as int)),
        decreases sub.elements@.len() - i,
    {
        assert(sub.elements@.take(i + 1).drop_last() =~= sub.elements@.take(i as int));
        fp = fp ^ sub.elements[i].fp;
        i = i + 1;
    }
    assert(sub.elements@.take(sub.elements@.len() as int) =~= sub.elements@);
    (fp, joined_lexeme(sub.elements.as_slice()))
}

/// The keys a map's iterator yields, read in order, ascend.
proof fn lemma_btree_keys_ascending(ks: Seq<u64>)
    requires
        vstd::std_specs::btree::increasing_seq(ks),
    ensures
        forall|i: int, j: int| 0 <= i < j < ks.len() ==> ks[i] < ks[j],
{
    broadcast use vstd::laws_cmp::group_laws_cmp;

    vstd::std_specs::btree::axiom_increasing_seq_meaning(ks);
    assert forall|i: int, j: int| 0 <= i < j < ks.len() implies ks[i] < ks[j] by {
        assert(vstd::std_specs::cmp::OrdSpec::cmp_spec(&ks[i], &ks[j]) is Less);
    }
}

/// Fingerprints are ordered keys: `u64` obeys the order laws an ordered
/// map relies on.
proof fn lemma_u64_keys_ordered()
    ensures
        vstd::laws_cmp::obeys_cmp::<u64>(),
        vstd::std_specs::btree::key_obeys_cmp_spec::<u64>(),
{
    broadcast use {vstd::laws_cmp::group_laws_cmp, vstd::std_specs::btree::group_btree_axioms};

}

/// Count binding occurrences keyed by fingerprint in an ordered map,
/// retaining the lexicographically smallest lexeme per fingerprint, and
/// list the entries in ascending fingerprint order.
pub fn tally_bindings(keyed: &Vec<(u64, String)>) -> (t: Vec<(u64, String, u32)>)
    requires
        keyed@.len() <= u32::MAX,
    ensures
        tally_view(t@) == tally(keys_view(keyed@)),
{
    broadcast use vstd::std_specs::btree::group_btree_axioms;

    proof {
        lemma_u64_keys_ordered();
    }
    let mut m: BTreeMap<u64, (String, u32)> = BTreeMap::new();
    proof {
        lemma_tally_matches_empty();
        assert(keys_view(keyed@.take(0)) =~= Seq::<(u64, Seq<char>)>::empty());
        assert(m@ =~= Map::<u64, (String, u32)>::empty());
    }
    let mut i: usize = 0;
    while i < keyed.len()
        invariant
            i <= keyed@.len(),
            keyed@.len() <= u32::MAX,
            tally_matches(m@, tally(keys_view(keyed@.take(i as int)))),
            tally_wf(tally(keys_view(keyed@.take(i as int)))),
            forall|fp: u64| #[trigger] m@.contains_key(fp) ==> m@[fp].1 <= i,
        decreases keyed@.len() - i,
    {
        let ghost tv = tally(keys_view(keyed@.take(i as int)));
        let fp = keyed[i].0;
        let ghost lexv = keyed@[i as int].1@;
        let v = match m.get(&fp) {
            Some(entry) => {
                let lex = if str_lt(keyed[i].1.as_str(), entry.0.as_str()) {
                    keyed[i].1.clone()
                } else {
                    entry.0.clone()
                };
                (lex, entry.1 + 1)
            },
            None => (keyed[i].1.clone(), 1u32),
        };
        proof {
            lemma_tally_matches_insert(m@, tv, fp, lexv, v);
        }
        m.insert(fp, v);
        assert(keys_view(keyed@.take(i + 1)).drop_last() =~= keys_view(keyed@.take(i as int)));
        assert(keys_view(keyed@.take(i + 1)).last() == (fp, lexv));
        i = i + 1;
    }
    assert(keyed@.take(keyed@.len() as int) =~= keyed@);
    let ghost tv = tally(keys_view(keyed@));
    let mut out: Vec<(u64, String, u32)> = Vec::new();
    let it = m.iter();
    let ghost s = vstd::std_specs::iter::IteratorSpec::remaining(&it);
    proof {
        lemma_btree_keys_ascending(s.map_values(|kv: (&u64, &(String, u32))| *kv.0));
    }
    for kv in iter: it
        invariant
            out@.len() == iter.index(),
            iter.seq() == s,
            forall|q: int|
                0 <= q < out@.len() ==> (#[trigger] out@[q]).0 == *s[q].0 && out@[q].1@
                    == (*s[q].1).0@ && out@[q].2 == (*s[q].1).1,
    {
        out.push((*kv.0, kv.1.0.clone(), kv.1.1));
    }
    proof {
        let es = s.map_values(|kv: (&u64, &(String, u32))| (*kv.0, *kv.1));
        assert forall|i: int, j: int| 0 <= i < j < es.len() implies es[i].0 < es[j].0 by {
            assert(s.map_values(|kv: (&u64, &(String, u32))| *kv.0)[i] == es[i].0);
            assert(s.map_values(|kv: (&u64, &(String, u32))| *kv.0)[j] == es[j].0);
        }
        assert forall|i: int| 0 <= i < es.len() implies m@.contains_key(#[trigger] es[i].0)
            && m@[es[i].0] == es[i].1 by {
            assert(m@.contains_key(*s[i].0));
        }
        assert forall|k: u64| m@.contains_key(k) implies exists|i: int|
            0 <= i < es.len() && #[trigger] es[i].0 == k by {
            assert(s.contains((&k, &m@[k])));
            let i = choose|i: int| 0 <= i < s.len() && s[i] == (&k, &m@[k]);
            assert(es[i].0 == k);
        }
        lemma_tally_from_entries(m@, tv, es);
        assert(tally_view(out@) =~= es.map_values(
            |e: (u64, (String, u32))| (e.0, e.1.0@, e.1.1 as nat),
        ));
    }
    out
}

/// The modal binding fingerprint of a tally: highest count, ties broken
/// by the smaller fingerprint.
pub fn modal_fingerprint(t: &Vec<(u64, String, u32)>) -> (r: u64)
    ensures
        r == modal(tally_view(t@)).0,
{
    let mut best_fp: u64 = ABSENT_FP;
    let mut best_count: u32 = 0;
    let mut k: usize = 0;
    while k < t.len()
        invariant
            k <= t@.len(),
            (best_fp, best_count as nat) == modal(tally_view(t@).take(k as int)),
        decreases t@.len() - k,
    {
        assert(tally_view(t@).take(k + 1).drop_last() =~= tally_view(t@).take(k as int));
        if t[k].2 > best_count {
            best_fp = t[k].0;
            best_count = t[k].2;
        }
        k = k + 1;
    }
    assert(tally_view(t@).take(t@.len() as int) =~= tally_view(t@));
    best_fp
}

/// Build the ordered `distinct_values` list: descending count, then
/// ascending fingerprint.
pub fn distinct_values_sorted(t: &Vec<(u64, String, u32)>) -> (r: Vec<DistinctValue>)
    ensures
        r@.map_values(|v: DistinctValue| v.shape()) == ordered_values(tally_view(t@)).map_values(
            |e: (u64, Seq<char>, nat)| entry_shape(e),
        ),
{
    let mut values: Vec<DistinctValue> = Vec::new();
    // Ghost mirror of `values` as tally entries.
    let ghost mut mirror: Seq<(u64, Seq<char>, nat)> = Seq::empty();
    let mut k: usize = 0;
    while k < t.len()
        invariant
            k <= t@.len(),
            mirror == ordered_values(tally_view(t@).take(k as int)),
            mirror.len() == values@.len(),
            forall|q: int| 0 <= q < mirror.len() ==> (#[trigger] mirror[q]).2 <= u32::MAX,
            forall|q: int| 0 <= q < mirror.len() ==> (#[trigger] values@[q]).shape() == entry_shape(mirror[q]),
            forall|q: int| 0 <= q < mirror.len() ==> (#[trigger] values@[q]).count as nat == mirror[q].2,
            forall|q: int| 0 <= q < mirror.len() ==> (#[trigger] values@[q]).fp == mirror[q].0,
        decreases t@.len() - k,
    {
        let fp = t[k].0;
        let count = t[k].2;
        let ghost x = tally_view(t@)[k as int];
        let mut p: usize = 0;
        while p < values.len() && !(count > values[p].count || (count == values[p].count && fp
            < values[p].fp))
            invariant
                p <= values@.len(),
                k < t@.len(),
                mirror.len() == values@.len(),
                x == (fp, t@[k as int].1@, count as nat),
                forall|q: int| 0 <= q < mirror.len() ==> (#[trigger] values@[q]).count as nat == mirror[q].2,
                forall|q: int| 0 <= q < mirror.len() ==> (#[trigger] values@[q]).fp == mirror[q].0,
                value_slot(mirror, x, p as int) == value_slot(mirror, x, 0),
            decreases values@.len() - p,
        {
            p = p + 1;
        }
        assert(tally_view(t@).take(k + 1).drop_last() =~= tally_view(t@).take(k as int));
        assert(tally_view(t@).take(k + 1).last() == x);
        let ghost old_values = values@;
        let ghost old_mirror = mirror;
        let dv = DistinctValue { fp, lexeme: t[k].1.clone(), count };
        assert(dv.shape() == entry_shape(x));
        values.insert(p, dv);
        proof {
            mirror = mirror.insert(p as int, x);
            assert forall|q: int| 0 <= q < mirror.len() implies (#[trigger] values@[q]).shape() == entry_shape(mirror[q]) by {
                if q < p {
                    assert(values@[q] == old_values[q]);
                    assert(mirror[q] == old_mirror[q]);
                } else if q > p {
                    assert(values@[q] == old_values[q - 1]);
                    assert(mirror[q] == old_mirror[q - 1]);
                }
            }
        }
        k = k + 1;
    }
    assert(tally_view(t@).take(t@.len() as int) =~= tally_view(t@));
    assert(values@.map_values(|v: DistinctValue| v.shape()) =~= mirror.map_values(
        |e: (u64, Seq<char>, nat)| entry_shape(e),
    ));
    values
}

/// Compute a hole's divergence summary from its per-member
/// substitutions: the binding fingerprint of a member is the XOR-fold of
/// its element fingerprints (the absent key `0` for an empty binding);
/// the modal fingerprint (highest count, ties to the smaller
/// fingerprint) is the baseline `differing` counts against.
pub fn build_divergence(substitutions: &[Substitution]) -> (d: Divergence)
    requires
        substitutions@.len() <= u32::MAX,
    ensures
        d.shape() == divergence_spec(bindings_of(substitutions@)),
{
    let ghost bs = bindings_of(substitutions@);
    let members = saturating_u32(substitutions.len());
    let mut keyed: Vec<(u64, String)> = Vec::new();
    let mut i: usize = 0;
    while i < substitutions.len()
        invariant
            i <= substitutions@.len(),
            bs == bindings_of(substitutions@),
            keys_view(keyed@) == binding_keys(bs).take(i as int),
        decreases substitutions@.len() - i,
    {
        let key = binding_key(&substitutions[i]);
        let ghost prev = keyed@;
        keyed.push(key);
        assert(keys_view(keyed@) =~= keys_view(prev).push((key.0, key.1@)));
        assert(binding_keys(bs).take(i + 1) =~= binding_keys(bs).take(i as int).push(
            binding_key_spec(bs[i as int]),
        ));
        i = i + 1;
    }
    assert(binding_keys(bs).take(substitutions@.len() as int) =~= binding_keys(bs));
    let t = tally_bindings(&keyed);
    let distinct = saturating_u32(t.len());
    let modal_fp = modal_fingerprint(&t);
    let mut differing_count: usize = 0;
    let mut k: usize = 0;
    while k < keyed.len()
        invariant
            k <= keyed@.len(),
            differing_count == count_differing(keys_view(keyed@).take(k as int), modal_fp),
            differing_count <= k,
        decreases keyed@.len() - k,
    {
        assert(keys_view(keyed@).take(k + 1).drop_last() =~= keys_view(keyed@).take(k as int));
        if keyed[k].0 != modal_fp {
            differing_count = differing_count + 1;
        }
        k = k + 1;
    }
    assert(keys_view(keyed@).take(keyed@.len() as int) =~= keys_view(keyed@));
    let differing = saturating_u32(differing_count);
    let distinct_values = distinct_values_sorted(&t);
    let d = Divergence { distinct, differing, members, distinct_values };
    assert(d.shape().values =~= divergence_spec(bs).values);
    d
}

/// Recording a key adds at most one tally entry, and an empty tally
/// gains one.
proof fn lemma_tally_insert_len(t: Seq<(u64, Seq<char>, nat)>, fp: u64, lex: Seq<char>)
    ensures
        t.len() <= tally_insert(t, fp, lex).len() <= t.len() + 1,
        tally_insert(t, fp, lex).len() >= 1,
{
    let j = first_not_below(t, fp, 0);
    lemma_first_not_below_range(t, fp, 0);
}

proof fn lemma_first_not_below_range(t: Seq<(u64, Seq<char>, nat)>, fp: u64, j: int)
    requires
        0 <= j <= t.len(),
    ensures
        j <= first_not_below(t, fp, j) <= t.len(),
    decreases t.len() - j,
{
    if j < t.len() && t[j].0 < fp {
        lemma_first_not_below_range(t, fp, j + 1);
    }
}

/// The tally has at most one entry per key, and at least one when there
/// is a key.
proof fn lemma_tally_len(keys: Seq<(u64, Seq<char>)>)
    ensures
        tally(keys).len() <= keys.len(),
        keys.len() > 0 ==> tally(keys).len() >= 1,
    decreases keys.len(),
{
    if keys.len() > 0 {
        lemma_tally_len(keys.drop_last());
        lemma_tally_insert_len(tally(keys.drop_last()), keys.last().0, keys.last().1);
    }
}

/// No more keys differ from a value than there are keys.
proof fn lemma_count_differing_len(keys: Seq<(u64, Seq<char>)>, m: u64)
    ensures
        count_differing(keys, m) <= keys.len(),
    decreases keys.len(),
{
    if keys.len() > 0 {
        lemma_count_differing_len(keys.drop_last(), m);
    }
}

/// A hole's divergence never counts more distinct values, or more
/// differing members, than it has members, and a hole with members has
/// at least one distinct value.
pub proof fn lemma_divergence_bounds(bs: Seq<Seq<SubElement>>)
    ensures
        divergence_spec(bs).distinct <= divergence_spec(bs).members,
        divergence_spec(bs).differing <= divergence_spec(bs).members,
        bs.len() > 0 ==> divergence_spec(bs).distinct >= 1,
{
    let keys = binding_keys(bs);
    lemma_tally_len(keys);
    lemma_count_differing_len(keys, modal(tally(keys)).0);
}


} // verus!
