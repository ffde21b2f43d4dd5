//! Laws of the divergence summary: its tally is kept strictly ascending
//! by fingerprint, records exactly the members' binding fingerprints with
//! how many members bind each and the smallest lexeme among them, and
//! does not depend on the order of the members.
use vstd::prelude::*;

use crate::domain::template::SubElement;
use crate::text::lex_lt;
use super::antiunify_perm::{
    divergence_order_free, is_permutation, lemma_listed, lemma_perm_remove_last, permute,
};
use super::divergence::{
    binding_keys, count_differing, divergence_spec, first_not_below, modal, tally, tally_insert,
};

verus! {

// ---- the divergence tally ----

/// Lexicographic `<` on texts is a strict order.
proof fn lemma_lex_lt_facts(a: Seq<char>, b: Seq<char>, c: Seq<char>)
    ensures
        !(lex_lt(a, b) && lex_lt(b, a)),
        a != b ==> lex_lt(a, b) || lex_lt(b, a),
        lex_lt(a, b) && lex_lt(b, c) ==> lex_lt(a, c),
    decreases a.len(),
{
    if a.len() > 0 && b.len() > 0 && a[0] == b[0] {
        if c.len() > 0 && b[0] == c[0] {
            lemma_lex_lt_facts(a.drop_first(), b.drop_first(), c.drop_first());
        } else {
            lemma_lex_lt_facts(a.drop_first(), b.drop_first(), b.drop_first());
        }
        if a != b {
            assert(a =~= seq![a[0]] + a.drop_first());
            assert(b =~= seq![b[0]] + b.drop_first());
        }
    } else if a.len() > 0 && b.len() > 0 {
        let x = a[0];
        let y = b[0];
        vstd::utf8::char_u32_cast(x, x as u32);
        vstd::utf8::char_u32_cast(y, y as u32);
        assert(x != y ==> (x as u32) != (y as u32));
    } else if a.len() == 0 && b.len() == 0 {
        assert(a =~= b);
    }
}

/// The smaller of two texts.
pub open spec fn lex_min(a: Seq<char>, b: Seq<char>) -> Seq<char> {
    if lex_lt(a, b) { a } else { b }
}

proof fn lemma_lex_min_facts(a: Seq<char>, b: Seq<char>, c: Seq<char>)
    ensures
        lex_min(a, b) == lex_min(b, a),
        lex_min(a, lex_min(b, c)) == lex_min(b, lex_min(a, c)),
{
    lemma_lex_lt_facts(a, b, c);
    lemma_lex_lt_facts(b, a, c);
    lemma_lex_lt_facts(a, c, b);
    lemma_lex_lt_facts(c, a, b);
    lemma_lex_lt_facts(b, c, a);
    lemma_lex_lt_facts(c, b, a);
}

/// A tally strictly ascending by fingerprint.
pub open spec fn tally_wf(t: Seq<(u64, Seq<char>, nat)>) -> bool {
    forall|i: int, j: int| 0 <= i < j < t.len() ==> (#[trigger] t[i]).0 < (#[trigger] t[j]).0
}

/// The scan for `fp` stops at the first entry not below it.
proof fn lemma_fnb_at(t: Seq<(u64, Seq<char>, nat)>, fp: u64, s: int, j: int)
    requires
        0 <= s <= j <= t.len(),
        forall|i: int| 0 <= i < j ==> (#[trigger] t[i]).0 < fp,
        j < t.len() ==> t[j].0 >= fp,
    ensures
        first_not_below(t, fp, s) == j,
    decreases j - s,
{
    if s < j {
        lemma_fnb_at(t, fp, s + 1, j);
    }
}

/// Where the scan for `fp` stops in a well-formed tally.
proof fn lemma_fnb_wf(t: Seq<(u64, Seq<char>, nat)>, fp: u64, s: int) -> (j: int)
    requires
        0 <= s <= t.len(),
        forall|i: int| 0 <= i < s ==> (#[trigger] t[i]).0 < fp,
    ensures
        j == first_not_below(t, fp, s),
        s <= j <= t.len(),
        forall|i: int| 0 <= i < j ==> (#[trigger] t[i]).0 < fp,
        j < t.len() ==> t[j].0 >= fp,
    decreases t.len() - s,
{
    if s < t.len() && t[s].0 < fp {
        lemma_fnb_wf(t, fp, s + 1)
    } else {
        s
    }
}

/// Recording a key keeps a tally well formed.
proof fn lemma_insert_wf(t: Seq<(u64, Seq<char>, nat)>, fp: u64, lex: Seq<char>)
    requires
        tally_wf(t),
    ensures
        tally_wf(tally_insert(t, fp, lex)),
{
    let j = lemma_fnb_wf(t, fp, 0);
    let r = tally_insert(t, fp, lex);
    if 0 <= j < t.len() && t[j].0 == fp {
        assert forall|a: int, b: int| 0 <= a < b < r.len() implies (#[trigger] r[a]).0 < (#[trigger] r[b]).0 by {
            assert(r[a].0 == t[a].0 && r[b].0 == t[b].0);
        }
    } else {
        assert forall|a: int, b: int| 0 <= a < b < r.len() implies (#[trigger] r[a]).0 < (#[trigger] r[b]).0 by {
            if b < j {
            } else if b == j {
            } else if a < j {
                assert(r[b] == t[b - 1]);
            } else if a == j {
                assert(r[b] == t[b - 1]);
            } else {
                assert(r[a] == t[a - 1] && r[b] == t[b - 1]);
            }
        }
    }
}

/// A tally is well formed.
proof fn lemma_tally_wf(keys: Seq<(u64, Seq<char>)>)
    ensures
        tally_wf(tally(keys)),
    decreases keys.len(),
{
    if keys.len() > 0 {
        lemma_tally_wf(keys.drop_last());
        lemma_insert_wf(tally(keys.drop_last()), keys.last().0, keys.last().1);
    }
}

/// Recording two keys of different fingerprints, the smaller first, in
/// either order gives the same tally.
#[verifier::rlimit(80)]
proof fn lemma_insert_comm_lt(
    t: Seq<(u64, Seq<char>, nat)>,
    fa: u64,
    la: Seq<char>,
    fb: u64,
    lb: Seq<char>,
)
    requires
        tally_wf(t),
        fa < fb,
    ensures
        tally_insert(tally_insert(t, fa, la), fb, lb) == tally_insert(
            tally_insert(t, fb, lb),
            fa,
            la,
        ),
{
    let ja = lemma_fnb_wf(t, fa, 0);
    let jb = lemma_fnb_wf(t, fb, 0);
    assert(ja <= jb) by {
        if jb < ja {
            assert(t[jb].0 < fa);
        }
    }
    let ea = 0 <= ja < t.len() && t[ja].0 == fa;
    let eb = 0 <= jb < t.len() && t[jb].0 == fb;
    let t1 = tally_insert(t, fa, la);
    let u1 = tally_insert(t, fb, lb);
    // b's slot after a
    let jb1 = if ea { jb } else { jb + 1 };
    assert forall|i: int| 0 <= i < jb1 implies (#[trigger] t1[i]).0 < fb by {
        if ea {
            if i != ja {
                assert(t1[i] == t[i]);
            }
        } else {
            if i < ja {
                assert(t1[i] == t[i]);
            } else if i > ja {
                assert(t1[i] == t[i - 1]);
            }
        }
    }
    if jb1 < t1.len() {
        if ea {
            if jb == ja {
                assert(t[jb].0 == fa);
            }
            assert(t1[jb1] == t[jb]);
        } else {
            assert(t1[jb1] == t[jb]);
        }
    }
    lemma_fnb_at(t1, fb, 0, jb1);
    // a's slot after b
    assert forall|i: int| 0 <= i < ja implies (#[trigger] u1[i]).0 < fa by {
        assert(u1[i] == t[i]);
    }
    if ja < u1.len() {
        if ja < jb {
            assert(u1[ja] == t[ja]);
        } else if eb {
            assert(u1[ja].0 == fb);
        } else {
            assert(u1[ja].0 == fb);
        }
    }
    lemma_fnb_at(u1, fa, 0, ja);
    if ja < u1.len() && u1[ja].0 == fa {
        assert(ja < jb);
    }
    assert(tally_insert(t1, fb, lb) =~= tally_insert(u1, fa, la));
}

/// Recording two keys in either order gives the same tally.
proof fn lemma_insert_comm(
    t: Seq<(u64, Seq<char>, nat)>,
    fa: u64,
    la: Seq<char>,
    fb: u64,
    lb: Seq<char>,
)
    requires
        tally_wf(t),
    ensures
        tally_insert(tally_insert(t, fa, la), fb, lb) == tally_insert(
            tally_insert(t, fb, lb),
            fa,
            la,
        ),
{
    if fa < fb {
        lemma_insert_comm_lt(t, fa, la, fb, lb);
    } else if fb < fa {
        lemma_insert_comm_lt(t, fb, lb, fa, la);
    } else {
        let j = lemma_fnb_wf(t, fa, 0);
        let t1 = tally_insert(t, fa, la);
        let u1 = tally_insert(t, fb, lb);
        assert forall|i: int| 0 <= i < j implies (#[trigger] t1[i]).0 < fa by {
            assert(t1[i] == t[i]);
        }
        assert forall|i: int| 0 <= i < j implies (#[trigger] u1[i]).0 < fa by {
            assert(u1[i] == t[i]);
        }
        lemma_fnb_at(t1, fb, 0, j);
        lemma_fnb_at(u1, fa, 0, j);
        if 0 <= j < t.len() && t[j].0 == fa {
            lemma_lex_min_facts(lb, la, t[j].1);
        } else {
            lemma_lex_min_facts(lb, la, la);
        }
        assert(tally_insert(t1, fb, lb) =~= tally_insert(u1, fa, la));
    }
}


/// The tally of a key list is the tally without the key at `j`, with that
/// key recorded last.
proof fn lemma_tally_move(keys: Seq<(u64, Seq<char>)>, j: int)
    requires
        0 <= j < keys.len(),
    ensures
        tally(keys) == tally_insert(tally(keys.remove(j)), keys[j].0, keys[j].1),
    decreases keys.len(),
{
    let n = keys.len() as int;
    if j == n - 1 {
        assert(keys.remove(j) =~= keys.drop_last());
    } else {
        let d = keys.drop_last();
        lemma_tally_move(d, j);
        assert(d.remove(j) =~= keys.remove(j).drop_last());
        assert(keys.remove(j).last() == keys.last());
        lemma_tally_wf(d.remove(j));
        lemma_insert_comm(tally(d.remove(j)), keys[j].0, keys[j].1, keys.last().0, keys.last().1);
    }
}

/// Reordering the keys leaves their tally unchanged.
proof fn lemma_tally_perm(keys: Seq<(u64, Seq<char>)>, p: Seq<int>)
    requires
        is_permutation(p, keys.len() as int),
    ensures
        tally(permute(keys, p)) == tally(keys),
    decreases keys.len(),
{
    let n = keys.len() as int;
    let x = permute(keys, p);
    if n == 0 {
        assert(x =~= keys);
    } else {
        let j = lemma_listed(p, n, n - 1);
        lemma_perm_remove_last(p, n, j);
        let r = p.remove(j);
        assert(permute(keys.drop_last(), r) =~= x.remove(j)) by {
            assert forall|i: int| 0 <= i < n - 1 implies #[trigger] permute(keys.drop_last(), r)[i]
                == x.remove(j)[i] by {
                let ii = if i < j { i } else { i + 1 };
                assert(r[i] == p[ii]);
            }
        }
        lemma_tally_perm(keys.drop_last(), r);
        lemma_tally_move(x, j);
        assert(x[j] == keys.last());
    }
}

/// The number of keys whose fingerprint differs from `m` counts the key
/// at `j` on top of the others.
proof fn lemma_count_differing_move(keys: Seq<(u64, Seq<char>)>, m: u64, j: int)
    requires
        0 <= j < keys.len(),
    ensures
        count_differing(keys, m) == count_differing(keys.remove(j), m) + if keys[j].0 != m {
            1nat
        } else {
            0nat
        },
    decreases keys.len(),
{
    let n = keys.len() as int;
    if j == n - 1 {
        assert(keys.remove(j) =~= keys.drop_last());
    } else {
        let d = keys.drop_last();
        lemma_count_differing_move(d, m, j);
        assert(d.remove(j) =~= keys.remove(j).drop_last());
        assert(keys.remove(j).last() == keys.last());
    }
}

/// Reordering the keys leaves the number that differ from `m` unchanged.
proof fn lemma_count_differing_perm(keys: Seq<(u64, Seq<char>)>, m: u64, p: Seq<int>)
    requires
        is_permutation(p, keys.len() as int),
    ensures
        count_differing(permute(keys, p), m) == count_differing(keys, m),
    decreases keys.len(),
{
    let n = keys.len() as int;
    let x = permute(keys, p);
    if n == 0 {
        assert(x =~= keys);
    } else {
        let j = lemma_listed(p, n, n - 1);
        lemma_perm_remove_last(p, n, j);
        let r = p.remove(j);
        assert(permute(keys.drop_last(), r) =~= x.remove(j)) by {
            assert forall|i: int| 0 <= i < n - 1 implies #[trigger] permute(keys.drop_last(), r)[i]
                == x.remove(j)[i] by {
                let ii = if i < j { i } else { i + 1 };
                assert(r[i] == p[ii]);
            }
        }
        lemma_count_differing_perm(keys.drop_last(), m, r);
        lemma_count_differing_move(x, m, j);
        assert(x[j] == keys.last());
    }
}

/// The divergence summary of a hole does not depend on the order of its
/// bindings.
pub proof fn lemma_divergence_order_free()
    ensures
        divergence_order_free(),
{
    assert forall|bs: Seq<Seq<SubElement>>, p: Seq<int>|
        is_permutation(p, bs.len() as int) implies #[trigger] divergence_spec(permute(bs, p))
        == divergence_spec(bs) by {
        let keys = binding_keys(bs);
        assert(binding_keys(permute(bs, p)) =~= permute(keys, p));
        lemma_tally_perm(keys, p);
        lemma_count_differing_perm(keys, modal(tally(keys)).0, p);
    }
}



// ---- what the tally records ----

/// How many keys carry the fingerprint `fp`.
pub open spec fn fp_count(keys: Seq<(u64, Seq<char>)>, fp: u64) -> nat
    decreases keys.len(),
{
    if keys.len() == 0 {
        0
    } else {
        fp_count(keys.drop_last(), fp) + if keys.last().0 == fp { 1nat } else { 0nat }
    }
}

/// Some key carries the fingerprint `fp`.
pub open spec fn some_key_has(keys: Seq<(u64, Seq<char>)>, fp: u64) -> bool {
    exists|k: int| 0 <= k < keys.len() && (#[trigger] keys[k]).0 == fp
}

/// Some entry of the tally is for the fingerprint `fp`.
pub open spec fn tally_has(t: Seq<(u64, Seq<char>, nat)>, fp: u64) -> bool {
    exists|i: int| 0 <= i < t.len() && (#[trigger] t[i]).0 == fp
}

/// The entry `e` is right for the keys: its count is how many keys carry
/// its fingerprint, its lexeme is the lexeme of such a key, and no key
/// with that fingerprint has a smaller lexeme.
pub open spec fn entry_right(keys: Seq<(u64, Seq<char>)>, e: (u64, Seq<char>, nat)) -> bool {
    &&& e.2 == fp_count(keys, e.0)
    &&& e.2 >= 1
    &&& exists|k: int| 0 <= k < keys.len() && #[trigger] keys[k] == (e.0, e.1)
    &&& forall|k: int|
        0 <= k < keys.len() && (#[trigger] keys[k]).0 == e.0 ==> !lex_lt(keys[k].1, e.1)
}

proof fn lemma_fp_count_absent(keys: Seq<(u64, Seq<char>)>, fp: u64)
    requires
        !some_key_has(keys, fp),
    ensures
        fp_count(keys, fp) == 0,
    decreases keys.len(),
{
    if keys.len() > 0 {
        let d = keys.drop_last();
        if some_key_has(d, fp) {
            let k = choose|k: int| 0 <= k < d.len() && (#[trigger] d[k]).0 == fp;
            assert(keys[k] == d[k]);
        }
        lemma_fp_count_absent(d, fp);
        assert(keys[keys.len() - 1].0 != fp);
    }
}

/// The tally records exactly the keys: it is strictly ascending by
/// fingerprint, every entry is right for the keys (its count is how many
/// keys carry its fingerprint, and its lexeme is the smallest among them),
/// and every key's fingerprint has an entry.
pub proof fn lemma_tally_content(keys: Seq<(u64, Seq<char>)>)
    ensures
        tally_wf(tally(keys)),
        forall|i: int| 0 <= i < tally(keys).len() ==> entry_right(keys, #[trigger] tally(keys)[i]),
        forall|k: int| 0 <= k < keys.len() ==> tally_has(tally(keys), (#[trigger] keys[k]).0),
    decreases keys.len(),
{
    lemma_tally_wf(keys);
    if keys.len() > 0 {
        let n = keys.len() as int;
        let d = keys.drop_last();
        lemma_tally_content(d);
        lemma_tally_wf(d);
        let t0 = tally(d);
        let fp = keys.last().0;
        let lex = keys.last().1;
        let t = tally(keys);
        assert(t == tally_insert(t0, fp, lex));
        let j = lemma_fnb_wf(t0, fp, 0);
        assert(keys[n - 1] == (fp, lex));
        // entries of t0 stay right for the longer key list when their
        // fingerprint differs from the new key's
        assert forall|i: int| 0 <= i < t0.len() && t0[i].0 != fp implies entry_right(
            keys,
            #[trigger] t0[i],
        ) by {
            let e = t0[i];
            assert(entry_right(d, e));
            let w = choose|k: int| 0 <= k < d.len() && #[trigger] d[k] == (e.0, e.1);
            assert(keys[w] == d[w]);
            assert forall|k: int| 0 <= k < keys.len() && (#[trigger] keys[k]).0 == e.0 implies !lex_lt(
                keys[k].1,
                e.1,
            ) by {
                if k < n - 1 {
                    assert(keys[k] == d[k]);
                }
            }
        }
        if 0 <= j < t0.len() && t0[j].0 == fp {
            let old = t0[j];
            let newe = (fp, if lex_lt(lex, old.1) { lex } else { old.1 }, old.2 + 1);
            assert(t == t0.update(j, newe));
            assert(entry_right(d, old));
            assert(entry_right(keys, newe)) by {
                let w = choose|k: int| 0 <= k < d.len() && #[trigger] d[k] == (old.0, old.1);
                assert(keys[w] == d[w]);
                if lex_lt(lex, old.1) {
                    assert(keys[n - 1] == (newe.0, newe.1));
                } else {
                    assert(keys[w] == (newe.0, newe.1));
                }
                assert forall|k: int| 0 <= k < keys.len() && (#[trigger] keys[k]).0 == fp implies !lex_lt(
                    keys[k].1,
                    newe.1,
                ) by {
                    lemma_lex_lt_facts(keys[k].1, lex, old.1);
                    lemma_lex_lt_facts(lex, lex, lex);
                    if k < n - 1 {
                        assert(keys[k] == d[k]);
                        assert(!lex_lt(d[k].1, old.1));
                    }
                }
            }
            assert forall|i: int| 0 <= i < t.len() implies entry_right(keys, #[trigger] t[i]) by {
                if i != j {
                    assert(t[i] == t0[i]);
                    assert(t0[i].0 != fp) by {
                        if i < j {
                            assert(t0[i].0 < t0[j].0);
                        } else {
                            assert(t0[j].0 < t0[i].0);
                        }
                    }
                }
            }
            assert forall|k: int| 0 <= k < keys.len() implies tally_has(t, (#[trigger] keys[k]).0) by {
                if k < n - 1 {
                    assert(keys[k] == d[k]);
                    assert(tally_has(t0, d[k].0));
                    let i = choose|i: int| 0 <= i < t0.len() && (#[trigger] t0[i]).0 == d[k].0;
                    assert(t[i].0 == t0[i].0);
                } else {
                    assert(t[j].0 == fp);
                }
            }
        } else {
            let newe = (fp, lex, 1nat);
            assert(t == t0.insert(j, newe));
            assert(!some_key_has(d, fp)) by {
                if some_key_has(d, fp) {
                    let k = choose|k: int| 0 <= k < d.len() && (#[trigger] d[k]).0 == fp;
                    assert(tally_has(t0, d[k].0));
                    let i = choose|i: int| 0 <= i < t0.len() && (#[trigger] t0[i]).0 == fp;
                    if i < j {
                    } else if i == j {
                    } else {
                        assert(t0[j].0 < t0[i].0);
                    }
                }
            }
            lemma_fp_count_absent(d, fp);
            assert(entry_right(keys, newe)) by {
                assert(keys[n - 1] == (newe.0, newe.1));
                assert forall|k: int| 0 <= k < keys.len() && (#[trigger] keys[k]).0 == fp implies !lex_lt(
                    keys[k].1,
                    newe.1,
                ) by {
                    lemma_lex_lt_facts(lex, lex, lex);
                    if k < n - 1 {
                        assert(keys[k] == d[k]);
                    }
                }
            }
            assert forall|i: int| 0 <= i < t.len() implies entry_right(keys, #[trigger] t[i]) by {
                if i < j {
                    assert(t[i] == t0[i]);
                } else if i > j {
                    assert(t[i] == t0[i - 1]);
                    assert(t0[i - 1].0 != fp) by {
                        if j < t0.len() {
                            if i - 1 > j {
                                assert(t0[j].0 < t0[i - 1].0);
                            }
                        }
                    }
                }
            }
            assert forall|k: int| 0 <= k < keys.len() implies tally_has(t, (#[trigger] keys[k]).0) by {
                if k < n - 1 {
                    assert(keys[k] == d[k]);
                    assert(tally_has(t0, d[k].0));
                    let i = choose|i: int| 0 <= i < t0.len() && (#[trigger] t0[i]).0 == d[k].0;
                    if i < j {
                        assert(t[i].0 == t0[i].0);
                    } else {
                        assert(t[i + 1].0 == t0[i].0);
                    }
                } else {
                    assert(t[j].0 == fp);
                }
            }
        }
    }
}


// ---- the tally kept in an ordered map ----

/// The ordered map `mv` holds the tally `tv`: the same fingerprints, each
/// with its entry's lexeme and count.
pub open spec fn tally_matches(mv: Map<u64, (String, u32)>, tv: Seq<(u64, Seq<char>, nat)>) -> bool {
    &&& forall|fp: u64| #[trigger] mv.contains_key(fp) <==> tally_has(tv, fp)
    &&& forall|i: int|
        0 <= i < tv.len() ==> mv[(#[trigger] tv[i]).0].0@ == tv[i].1 && mv[tv[i].0].1 == tv[i].2
}

/// The empty map holds the empty tally.
pub proof fn lemma_tally_matches_empty()
    ensures
        tally_matches(Map::<u64, (String, u32)>::empty(), Seq::empty()),
{
}

/// Recording a key in the map as the tally records it keeps the two in
/// step: a known fingerprint gains one and keeps the smaller lexeme, a
/// new one enters with count one.
pub proof fn lemma_tally_matches_insert(
    mv: Map<u64, (String, u32)>,
    tv: Seq<(u64, Seq<char>, nat)>,
    fp: u64,
    lex: Seq<char>,
    v: (String, u32),
)
    requires
        tally_matches(mv, tv),
        tally_wf(tv),
        mv.contains_key(fp) ==> v.0@ == (if lex_lt(lex, mv[fp].0@) { lex } else { mv[fp].0@ })
            && v.1 == mv[fp].1 + 1,
        !mv.contains_key(fp) ==> v.0@ == lex && v.1 == 1,
    ensures
        tally_matches(mv.insert(fp, v), tally_insert(tv, fp, lex)),
        tally_wf(tally_insert(tv, fp, lex)),
{
    lemma_insert_wf(tv, fp, lex);
    let j = lemma_fnb_wf(tv, fp, 0);
    let t2 = tally_insert(tv, fp, lex);
    let m2 = mv.insert(fp, v);
    if 0 <= j < tv.len() && tv[j].0 == fp {
        assert(tally_has(tv, fp));
        assert(mv.contains_key(fp));
        assert(t2 == tv.update(j, (fp, if lex_lt(lex, tv[j].1) { lex } else { tv[j].1 }, tv[j].2 + 1)));
        assert forall|x: u64| #[trigger] m2.contains_key(x) <==> tally_has(t2, x) by {
            if tally_has(tv, x) {
                let i = choose|i: int| 0 <= i < tv.len() && (#[trigger] tv[i]).0 == x;
                assert(t2[i].0 == x);
            }
            if tally_has(t2, x) {
                let i = choose|i: int| 0 <= i < t2.len() && (#[trigger] t2[i]).0 == x;
                assert(tv[i].0 == x);
            }
        }
        assert forall|i: int| 0 <= i < t2.len() implies m2[(#[trigger] t2[i]).0].0@ == t2[i].1 && m2[t2[i].0].1 == t2[i].2 by {
            if i != j {
                assert(t2[i] == tv[i]);
                if i < j {
                    assert(tv[i].0 < tv[j].0);
                } else {
                    assert(tv[j].0 < tv[i].0);
                }
            }
        }
    } else {
        assert(!tally_has(tv, fp)) by {
            if tally_has(tv, fp) {
                let i = choose|i: int| 0 <= i < tv.len() && (#[trigger] tv[i]).0 == fp;
                if i > j {
                    assert(tv[j].0 < tv[i].0);
                }
            }
        }
        assert(!mv.contains_key(fp));
        assert(t2 == tv.insert(j, (fp, lex, 1nat)));
        assert forall|x: u64| #[trigger] m2.contains_key(x) <==> tally_has(t2, x) by {
            if tally_has(tv, x) {
                let i = choose|i: int| 0 <= i < tv.len() && (#[trigger] tv[i]).0 == x;
                if i < j {
                    assert(t2[i].0 == x);
                } else {
                    assert(t2[i + 1].0 == x);
                }
            }
            if x == fp {
                assert(t2[j].0 == fp);
            }
            if tally_has(t2, x) {
                let i = choose|i: int| 0 <= i < t2.len() && (#[trigger] t2[i]).0 == x;
                if i < j {
                    assert(tv[i].0 == x);
                } else if i > j {
                    assert(tv[i - 1].0 == x);
                }
            }
        }
        assert forall|i: int| 0 <= i < t2.len() implies m2[(#[trigger] t2[i]).0].0@ == t2[i].1 && m2[t2[i].0].1 == t2[i].2 by {
            if i < j {
                assert(t2[i] == tv[i]);
                assert(tv[i].0 != fp);
            } else if i > j {
                assert(t2[i] == tv[i - 1]);
                assert(tally_has(tv, tv[i - 1].0));
                assert(tv[i - 1].0 != fp);
            }
        }
    }
}

/// Two strictly ascending fingerprint sequences with the same elements
/// are equal.
pub proof fn lemma_ascending_unique(a: Seq<u64>, b: Seq<u64>)
    requires
        forall|i: int, j: int| 0 <= i < j < a.len() ==> a[i] < a[j],
        forall|i: int, j: int| 0 <= i < j < b.len() ==> b[i] < b[j],
        forall|x: u64| a.contains(x) <==> b.contains(x),
    ensures
        a == b,
    decreases a.len(),
{
    if a.len() == 0 {
        if b.len() > 0 {
            assert(b.contains(b[0]));
        }
        assert(a =~= b);
    } else {
        assert(a.contains(a[0]));
        assert(b.len() > 0);
        assert(b.contains(b[0]));
        let ia = choose|i: int| 0 <= i < a.len() && a[i] == b[0];
        let ib = choose|i: int| 0 <= i < b.len() && b[i] == a[0];
        assert(a[0] == b[0]) by {
            if ia > 0 {
                assert(a[0] < a[ia]);
            }
            if ib > 0 {
                assert(b[0] < b[ib]);
            }
        }
        assert forall|x: u64| a.drop_first().contains(x) <==> b.drop_first().contains(x) by {
            if a.drop_first().contains(x) {
                let i = choose|i: int| 0 <= i < a.drop_first().len() && a.drop_first()[i] == x;
                assert(a[i + 1] == x);
                assert(b.contains(x));
                let k = choose|k: int| 0 <= k < b.len() && b[k] == x;
                assert(k != 0);
                assert(b.drop_first()[k - 1] == x);
            }
            if b.drop_first().contains(x) {
                let i = choose|i: int| 0 <= i < b.drop_first().len() && b.drop_first()[i] == x;
                assert(b[i + 1] == x);
                assert(a.contains(x));
                let k = choose|k: int| 0 <= k < a.len() && a[k] == x;
                assert(k != 0);
                assert(a.drop_first()[k - 1] == x);
            }
        }
        lemma_ascending_unique(a.drop_first(), b.drop_first());
        assert(a =~= seq![a[0]] + a.drop_first());
        assert(b =~= seq![b[0]] + b.drop_first());
    }
}

/// The entries of a map, listed in ascending key order, are the tally the
/// map holds.
pub proof fn lemma_tally_from_entries(
    mv: Map<u64, (String, u32)>,
    tv: Seq<(u64, Seq<char>, nat)>,
    es: Seq<(u64, (String, u32))>,
)
    requires
        tally_matches(mv, tv),
        tally_wf(tv),
        forall|i: int, j: int| 0 <= i < j < es.len() ==> es[i].0 < es[j].0,
        forall|i: int| 0 <= i < es.len() ==> mv.contains_key(#[trigger] es[i].0) && mv[es[i].0] == es[i].1,
        forall|k: u64| mv.contains_key(k) ==> exists|i: int| 0 <= i < es.len() && #[trigger] es[i].0 == k,
    ensures
        es.map_values(|e: (u64, (String, u32))| (e.0, e.1.0@, e.1.1 as nat)) == tv,
{
    let ka = es.map_values(|e: (u64, (String, u32))| e.0);
    let kb = tv.map_values(|e: (u64, Seq<char>, nat)| e.0);
    assert forall|x: u64| ka.contains(x) <==> kb.contains(x) by {
        if ka.contains(x) {
            let i = choose|i: int| 0 <= i < ka.len() && ka[i] == x;
            assert(mv.contains_key(es[i].0));
            assert(tally_has(tv, x));
            let k = choose|k: int| 0 <= k < tv.len() && (#[trigger] tv[k]).0 == x;
            assert(kb[k] == x);
        }
        if kb.contains(x) {
            let k = choose|k: int| 0 <= k < kb.len() && kb[k] == x;
            assert(tally_has(tv, tv[k].0));
            assert(mv.contains_key(x));
            let i = choose|i: int| 0 <= i < es.len() && #[trigger] es[i].0 == x;
            assert(ka[i] == x);
        }
    }
    assert forall|i: int, j: int| 0 <= i < j < kb.len() implies kb[i] < kb[j] by {
        assert(tv[i].0 < tv[j].0);
    }
    lemma_ascending_unique(ka, kb);
    let r = es.map_values(|e: (u64, (String, u32))| (e.0, e.1.0@, e.1.1 as nat));
    assert forall|i: int| 0 <= i < r.len() implies r[i] == tv[i] by {
        assert(ka[i] == kb[i]);
        assert(es[i].0 == tv[i].0);
        assert(mv[tv[i].0].0@ == tv[i].1);
    }
    assert(r =~= tv);
}

// ---- the modal baseline ----

/// The modal entry of a well-formed tally whose entries each count at
/// least one member is the entry with the highest count, the one with
/// the smallest fingerprint among equal counts.
pub proof fn lemma_modal_is_highest(t: Seq<(u64, Seq<char>, nat)>) -> (i: int)
    requires
        t.len() > 0,
        tally_wf(t),
        forall|j: int| 0 <= j < t.len() ==> (#[trigger] t[j]).2 >= 1,
    ensures
        0 <= i < t.len(),
        modal(t) == (t[i].0, t[i].2),
        forall|j: int| 0 <= j < t.len() ==> (#[trigger] t[j]).2 <= t[i].2,
        forall|j: int| 0 <= j < t.len() && (#[trigger] t[j]).2 == t[i].2 ==> t[i].0 <= t[j].0,
    decreases t.len(),
{
    let n = t.len() as int;
    let d = t.drop_last();
    if n == 1 {
        assert(modal(d) == (super::divergence::ABSENT_FP, 0nat));
        0
    } else {
        assert forall|j: int| 0 <= j < d.len() implies (#[trigger] d[j]).2 >= 1 by {
            assert(d[j] == t[j]);
        }
        assert forall|x: int, y: int| 0 <= x < y < d.len() implies (#[trigger] d[x]).0 < (#[trigger] d[y]).0 by {
            assert(d[x] == t[x] && d[y] == t[y]);
        }
        let i0 = lemma_modal_is_highest(d);
        assert(d[i0] == t[i0]);
        if t[n - 1].2 > t[i0].2 {
            assert forall|j: int| 0 <= j < t.len() implies (#[trigger] t[j]).2 <= t[n - 1].2 by {
                if j < n - 1 {
                    assert(d[j] == t[j]);
                }
            }
            assert forall|j: int| 0 <= j < t.len() && (#[trigger] t[j]).2 == t[n - 1].2 implies t[n
                - 1].0 <= t[j].0 by {
                if j < n - 1 {
                    assert(d[j] == t[j]);
                }
            }
            n - 1
        } else {
            assert forall|j: int| 0 <= j < t.len() implies (#[trigger] t[j]).2 <= t[i0].2 by {
                if j < n - 1 {
                    assert(d[j] == t[j]);
                }
            }
            assert forall|j: int| 0 <= j < t.len() && (#[trigger] t[j]).2 == t[i0].2 implies t[i0].0
                <= t[j].0 by {
                if j < n - 1 {
                    assert(d[j] == t[j]);
                } else {
                    assert(t[i0].0 < t[j].0);
                }
            }
            i0
        }
    }
}

/// The keys that differ from `m` are all keys but those carrying `m`.
proof fn lemma_count_differing_complement(keys: Seq<(u64, Seq<char>)>, m: u64)
    ensures
        count_differing(keys, m) + fp_count(keys, m) == keys.len(),
    decreases keys.len(),
{
    if keys.len() > 0 {
        lemma_count_differing_complement(keys.drop_last(), m);
    }
}

/// The modal baseline of a divergence summary: some member binds a
/// fingerprint `m` that no other binding fingerprint is bound by more
/// members than (the smallest such fingerprint when several tie), and
/// `differing` counts exactly the members that do not bind `m` — the
/// member count less the largest number of members binding one
/// fingerprint.
pub proof fn lemma_differing_from_modal(bs: Seq<Seq<SubElement>>) -> (m: u64)
    requires
        bs.len() > 0,
    ensures
        some_key_has(binding_keys(bs), m),
        forall|x: u64| fp_count(binding_keys(bs), x) <= fp_count(binding_keys(bs), m),
        forall|x: u64|
            some_key_has(binding_keys(bs), x) && fp_count(binding_keys(bs), x) == fp_count(
                binding_keys(bs),
                m,
            ) ==> m <= x,
        divergence_spec(bs).differing == super::divergence::sat_u32(
            (bs.len() - fp_count(binding_keys(bs), m)) as nat,
        ),
{
    let keys = binding_keys(bs);
    let t = tally(keys);
    lemma_tally_content(keys);
    assert(keys.len() == bs.len());
    assert(tally_has(t, keys[0].0));
    assert forall|j: int| 0 <= j < t.len() implies (#[trigger] t[j]).2 >= 1 by {
        assert(entry_right(keys, t[j]));
    }
    let i = lemma_modal_is_highest(t);
    let m = t[i].0;
    assert(entry_right(keys, t[i]));
    let w = choose|k: int| 0 <= k < keys.len() && #[trigger] keys[k] == (t[i].0, t[i].1);
    assert(keys[w].0 == m);
    assert forall|x: u64| fp_count(keys, x) <= fp_count(keys, m) by {
        if some_key_has(keys, x) {
            let k = choose|k: int| 0 <= k < keys.len() && (#[trigger] keys[k]).0 == x;
            assert(tally_has(t, keys[k].0));
            let j = choose|j: int| 0 <= j < t.len() && (#[trigger] t[j]).0 == x;
            assert(entry_right(keys, t[j]));
        } else {
            lemma_fp_count_absent(keys, x);
        }
    }
    assert forall|x: u64|
        some_key_has(keys, x) && fp_count(keys, x) == fp_count(keys, m) implies m <= x by {
        let k = choose|k: int| 0 <= k < keys.len() && (#[trigger] keys[k]).0 == x;
        assert(tally_has(t, keys[k].0));
        let j = choose|j: int| 0 <= j < t.len() && (#[trigger] t[j]).0 == x;
        assert(entry_right(keys, t[j]));
    }
    lemma_count_differing_complement(keys, m);
    m
}

} // verus!
