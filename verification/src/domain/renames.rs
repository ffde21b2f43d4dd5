//! Pure-rename holes: holes whose members all bind the same structure
//! (one distinct fingerprint) spelled with different lexemes.
use vstd::prelude::*;

use super::template::{bindings_of, Hole, SubElement};

verus! {

/// The element lists of a hole, concatenated in member order.
pub open spec fn flat_elements(bs: Seq<Seq<SubElement>>) -> Seq<SubElement>
    decreases bs.len(),
{
    if bs.len() == 0 {
        Seq::empty()
    } else {
        flat_elements(bs.drop_last()) + bs.last()
    }
}

/// A hole is a pure rename: one distinct binding fingerprint, and some
/// bound element spelled differently from the first one.
pub open spec fn pure_rename(h: Hole) -> bool {
    let els = flat_elements(bindings_of(h.substitutions@));
    h.divergence.distinct == 1 && els.len() > 0 && exists|k: int|
        1 <= k < els.len() && (#[trigger] els[k]).lexeme@ != els[0].lexeme@
}

/// The number of pure-rename holes in a table.
pub open spec fn count_renames(hs: Seq<Hole>) -> nat
    decreases hs.len(),
{
    if hs.len() == 0 {
        0
    } else {
        count_renames(hs.drop_last()) + if pure_rename(hs.last()) {
            1nat
        } else {
            0nat
        }
    }
}

proof fn lemma_flat_push(bs: Seq<Seq<SubElement>>, b: Seq<SubElement>)
    ensures
        flat_elements(bs.push(b)) == flat_elements(bs) + b,
{
    assert(bs.push(b).drop_last() =~= bs);
}

/// Whether a hole is a pure rename: a single distinct binding
/// fingerprint with at least two differently spelled bound elements.
pub fn is_pure_rename_hole(hole: &Hole) -> (r: bool)
    ensures
        r == pure_rename(*hole),
{
    if hole.divergence.distinct != 1 {
        return false;
    }
    let ghost bs = bindings_of(hole.substitutions@);
    let mut first: Option<&String> = None;
    let mut s: usize = 0;
    while s < hole.substitutions.len()
        invariant
            s <= hole.substitutions@.len(),
            hole.divergence.distinct == 1,
            bs == bindings_of(hole.substitutions@),
            first is None <==> flat_elements(bs.take(s as int)).len() == 0,
            first matches Some(f) ==> f@ == flat_elements(bs.take(s as int))[0].lexeme@,
            forall|k: int|
                1 <= k < flat_elements(bs.take(s as int)).len() ==> (#[trigger] flat_elements(
                    bs.take(s as int),
                )[k]).lexeme@ == flat_elements(bs.take(s as int))[0].lexeme@,
        decreases hole.substitutions@.len() - s,
    {
        let els = &hole.substitutions[s].elements;
        let ghost before = flat_elements(bs.take(s as int));
        proof {
            assert(bs.take(s + 1) =~= bs.take(s as int).push(els@));
            lemma_flat_push(bs.take(s as int), els@);
        }
        let mut e: usize = 0;
        while e < els.len()
            invariant
                e <= els@.len(),
                s < hole.substitutions@.len(),
                hole.divergence.distinct == 1,
                bs == bindings_of(hole.substitutions@),
                els@ == bs[s as int],
                before == flat_elements(bs.take(s as int)),
                flat_elements(bs.take(s + 1)) == before + els@,
                first is None <==> (before + els@.take(e as int)).len() == 0,
                first matches Some(f) ==> f@ == (before + els@.take(e as int))[0].lexeme@,
                forall|k: int|
                    1 <= k < (before + els@.take(e as int)).len() ==> (#[trigger] (before
                        + els@.take(e as int))[k]).lexeme@ == (before + els@.take(e as int))[0].lexeme@,
            decreases els@.len() - e,
        {
            let lex = &els[e].lexeme;
            assert(before + els@.take(e + 1) =~= (before + els@.take(e as int)).push(els@[e as int]));
            match first {
                None => {
                    first = Some(lex);
                },
                Some(f) => {
                    if *lex != *f {
                        proof {
                            let full = flat_elements(bs);
                            let upto = before + els@.take(e + 1);
                            assert(upto.len() >= 2);
                            lemma_flat_prefix(bs, s + 1);
                            let k = upto.len() - 1;
                            let whole = flat_elements(bs.take(s + 1));
                            assert(whole == before + els@);
                            assert(upto[k] == whole[k]);
                            assert(upto[0] == whole[0]);
                            assert(full[k] == whole[k]);
                            assert(full[0] == whole[0]);
                            assert((before + els@.take(e as int))[0] == upto[0]);
                            assert(upto[k] == els@[e as int]);
                            assert(full[k].lexeme@ != full[0].lexeme@);
                            assert(1 <= k < full.len());
                        }
                        return true;
                    }
                },
            }
            e = e + 1;
        }
        assert(els@.take(els@.len() as int) =~= els@);
        s = s + 1;
    }
    assert(bs.take(hole.substitutions@.len() as int) =~= bs);
    false
}

/// The elements of the first `n` bindings start the elements of all of
/// them.
proof fn lemma_flat_prefix(bs: Seq<Seq<SubElement>>, n: int)
    requires
        0 <= n <= bs.len(),
    ensures
        flat_elements(bs.take(n)).len() <= flat_elements(bs).len(),
        forall|k: int|
            0 <= k < flat_elements(bs.take(n)).len() ==> #[trigger] flat_elements(bs.take(n))[k]
                == flat_elements(bs)[k],
    decreases bs.len(),
{
    if n < bs.len() {
        lemma_flat_prefix(bs.drop_last(), n);
        assert(bs.drop_last().take(n) =~= bs.take(n));
    } else {
        assert(bs.take(n) =~= bs);
    }
}

/// The number of pure-rename holes in a hole table.
pub fn count_pure_rename_holes(holes: &[Hole]) -> (r: usize)
    ensures
        r == count_renames(holes@),
{
    let mut n: usize = 0;
    let mut i: usize = 0;
    while i < holes.len()
        invariant
            i <= holes@.len(),
            n == count_renames(holes@.take(i as int)),
            n <= i,
        decreases holes@.len() - i,
    {
        assert(holes@.take(i + 1).drop_last() =~= holes@.take(i as int));
        if is_pure_rename_hole(&holes[i]) {
            n = n + 1;
        }
        i = i + 1;
    }
    assert(holes@.take(holes@.len() as int) =~= holes@);
    n
}

/// A hole with a single distinct binding fingerprint is a pure rename as
/// soon as any two of its bound elements, wherever they occur in member
/// order, are spelled differently.
pub proof fn lemma_rename_from_any_two(h: Hole, i: int, j: int)
    requires
        h.divergence.distinct == 1,
        0 <= i < flat_elements(bindings_of(h.substitutions@)).len(),
        0 <= j < flat_elements(bindings_of(h.substitutions@)).len(),
        flat_elements(bindings_of(h.substitutions@))[i].lexeme@
            != flat_elements(bindings_of(h.substitutions@))[j].lexeme@,
    ensures
        pure_rename(h),
{
    let els = flat_elements(bindings_of(h.substitutions@));
    if els[i].lexeme@ != els[0].lexeme@ {
        assert(i != 0);
        assert(1 <= i < els.len() && (#[trigger] els[i]).lexeme@ != els[0].lexeme@);
    } else {
        assert(j != 0);
        assert(1 <= j < els.len() && (#[trigger] els[j]).lexeme@ != els[0].lexeme@);
    }
}

/// A pure rename has a single distinct binding fingerprint and two bound
/// elements spelled differently; a hole whose bound elements are all
/// spelled alike is no pure rename.
pub proof fn lemma_rename_needs_two(h: Hole)
    ensures
        pure_rename(h) ==> h.divergence.distinct == 1,
        pure_rename(h) <==> h.divergence.distinct == 1 && exists|i: int, j: int|
            0 <= i < flat_elements(bindings_of(h.substitutions@)).len() && 0 <= j < flat_elements(
                bindings_of(h.substitutions@),
            ).len() && (#[trigger] flat_elements(bindings_of(h.substitutions@))[i]).lexeme@
                != (#[trigger] flat_elements(bindings_of(h.substitutions@))[j]).lexeme@,
{
    let els = flat_elements(bindings_of(h.substitutions@));
    if pure_rename(h) {
        let k = choose|k: int| 1 <= k < els.len() && (#[trigger] els[k]).lexeme@ != els[0].lexeme@;
        assert(els[k].lexeme@ != els[0].lexeme@);
    }
    if h.divergence.distinct == 1 && exists|i: int, j: int|
        0 <= i < els.len() && 0 <= j < els.len() && (#[trigger] els[i]).lexeme@ != (#[trigger] els[j]).lexeme@ {
        let (i, j) = choose|i: int, j: int|
            0 <= i < els.len() && 0 <= j < els.len() && (#[trigger] els[i]).lexeme@ != (#[trigger] els[j]).lexeme@;
        lemma_rename_from_any_two(h, i, j);
    }
}

} // verus!
