//! Longest common subsequence over fingerprint sequences, with the
//! fixed "prefer the upper-left predecessor" reconstruction, and the
//! subsequence facts the child alignment relies on.
use vstd::prelude::*;

verus! {

/// Length of a longest common subsequence of `a[i..]` and `b[j..]`.
pub open spec fn lcs_len(a: Seq<u64>, b: Seq<u64>, i: int, j: int) -> nat
    decreases a.len() - i + b.len() - j,
{
    if i < 0 || j < 0 || i >= a.len() || j >= b.len() {
        0
    } else if a[i] == b[j] {
        1 + lcs_len(a, b, i + 1, j + 1)
    } else {
        let down = lcs_len(a, b, i + 1, j);
        let right = lcs_len(a, b, i, j + 1);
        if down >= right { down } else { right }
    }
}

/// The common subsequence of `a[i..]` and `b[j..]` read off the LCS
/// table: take a matching head; otherwise advance in `a` when that
/// keeps at least as long a common subsequence, else advance in `b`.
pub open spec fn lcs_from(a: Seq<u64>, b: Seq<u64>, i: int, j: int) -> Seq<u64>
    decreases a.len() - i + b.len() - j,
{
    if i < 0 || j < 0 || i >= a.len() || j >= b.len() {
        Seq::empty()
    } else if a[i] == b[j] {
        seq![a[i]] + lcs_from(a, b, i + 1, j + 1)
    } else if lcs_len(a, b, i + 1, j) >= lcs_len(a, b, i, j + 1) {
        lcs_from(a, b, i + 1, j)
    } else {
        lcs_from(a, b, i, j + 1)
    }
}

/// The longest common subsequence of `a` and `b` chosen by the table
/// walk.
pub open spec fn lcs(a: Seq<u64>, b: Seq<u64>) -> Seq<u64> {
    lcs_from(a, b, 0, 0)
}

/// `x` is a subsequence of `y` (greedy, leftmost matching).
pub open spec fn is_subseq(x: Seq<u64>, y: Seq<u64>) -> bool
    decreases y.len(),
{
    if x.len() == 0 {
        true
    } else if y.len() == 0 {
        false
    } else if x[0] == y[0] {
        is_subseq(x.drop_first(), y.drop_first())
    } else {
        is_subseq(x, y.drop_first())
    }
}

/// The table length is bounded by what is left of `a`.
pub proof fn lemma_lcs_len_bound(a: Seq<u64>, b: Seq<u64>, i: int, j: int)
    requires
        0 <= i <= a.len(),
        0 <= j <= b.len(),
    ensures
        lcs_len(a, b, i, j) <= a.len() - i,
    decreases a.len() - i + b.len() - j,
{
    if i < a.len() && j < b.len() {
        lemma_lcs_len_bound(a, b, i + 1, j + 1);
        lemma_lcs_len_bound(a, b, i + 1, j);
        lemma_lcs_len_bound(a, b, i, j + 1);
    }
}

/// Dropping the head of `x` keeps it a subsequence of `y`.
pub proof fn lemma_subseq_drop_first(x: Seq<u64>, y: Seq<u64>)
    requires
        x.len() > 0,
        is_subseq(x, y),
    ensures
        is_subseq(x.drop_first(), y),
    decreases y.len(), 0nat,
{
    if y.len() > 0 {
        if x[0] == y[0] {
            lemma_subseq_prepend(x.drop_first(), y.drop_first(), y[0]);
            assert(y.drop_first().insert(0, y[0]) =~= y);
        } else {
            lemma_subseq_drop_first(x, y.drop_first());
            lemma_subseq_prepend(x.drop_first(), y.drop_first(), y[0]);
            assert(y.drop_first().insert(0, y[0]) =~= y);
        }
    }
}

/// Putting one element in front of `y` keeps `x` a subsequence of it.
pub proof fn lemma_subseq_prepend(x: Seq<u64>, y: Seq<u64>, c: u64)
    requires
        is_subseq(x, y),
    ensures
        is_subseq(x, y.insert(0, c)),
    decreases y.len(), 1nat,
{
    let yc = y.insert(0, c);
    assert(yc.drop_first() =~= y);
    if x.len() > 0 && x[0] == c {
        lemma_subseq_drop_first(x, y);
    }
}

/// The subsequence relation is transitive.
pub proof fn lemma_subseq_trans(x: Seq<u64>, y: Seq<u64>, z: Seq<u64>)
    requires
        is_subseq(x, y),
        is_subseq(y, z),
    ensures
        is_subseq(x, z),
    decreases z.len(),
{
    if x.len() > 0 && z.len() > 0 {
        if y[0] == z[0] {
            if x[0] == y[0] {
                lemma_subseq_trans(x.drop_first(), y.drop_first(), z.drop_first());
            } else {
                lemma_subseq_trans(x, y.drop_first(), z.drop_first());
            }
        } else {
            lemma_subseq_trans(x, y, z.drop_first());
            if x[0] == z[0] {
                lemma_subseq_drop_first(x, z.drop_first());
            }
        }
    }
}

/// The chosen common subsequence of `a[i..]` and `b[j..]` is a
/// subsequence of both.
pub proof fn lemma_lcs_from_subseq(a: Seq<u64>, b: Seq<u64>, i: int, j: int)
    requires
        0 <= i <= a.len(),
        0 <= j <= b.len(),
    ensures
        is_subseq(lcs_from(a, b, i, j), a.subrange(i, a.len() as int)),
        is_subseq(lcs_from(a, b, i, j), b.subrange(j, b.len() as int)),
    decreases a.len() - i + b.len() - j,
{
    let r = lcs_from(a, b, i, j);
    let sa = a.subrange(i, a.len() as int);
    let sb = b.subrange(j, b.len() as int);
    if i < a.len() && j < b.len() {
        if a[i] == b[j] {
            lemma_lcs_from_subseq(a, b, i + 1, j + 1);
            assert(r.drop_first() =~= lcs_from(a, b, i + 1, j + 1));
            assert(sa.drop_first() =~= a.subrange(i + 1, a.len() as int));
            assert(sb.drop_first() =~= b.subrange(j + 1, b.len() as int));
        } else if lcs_len(a, b, i + 1, j) >= lcs_len(a, b, i, j + 1) {
            lemma_lcs_from_subseq(a, b, i + 1, j);
            assert(a.subrange(i + 1, a.len() as int).insert(0, a[i]) =~= sa);
            lemma_subseq_prepend(r, a.subrange(i + 1, a.len() as int), a[i]);
        } else {
            lemma_lcs_from_subseq(a, b, i, j + 1);
            assert(b.subrange(j + 1, b.len() as int).insert(0, b[j]) =~= sb);
            lemma_subseq_prepend(r, b.subrange(j + 1, b.len() as int), b[j]);
        }
    }
}

/// The chosen common subsequence is a subsequence of both inputs.
pub proof fn lemma_lcs_subseq(a: Seq<u64>, b: Seq<u64>)
    ensures
        is_subseq(lcs(a, b), a),
        is_subseq(lcs(a, b), b),
{
    lemma_lcs_from_subseq(a, b, 0, 0);
    assert(a.subrange(0, a.len() as int) =~= a);
    assert(b.subrange(0, b.len() as int) =~= b);
}

// ---- the lexicographic order on fingerprint sequences ----

/// `a` sorts before `b`, or equals it, in lexicographic order.
pub open spec fn lex_le(a: Seq<u64>, b: Seq<u64>) -> bool
    decreases a.len(),
{
    if a.len() == 0 {
        true
    } else if b.len() == 0 {
        false
    } else if a[0] != b[0] {
        a[0] < b[0]
    } else {
        lex_le(a.drop_first(), b.drop_first())
    }
}

/// [`lex_le`] as a relation.
pub open spec fn lex_leq() -> spec_fn(Seq<u64>, Seq<u64>) -> bool {
    |a: Seq<u64>, b: Seq<u64>| lex_le(a, b)
}

proof fn lemma_lex_refl(a: Seq<u64>)
    ensures
        lex_le(a, a),
    decreases a.len(),
{
    if a.len() > 0 {
        lemma_lex_refl(a.drop_first());
    }
}

proof fn lemma_lex_antisym(a: Seq<u64>, b: Seq<u64>)
    requires
        lex_le(a, b),
        lex_le(b, a),
    ensures
        a == b,
    decreases a.len(),
{
    if a.len() == 0 {
        assert(a =~= b);
    } else {
        lemma_lex_antisym(a.drop_first(), b.drop_first());
        assert(a =~= seq![a[0]] + a.drop_first());
        assert(b =~= seq![b[0]] + b.drop_first());
    }
}

proof fn lemma_lex_trans(a: Seq<u64>, b: Seq<u64>, c: Seq<u64>)
    requires
        lex_le(a, b),
        lex_le(b, c),
    ensures
        lex_le(a, c),
    decreases a.len(),
{
    if a.len() > 0 && b.len() > 0 && c.len() > 0 && a[0] == b[0] && b[0] == c[0] {
        lemma_lex_trans(a.drop_first(), b.drop_first(), c.drop_first());
    }
}

proof fn lemma_lex_total(a: Seq<u64>, b: Seq<u64>)
    ensures
        lex_le(a, b) || lex_le(b, a),
    decreases a.len(),
{
    if a.len() > 0 && b.len() > 0 && a[0] == b[0] {
        lemma_lex_total(a.drop_first(), b.drop_first());
    }
}

/// The lexicographic order on fingerprint sequences is a total order.
pub proof fn lemma_lex_total_ordering()
    ensures
        vstd::relations::total_ordering(lex_leq()),
{
    let r = lex_leq();
    assert forall|x: Seq<u64>| #[trigger] r(x, x) by {
        lemma_lex_refl(x);
    }
    assert forall|x: Seq<u64>, y: Seq<u64>| #[trigger] r(x, y) && #[trigger] r(y, x) implies x
        == y by {
        lemma_lex_antisym(x, y);
    }
    assert forall|x: Seq<u64>, y: Seq<u64>, z: Seq<u64>| #[trigger] r(x, y) && #[trigger] r(y, z)
        implies r(x, z) by {
        lemma_lex_trans(x, y, z);
    }
    assert forall|x: Seq<u64>, y: Seq<u64>| #[trigger] r(x, y) || #[trigger] r(y, x) by {
        lemma_lex_total(x, y);
    }
}

/// Lexicographic comparison of two fingerprint sequences.
pub fn lex_le_exec(a: &Vec<u64>, b: &Vec<u64>) -> (r: bool)
    ensures
        r == lex_le(a@, b@),
{
    let mut i: usize = 0;
    assert(a@.skip(0) =~= a@);
    assert(b@.skip(0) =~= b@);
    while i < a.len()
        invariant
            i <= a@.len(),
            i <= b@.len(),
            lex_le(a@, b@) == lex_le(a@.skip(i as int), b@.skip(i as int)),
        decreases a@.len() - i,
    {
        if i == b.len() {
            return false;
        }
        if a[i] != b[i] {
            return a[i] < b[i];
        }
        assert(a@.skip(i as int).drop_first() =~= a@.skip(i + 1));
        assert(b@.skip(i as int).drop_first() =~= b@.skip(i + 1));
        i = i + 1;
    }
    true
}

/// The sequences held by a list of vectors.
pub open spec fn vec_views(v: Seq<Vec<u64>>) -> Seq<Seq<u64>> {
    v.map_values(|x: Vec<u64>| x@)
}

/// The position of the lexicographically least list among `v[..]`,
/// the first such when several are equal.
fn least_position(v: &Vec<Vec<u64>>) -> (r: usize)
    requires
        v@.len() > 0,
    ensures
        r < v@.len(),
        forall|j: int| 0 <= j < v@.len() ==> lex_le(v@[r as int]@, (#[trigger] v@[j])@),
{
    proof {
        lemma_lex_total_ordering();
    }
    let mut m: usize = 0;
    let mut i: usize = 1;
    assert(lex_leq()(v@[0]@, v@[0]@));
    while i < v.len()
        invariant
            1 <= i <= v@.len(),
            m < i,
            vstd::relations::total_ordering(lex_leq()),
            forall|j: int| 0 <= j < i ==> lex_le(v@[m as int]@, (#[trigger] v@[j])@),
        decreases v@.len() - i,
    {
        if !lex_le_exec(&v[m], &v[i]) {
            assert(lex_leq()(v@[m as int]@, v@[i as int]@) || lex_leq()(
                v@[i as int]@,
                v@[m as int]@,
            ));
            assert(lex_leq()(v@[i as int]@, v@[m as int]@));
            assert forall|j: int| 0 <= j <= i implies lex_le(v@[i as int]@, (#[trigger] v@[j])@) by {
                if j < i {
                    assert(lex_leq()(v@[m as int]@, v@[j]@));
                    assert(lex_leq()(v@[i as int]@, v@[j]@));
                } else {
                    assert(lex_leq()(v@[i as int]@, v@[i as int]@));
                }
            }
            m = i;
        }
        i = i + 1;
    }
    m
}

/// The lists sorted into lexicographic order (selection of the least
/// remaining list, repeatedly): exactly `sort_by(lex_leq())` of them.
pub fn sort_fp_lists(v: Vec<Vec<u64>>) -> (r: Vec<Vec<u64>>)
    ensures
        vec_views(r@) == vec_views(v@).sort_by(lex_leq()),
{
    broadcast use vstd::multiset::group_multiset_axioms;
    broadcast use vstd::seq_lib::group_to_multiset_ensures;
    proof {
        lemma_lex_total_ordering();
    }
    let ghost orig = vec_views(v@);
    let mut rem = v;
    let mut out: Vec<Vec<u64>> = Vec::new();
    assert(vec_views(out@).to_multiset().add(vec_views(rem@).to_multiset()) =~= orig.to_multiset());
    while rem.len() > 0
        invariant
            vstd::relations::total_ordering(lex_leq()),
            vstd::relations::sorted_by(vec_views(out@), lex_leq()),
            forall|i: int, j: int|
                0 <= i < out@.len() && 0 <= j < rem@.len() ==> lex_le(
                    (#[trigger] out@[i])@,
                    (#[trigger] rem@[j])@,
                ),
            vec_views(out@).to_multiset().add(vec_views(rem@).to_multiset()) =~= orig.to_multiset(),
        decreases rem@.len(),
    {
        let m = least_position(&rem);
        let ghost old_rem = rem@;
        let ghost old_out = out@;
        let x = rem.remove(m);
        assert(vec_views(rem@) =~= vec_views(old_rem).remove(m as int));
        assert(x@ == vec_views(old_rem)[m as int]);
        out.push(x);
        assert(vec_views(out@) =~= vec_views(old_out).push(x@));
        proof {
            vstd::seq_lib::to_multiset_remove(vec_views(old_rem), m as int);
            vstd::seq_lib::to_multiset_build(vec_views(old_out), x@);
            assert(vec_views(old_rem).contains(x@));
            vstd::seq_lib::to_multiset_contains(vec_views(old_rem), x@);
            let om = vec_views(old_out).to_multiset();
            let rm = vec_views(old_rem).to_multiset();
            assert(vec_views(out@).to_multiset() == om.insert(x@));
            assert(vec_views(rem@).to_multiset() == rm.remove(x@));
            assert(om.insert(x@).add(rm.remove(x@)) =~= om.add(rm));
            assert forall|i: int, j: int|
                0 <= i < out@.len() && 0 <= j < rem@.len() implies lex_le(
                    (#[trigger] out@[i])@,
                    (#[trigger] rem@[j])@,
                ) by {
                let jj = if j < m { j } else { j + 1 };
                assert(rem@[j] == old_rem[jj]);
                if i < old_out.len() {
                    assert(out@[i] == old_out[i]);
                } else {
                    assert(out@[i] == old_rem[m as int]);
                }
            }
            assert forall|i: int, j: int|
                0 <= i < j < vec_views(out@).len() implies #[trigger] lex_leq()(
                    vec_views(out@)[i],
                    vec_views(out@)[j],
                ) by {
                if j < old_out.len() {
                    assert(vec_views(old_out)[i] == vec_views(out@)[i]);
                    assert(vec_views(old_out)[j] == vec_views(out@)[j]);
                } else {
                    assert(out@[i] == old_out[i]);
                    assert(lex_le(old_out[i]@, old_rem[m as int]@));
                }
            }
        }
    }
    proof {
        assert(vec_views(rem@) =~= Seq::<Seq<u64>>::empty());
        assert(vec_views(out@).to_multiset() =~= orig.to_multiset());
        orig.lemma_sort_by_ensures(lex_leq());
        vstd::seq_lib::lemma_sorted_unique(vec_views(out@), orig.sort_by(lex_leq()), lex_leq());
    }
    out
}

/// The chosen walk has the table's length.
proof fn lemma_lcs_from_len(a: Seq<u64>, b: Seq<u64>, i: int, j: int)
    ensures
        lcs_from(a, b, i, j).len() == lcs_len(a, b, i, j),
    decreases a.len() - i + b.len() - j,
{
    if i < 0 || j < 0 || i >= a.len() || j >= b.len() {
    } else if a[i] == b[j] {
        lemma_lcs_from_len(a, b, i + 1, j + 1);
    } else if lcs_len(a, b, i + 1, j) >= lcs_len(a, b, i, j + 1) {
        lemma_lcs_from_len(a, b, i + 1, j);
    } else {
        lemma_lcs_from_len(a, b, i, j + 1);
    }
}

/// No common subsequence of `a[i..]` and `b[j..]` is longer than the
/// table says.
proof fn lemma_common_bound(a: Seq<u64>, b: Seq<u64>, i: int, j: int, x: Seq<u64>)
    requires
        0 <= i <= a.len(),
        0 <= j <= b.len(),
        is_subseq(x, a.subrange(i, a.len() as int)),
        is_subseq(x, b.subrange(j, b.len() as int)),
    ensures
        x.len() <= lcs_len(a, b, i, j),
    decreases a.len() - i + b.len() - j,
{
    let sa = a.subrange(i, a.len() as int);
    let sb = b.subrange(j, b.len() as int);
    if x.len() == 0 {
    } else if i >= a.len() || j >= b.len() {
    } else {
        assert(sa[0] == a[i] && sb[0] == b[j]);
        assert(sa.drop_first() =~= a.subrange(i + 1, a.len() as int));
        assert(sb.drop_first() =~= b.subrange(j + 1, b.len() as int));
        if a[i] == b[j] {
            if x[0] == a[i] {
                lemma_common_bound(a, b, i + 1, j + 1, x.drop_first());
            } else {
                lemma_common_bound(a, b, i + 1, j + 1, x);
                lemma_lcs_len_bound(a, b, i + 1, j + 1);
            }
        } else if x[0] != a[i] {
            lemma_common_bound(a, b, i + 1, j, x);
        } else {
            lemma_common_bound(a, b, i, j + 1, x);
        }
    }
}

/// The chosen common subsequence is a longest one: no common
/// subsequence of `a` and `b` is longer.
pub proof fn lemma_lcs_longest(a: Seq<u64>, b: Seq<u64>, x: Seq<u64>)
    requires
        is_subseq(x, a),
        is_subseq(x, b),
    ensures
        x.len() <= lcs(a, b).len(),
{
    assert(a.subrange(0, a.len() as int) =~= a);
    assert(b.subrange(0, b.len() as int) =~= b);
    lemma_common_bound(a, b, 0, 0, x);
    lemma_lcs_from_len(a, b, 0, 0);
}

/// The common subsequence of two fingerprint sequences chosen by the
/// classic dynamic-programming table and its fixed table walk: a
/// subsequence of both inputs, of maximal length, depending only on the
/// two sequences.
pub fn lcs_fp_sequence(a: &[u64], b: &[u64]) -> (r: Vec<u64>)
    ensures
        r@ == lcs(a@, b@),
        is_subseq(r@, a@),
        is_subseq(r@, b@),
        forall|x: Seq<u64>| #[trigger] is_subseq(x, a@) && #[trigger] is_subseq(x, b@) ==> x.len() <= r@.len(),
{
    let n = a.len();
    let m = b.len();
    // dp[i][j] = lcs_len(a, b, i, j)
    let mut dp: Vec<Vec<usize>> = Vec::new();
    let mut r0: usize = 0;
    loop
        invariant_except_break
            dp@.len() == r0,
            forall|x: int| 0 <= x < r0 ==> #[trigger] dp@[x]@.len() == m + 1,
            forall|x: int, y: int| 0 <= x < r0 && 0 <= y <= m ==> #[trigger] dp@[x]@[y] == 0,
        invariant
            r0 <= n,
            n == a@.len(),
            m == b@.len(),
        ensures
            dp@.len() == n + 1,
            forall|x: int| 0 <= x <= n ==> #[trigger] dp@[x]@.len() == m + 1,
            forall|x: int, y: int| 0 <= x <= n && 0 <= y <= m ==> #[trigger] dp@[x]@[y] == 0,
        decreases n - r0,
    {
        let mut row: Vec<usize> = Vec::new();
        let mut c: usize = 0;
        loop
            invariant_except_break
                row@.len() == c,
                forall|y: int| 0 <= y < c ==> #[trigger] row@[y] == 0,
            invariant
                c <= m,
                m == b@.len(),
            ensures
                row@.len() == m + 1,
                forall|y: int| 0 <= y <= m ==> #[trigger] row@[y] == 0,
            decreases m - c,
        {
            row.push(0);
            if c == m {
                break;
            }
            c = c + 1;
        }
        dp.push(row);
        if r0 == n {
            break;
        }
        r0 = r0 + 1;
    }
    let mut i: usize = n;
    while i > 0
        invariant
            i <= n,
            n == a@.len(),
            m == b@.len(),
            dp@.len() == n + 1,
            forall|x: int| 0 <= x <= n ==> #[trigger] dp@[x]@.len() == m + 1,
            forall|x: int, y: int|
                i <= x <= n && 0 <= y <= m ==> #[trigger] dp@[x]@[y] == lcs_len(a@, b@, x, y),
            forall|x: int, y: int| 0 <= x < i && 0 <= y <= m ==> #[trigger] dp@[x]@[y] == 0,
        decreases i,
    {
        i = i - 1;
        let mut j: usize = m;
        assert(dp@[i as int]@[m as int] == 0);
        while j > 0
            invariant
                i < n,
                j <= m,
                n == a@.len(),
                m == b@.len(),
                dp@.len() == n + 1,
                forall|x: int| 0 <= x <= n ==> #[trigger] dp@[x]@.len() == m + 1,
                forall|x: int, y: int|
                    i < x <= n && 0 <= y <= m ==> #[trigger] dp@[x]@[y] == lcs_len(a@, b@, x, y),
                forall|y: int| j <= y <= m ==> #[trigger] dp@[i as int]@[y] == lcs_len(a@, b@, i as int, y),
                forall|x: int, y: int| 0 <= x < i && 0 <= y <= m ==> #[trigger] dp@[x]@[y] == 0,
            decreases j,
        {
            j = j - 1;
            let v: usize = if a[i] == b[j] {
                proof {
                    lemma_lcs_len_bound(a@, b@, i + 1, j + 1);
                }
                dp[i + 1][j + 1] + 1
            } else {
                let down = dp[i + 1][j];
                let right = dp[i][j + 1];
                if down >= right { down } else { right }
            };
            dp[i].set(j, v);
        }
    }
    proof {
        lemma_lcs_subseq(a@, b@);
        assert forall|x: Seq<u64>| #[trigger] is_subseq(x, a@) && #[trigger] is_subseq(x, b@)
            implies x.len() <= lcs(a@, b@).len() by {
            lemma_lcs_longest(a@, b@, x);
        }
    }
    reconstruct_lcs(a, b, &dp)
}

/// Walk the table from the top-left corner to read off the chosen
/// common subsequence.
fn reconstruct_lcs(a: &[u64], b: &[u64], dp: &Vec<Vec<usize>>) -> (r: Vec<u64>)
    requires
        dp@.len() == a@.len() + 1,
        forall|x: int| 0 <= x <= a@.len() ==> #[trigger] dp@[x]@.len() == b@.len() + 1,
        forall|x: int, y: int|
            0 <= x <= a@.len() && 0 <= y <= b@.len() ==> #[trigger] dp@[x]@[y] == lcs_len(a@, b@, x, y),
    ensures
        r@ == lcs(a@, b@),
{
    let mut i: usize = 0;
    let mut j: usize = 0;
    let mut out: Vec<u64> = Vec::new();
    while i < a.len() && j < b.len()
        invariant
            i <= a@.len(),
            j <= b@.len(),
            dp@.len() == a@.len() + 1,
            forall|x: int| 0 <= x <= a@.len() ==> #[trigger] dp@[x]@.len() == b@.len() + 1,
            forall|x: int, y: int|
                0 <= x <= a@.len() && 0 <= y <= b@.len() ==> #[trigger] dp@[x]@[y] == lcs_len(a@, b@, x, y),
            out@ + lcs_from(a@, b@, i as int, j as int) == lcs(a@, b@),
        decreases a@.len() - i + b@.len() - j,
    {
        if a[i] == b[j] {
            let ghost rest = lcs_from(a@, b@, i + 1, j + 1);
            out.push(a[i]);
            assert(out@ + rest =~= out@.drop_last() + (seq![a@[i as int]] + rest));
            i = i + 1;
            j = j + 1;
        } else if dp[i + 1][j] >= dp[i][j + 1] {
            i = i + 1;
        } else {
            j = j + 1;
        }
    }
    assert(lcs_from(a@, b@, i as int, j as int) =~= Seq::<u64>::empty());
    assert(out@ =~= out@ + Seq::<u64>::empty());
    out
}

} // verus!
