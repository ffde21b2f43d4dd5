//! Union-find over node indices, kept in an ordered parent map: a node
//! absent from the map, or mapped to itself, is a root; every other
//! node maps to a smaller node.
//!
//! Ordered maps are the only ones that arise: a forest starts as the
//! empty map, which is ordered ([`lemma_empty_forest_ordered`]), and
//! [`uf_find`] and [`uf_union`] keep it ordered, since a union always
//! links the larger root under the smaller one.
use vstd::prelude::*;

use std::collections::BTreeMap;

verus! {

broadcast use {vstd::laws_cmp::group_laws_cmp, vstd::std_specs::btree::group_btree_axioms};

/// Every node maps to a node no larger than itself.
pub open spec fn uf_wf(p: Map<usize, usize>) -> bool {
    forall|k: usize| p.contains_key(k) ==> p[k] <= k
}

/// The empty forest, where every node is its own root, is ordered.
pub proof fn lemma_empty_forest_ordered()
    ensures
        uf_wf(Map::<usize, usize>::empty()),
{
}

/// The root of `x`: follow the parent map down to a node that is absent
/// or maps to itself.
pub open spec fn uf_root(p: Map<usize, usize>, x: usize) -> usize
    decreases x,
{
    if p.contains_key(x) && p[x] < x {
        uf_root(p, p[x])
    } else {
        x
    }
}

/// A root is its own root, and no root lies above its node.
pub proof fn lemma_root_props(p: Map<usize, usize>, x: usize)
    requires
        uf_wf(p),
    ensures
        uf_root(p, x) <= x,
        uf_root(p, uf_root(p, x)) == uf_root(p, x),
        !(p.contains_key(uf_root(p, x)) && p[uf_root(p, x)] < uf_root(p, x)),
    decreases x,
{
    if p.contains_key(x) && p[x] < x {
        lemma_root_props(p, p[x]);
    }
}

/// Pointing a node straight at its root changes no node's root.
pub proof fn lemma_compress(p: Map<usize, usize>, c: usize, y: usize)
    requires
        uf_wf(p),
        p.contains_key(c),
    ensures
        uf_wf(p.insert(c, uf_root(p, c))),
        uf_root(p.insert(c, uf_root(p, c)), y) == uf_root(p, y),
    decreases y,
{
    let r = uf_root(p, c);
    let q = p.insert(c, r);
    lemma_root_props(p, c);
    lemma_root_props(p, y);
    if y == c {
        if r < c {
            lemma_compress(p, c, r);
        }
    } else if p.contains_key(y) && p[y] < y {
        lemma_compress(p, c, p[y]);
    }
}

/// Linking root `hi` under the smaller root `lo` sends exactly the nodes
/// rooted at `hi` to `lo`.
pub proof fn lemma_link(p: Map<usize, usize>, hi: usize, lo: usize, y: usize)
    requires
        uf_wf(p),
        lo < hi,
        uf_root(p, hi) == hi,
        uf_root(p, lo) == lo,
    ensures
        uf_wf(p.insert(hi, lo)),
        uf_root(p.insert(hi, lo), y) == if uf_root(p, y) == hi { lo } else { uf_root(p, y) },
    decreases y,
{
    let q = p.insert(hi, lo);
    lemma_root_props(p, y);
    lemma_root_props(p, lo);
    if y == hi {
        assert(uf_root(q, lo) == lo);
    } else if y == lo {
    } else if p.contains_key(y) && p[y] < y {
        lemma_link(p, hi, lo, p[y]);
    }
}

/// The root of `x`, compressing the path from `x` to it on the way: each
/// node on the path is pointed straight at the root. No node's root
/// changes.
pub fn uf_find(parent: &mut BTreeMap<usize, usize>, x: usize) -> (r: usize)
    requires
        uf_wf(old(parent)@),
    ensures
        r == uf_root(old(parent)@, x),
        uf_wf(final(parent)@),
        final(parent)@.dom() == old(parent)@.dom(),
        forall|y: usize| #[trigger] uf_root(final(parent)@, y) == uf_root(old(parent)@, y),
{
    let ghost m = parent@;
    let mut root = x;
    loop
        invariant
            parent@ == m,
            uf_wf(m),
            uf_root(m, root) == uf_root(m, x),
        ensures
            root == uf_root(m, x),
        decreases root,
    {
        match parent.get(&root) {
            Some(pr) => {
                let p = *pr;
                if p == root {
                    break;
                }
                root = p;
            },
            None => {
                break;
            },
        }
    }
    proof {
        lemma_root_props(m, x);
    }
    let mut cur = x;
    loop
        invariant
            uf_wf(m),
            uf_wf(parent@),
            root == uf_root(m, x),
            uf_root(m, cur) == root,
            parent@.dom() == m.dom(),
            forall|y: usize| #[trigger] uf_root(parent@, y) == uf_root(m, y),
            forall|k: usize| k <= cur ==> (parent@.contains_key(k) == m.contains_key(k)),
            forall|k: usize| k <= cur && m.contains_key(k) ==> parent@[k] == m[k],
        decreases cur,
    {
        match parent.get(&cur) {
            Some(pr) => {
                let p = *pr;
                if p == root {
                    break;
                }
                assert(parent@[cur] == m[cur]);
                proof {
                    lemma_root_props(m, cur);
                    assert(uf_root(parent@, cur) == root);
                    assert forall|y: usize| #[trigger] uf_root(parent@.insert(cur, root), y) == uf_root(m, y) by {
                        lemma_compress(parent@, cur, y);
                    }
                    lemma_compress(parent@, cur, cur);
                }
                parent.insert(cur, root);
                if p >= cur {
                    break;
                }
                cur = p;
            },
            None => {
                break;
            },
        }
    }
    root
}

/// Merge the classes of `a` and `b`: the larger root is linked under the
/// smaller one.
pub fn uf_union(parent: &mut BTreeMap<usize, usize>, a: usize, b: usize)
    requires
        uf_wf(old(parent)@),
    ensures
        uf_wf(final(parent)@),
        forall|y: usize| #[trigger] uf_root(final(parent)@, y) == {
            let ra = uf_root(old(parent)@, a);
            let rb = uf_root(old(parent)@, b);
            let hi = if ra < rb { rb } else { ra };
            let lo = if ra < rb { ra } else { rb };
            if ra != rb && uf_root(old(parent)@, y) == hi { lo } else { uf_root(old(parent)@, y) }
        },
{
    let ghost m = parent@;
    let ra = uf_find(parent, a);
    let rb = uf_find(parent, b);
    if ra != rb {
        let (lo, hi) = if ra < rb { (ra, rb) } else { (rb, ra) };
        proof {
            lemma_root_props(m, a);
            lemma_root_props(m, b);
            assert(uf_root(parent@, hi) == hi);
            assert(uf_root(parent@, lo) == lo);
            assert forall|y: usize| #[trigger] uf_root(parent@.insert(hi, lo), y) == if uf_root(parent@, y) == hi { lo } else { uf_root(parent@, y) } by {
                lemma_link(parent@, hi, lo, y);
            }
            lemma_link(parent@, hi, lo, hi);
        }
        parent.insert(hi, lo);
    }
}

} // verus!
