//! Run-level counts: [`Summary`].
use vstd::prelude::*;

use std::collections::BTreeMap;

use super::{FormKind, Tier};

verus! {

/// Run-level counts: how many forms were analyzed, and matches per tier
/// and per form kind (ordered by key).
#[derive(Debug, Clone, PartialEq, Eq)]
pub struct Summary {
    /// Number of forms analyzed.
    pub total_forms: u32,
    /// Matches per tier.
    pub by_tier: BTreeMap<Tier, u32>,
    /// Matches per form kind.
    pub by_kind: BTreeMap<FormKind, u32>,
}

impl Summary {
    /// No forms and no matches.
    pub fn new() -> (r: Self)
        ensures
            r.total_forms == 0,
            r.by_tier@ == Map::<Tier, u32>::empty(),
            r.by_kind@ == Map::<FormKind, u32>::empty(),
    {
        Summary { total_forms: 0, by_tier: BTreeMap::new(), by_kind: BTreeMap::new() }
    }
}

impl Default for Summary {
    fn default() -> (r: Self)
        ensures
            r.total_forms == 0,
            r.by_tier@ == Map::<Tier, u32>::empty(),
            r.by_kind@ == Map::<FormKind, u32>::empty(),
    {
        Summary::new()
    }
}


/// How many entries carry the tier `t`.
pub open spec fn tier_count(e: Seq<(Tier, Option<FormKind>)>, t: Tier) -> nat
    decreases e.len(),
{
    if e.len() == 0 {
        0
    } else {
        tier_count(e.drop_last(), t) + if e.last().0 == t { 1nat } else { 0nat }
    }
}

/// How many entries carry the form kind `k`.
pub open spec fn kind_count(e: Seq<(Tier, Option<FormKind>)>, k: FormKind) -> nat
    decreases e.len(),
{
    if e.len() == 0 {
        0
    } else {
        kind_count(e.drop_last(), k) + if e.last().1 == Some(k) { 1nat } else { 0nat }
    }
}

/// The count of one tier, listed only when it is not zero.
pub open spec fn tier_entry(e: Seq<(Tier, Option<FormKind>)>, t: Tier) -> Seq<(Tier, u32)> {
    if tier_count(e, t) > 0 { seq![(t, tier_count(e, t) as u32)] } else { Seq::empty() }
}

/// The count of one form kind, listed only when it is not zero.
pub open spec fn kind_entry(e: Seq<(Tier, Option<FormKind>)>, k: FormKind) -> Seq<(FormKind, u32)> {
    if kind_count(e, k) > 0 { seq![(k, kind_count(e, k) as u32)] } else { Seq::empty() }
}

/// The per-tier counts of the entries that have any, in tier order.
pub open spec fn tier_counts_spec(e: Seq<(Tier, Option<FormKind>)>) -> Seq<(Tier, u32)> {
    tier_entry(e, Tier::AutoRefactor) + tier_entry(e, Tier::ReviewFirst) + tier_entry(
        e,
        Tier::Advisory,
    )
}

/// The per-kind counts of the entries that have any, in kind order.
pub open spec fn kind_counts_spec(e: Seq<(Tier, Option<FormKind>)>) -> Seq<(FormKind, u32)> {
    kind_entry(e, FormKind::Production) + kind_entry(e, FormKind::Test) + kind_entry(
        e,
        FormKind::Doctest,
    )
}

/// The run's match counts, from each match's tier and the kind of its
/// first form (none for a match without forms): how many matches fall in
/// each tier and of each kind, listed in key order for the tiers and
/// kinds that have any.
pub fn summary_counts(entries: &[(Tier, Option<FormKind>)]) -> (r: (
    Vec<(Tier, u32)>,
    Vec<(FormKind, u32)>,
))
    requires
        entries@.len() <= u32::MAX,
    ensures
        r.0@ == tier_counts_spec(entries@),
        r.1@ == kind_counts_spec(entries@),
{
    let ghost e = entries@;
    let mut auto: u32 = 0;
    let mut review: u32 = 0;
    let mut advisory: u32 = 0;
    let mut production: u32 = 0;
    let mut test: u32 = 0;
    let mut doctest: u32 = 0;
    let mut i: usize = 0;
    while i < entries.len()
        invariant
            e == entries@,
            e.len() <= u32::MAX,
            i <= e.len(),
            auto == tier_count(e.take(i as int), Tier::AutoRefactor),
            review == tier_count(e.take(i as int), Tier::ReviewFirst),
            advisory == tier_count(e.take(i as int), Tier::Advisory),
            production == kind_count(e.take(i as int), FormKind::Production),
            test == kind_count(e.take(i as int), FormKind::Test),
            doctest == kind_count(e.take(i as int), FormKind::Doctest),
            auto + review + advisory == i,
            production + test + doctest <= i,
        decreases e.len() - i,
    {
        let (tier, kind) = entries[i];
        assert(e.take(i + 1).drop_last() =~= e.take(i as int));
        assert(e.take(i + 1).last() == e[i as int]);
        match tier {
            Tier::AutoRefactor => auto = auto + 1,
            Tier::ReviewFirst => review = review + 1,
            Tier::Advisory => advisory = advisory + 1,
        }
        match kind {
            Some(FormKind::Production) => production = production + 1,
            Some(FormKind::Test) => test = test + 1,
            Some(FormKind::Doctest) => doctest = doctest + 1,
            None => {},
        }
        i = i + 1;
    }
    assert(e.take(e.len() as int) =~= e);
    let mut tiers: Vec<(Tier, u32)> = Vec::new();
    if auto > 0 {
        tiers.push((Tier::AutoRefactor, auto));
    }
    if review > 0 {
        tiers.push((Tier::ReviewFirst, review));
    }
    if advisory > 0 {
        tiers.push((Tier::Advisory, advisory));
    }
    let mut kinds: Vec<(FormKind, u32)> = Vec::new();
    if production > 0 {
        kinds.push((FormKind::Production, production));
    }
    if test > 0 {
        kinds.push((FormKind::Test, test));
    }
    if doctest > 0 {
        kinds.push((FormKind::Doctest, doctest));
    }
    assert(tiers@ =~= tier_counts_spec(e));
    assert(kinds@ =~= kind_counts_spec(e));
    (tiers, kinds)
}

} // verus!
