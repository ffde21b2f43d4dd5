//! The scope policy: which pairs of forms may be reported together.

use dry_core::domain::{ResolvedScope, StructuralLocation};

fn loc(crate_id: Option<&str>, module: &[&str]) -> StructuralLocation {
    StructuralLocation {
        crate_id: crate_id.map(str::to_string),
        module_segments: module.iter().map(|s| (*s).to_string()).collect(),
    }
}

/// Every `ResolvedScope`: one per combination of its five flags.
fn scope_combos() -> impl Iterator<Item = ResolvedScope> {
    (0u8..32).map(|b| ResolvedScope {
        within_crate: b & 1 != 0,
        across_crate: b & 2 != 0,
        within_module: b & 4 != 0,
        across_module: b & 8 != 0,
        crate_aware: b & 16 != 0,
    })
}

#[test]
fn default_is_all_true_and_crate_aware() {
    let s = ResolvedScope::default();
    assert!(s.within_crate);
    assert!(s.across_crate);
    assert!(s.within_module);
    assert!(s.across_module);
    assert!(s.crate_aware);
}

#[test]
fn default_allows_every_pair() {
    let s = ResolvedScope::default();
    let same = loc(Some("a"), &["m"]);
    let diff = loc(Some("b"), &["n"]);
    assert!(s.allows(&same, &diff));
    assert!(s.allows(&same, &same));
    assert!(s.allows(&diff, &diff));
}

#[test]
fn permits_all_true_only_when_every_axis_is_true() {
    // Default (all four axes true) -> permits_all is true. Kills the
    // `-> false` whole-fn mutant.
    assert!(
        ResolvedScope::default().permits_all(),
        "default (all axes true) must permit all"
    );

    // Each single axis flipped to false -> permits_all is false. Each
    // case isolates one `&&` term, so the per-operator `&& -> ||`
    // mutants (which would keep returning true when one axis is false)
    // are all killed; the `-> true` whole-fn mutant dies on any of
    // these four.
    for tweak in [
        ResolvedScope {
            within_crate: false,
            ..ResolvedScope::default()
        },
        ResolvedScope {
            across_crate: false,
            ..ResolvedScope::default()
        },
        ResolvedScope {
            within_module: false,
            ..ResolvedScope::default()
        },
        ResolvedScope {
            across_module: false,
            ..ResolvedScope::default()
        },
    ] {
        assert!(
            !tweak.permits_all(),
            "any single axis false must make permits_all false: {tweak:?}"
        );
    }

    // `crate_aware` is NOT a permits_all axis: all four axes true with
    // crate_aware=false still permits all (crate_aware only widens).
    let crate_unaware = ResolvedScope {
        crate_aware: false,
        ..ResolvedScope::default()
    };
    assert!(
        crate_unaware.permits_all(),
        "crate_aware must not gate permits_all when all four axes are true"
    );
}

#[test]
fn allows_is_symmetric() {
    // Exhaustively over a small product of axis settings + a couple
    // of location pairs, assert allows(a,b) == allows(b,a).
    let a = loc(Some("crate_a"), &["foo"]);
    let b = loc(Some("crate_b"), &["bar"]);
    let c = loc(Some("crate_a"), &["foo"]);
    let pairs = [(&a, &b), (&a, &c), (&b, &c)];
    for s in scope_combos() {
        for (x, y) in pairs {
            assert_eq!(
                s.allows(x, y),
                s.allows(y, x),
                "allows must be symmetric for {s:?}"
            );
        }
    }
}

// ---- Truth table: crate axis (crate_aware = true) ----

#[test]
fn within_crate_false_blocks_same_crate_pair() {
    let s = ResolvedScope {
        within_crate: false,
        ..ResolvedScope::default()
    };
    // Same crate, same module: only the within_crate axis is in play
    // (within_module stays true).
    let a = loc(Some("k"), &["m"]);
    let b = loc(Some("k"), &["m"]);
    assert!(
        !s.allows(&a, &b),
        "same-crate pair blocked by within_crate=false"
    );
}

#[test]
fn within_crate_false_allows_cross_crate_pair() {
    let s = ResolvedScope {
        within_crate: false,
        ..ResolvedScope::default()
    };
    // Different crate, same module — across_crate stays true.
    let a = loc(Some("k1"), &["m"]);
    let b = loc(Some("k2"), &["m"]);
    assert!(
        s.allows(&a, &b),
        "cross-crate pair unaffected by within_crate"
    );
}

#[test]
fn across_crate_false_blocks_cross_crate_pair() {
    let s = ResolvedScope {
        across_crate: false,
        ..ResolvedScope::default()
    };
    let a = loc(Some("k1"), &["m"]);
    let b = loc(Some("k2"), &["m"]);
    assert!(
        !s.allows(&a, &b),
        "cross-crate pair blocked by across_crate=false"
    );
}

#[test]
fn across_crate_false_allows_same_crate_pair() {
    let s = ResolvedScope {
        across_crate: false,
        ..ResolvedScope::default()
    };
    let a = loc(Some("k"), &["m"]);
    let b = loc(Some("k"), &["m"]);
    assert!(
        s.allows(&a, &b),
        "same-crate pair unaffected by across_crate"
    );
}

// ---- Truth table: module axis ----

#[test]
fn within_module_false_blocks_same_module_pair() {
    let s = ResolvedScope {
        within_module: false,
        ..ResolvedScope::default()
    };
    let a = loc(Some("k"), &["m"]);
    let b = loc(Some("k"), &["m"]);
    assert!(
        !s.allows(&a, &b),
        "same-module pair blocked by within_module=false"
    );
}

#[test]
fn within_module_false_allows_cross_module_pair() {
    let s = ResolvedScope {
        within_module: false,
        ..ResolvedScope::default()
    };
    let a = loc(Some("k"), &["m1"]);
    let b = loc(Some("k"), &["m2"]);
    assert!(
        s.allows(&a, &b),
        "cross-module pair unaffected by within_module"
    );
}

#[test]
fn across_module_false_blocks_cross_module_pair() {
    let s = ResolvedScope {
        across_module: false,
        ..ResolvedScope::default()
    };
    let a = loc(Some("k"), &["m1"]);
    let b = loc(Some("k"), &["m2"]);
    assert!(
        !s.allows(&a, &b),
        "cross-module pair blocked by across_module=false"
    );
}

#[test]
fn across_module_false_allows_same_module_pair() {
    let s = ResolvedScope {
        across_module: false,
        ..ResolvedScope::default()
    };
    let a = loc(Some("k"), &["m"]);
    let b = loc(Some("k"), &["m"]);
    assert!(
        s.allows(&a, &b),
        "same-module pair unaffected by across_module"
    );
}

// ---- Both axes must pass ----

#[test]
fn pair_must_clear_both_axes() {
    // within_crate ok but across_module blocked => disallowed.
    let s = ResolvedScope {
        across_module: false,
        ..ResolvedScope::default()
    };
    let a = loc(Some("k"), &["m1"]);
    let b = loc(Some("k"), &["m2"]); // same crate (ok), diff module (blocked)
    assert!(!s.allows(&a, &b));
}

// ---- crate_aware = false: crate axes no-op ----

#[test]
fn crate_aware_false_noops_crate_axes_so_none_id_pair_not_dropped() {
    // The single-dir scenario: both forms have crate_id None, which
    // reads as "same crate". With within_crate=false AND
    // crate_aware=true this pair would be dropped — exactly the bug
    // crate_aware guards. With crate_aware=false the crate axis is a
    // no-op, so the pair survives (module axis still true).
    let s = ResolvedScope {
        within_crate: false,
        across_crate: false,
        crate_aware: false,
        ..ResolvedScope::default()
    };
    let a = loc(None, &["m"]);
    let b = loc(None, &["m"]);
    assert!(
        s.allows(&a, &b),
        "crate_aware=false must no-op the crate axes so a None-id pair is NOT dropped"
    );
}

#[test]
fn crate_aware_false_still_applies_module_axes() {
    // crate_aware=false no-ops ONLY the crate axes — the module axis
    // still gates.
    let scope = ResolvedScope {
        within_crate: false,
        across_crate: false,
        within_module: false,
        crate_aware: false,
        ..ResolvedScope::default()
    };
    let same_a = loc(None, &["m"]);
    let same_b = loc(None, &["m"]); // same module -> blocked by within_module=false
    assert!(
        !scope.allows(&same_a, &same_b),
        "module axis must still apply when crate_aware=false"
    );

    let diff_a = loc(None, &["m1"]);
    let diff_b = loc(None, &["m2"]); // diff module -> across_module true (default)
    assert!(
        scope.allows(&diff_a, &diff_b),
        "cross-module pair allowed when across_module true even with crate_aware=false"
    );
}

#[test]
fn crate_aware_true_drops_none_id_pair_when_within_crate_false() {
    // The contrast to the no-op test: with crate_aware=true, two
    // None crate_ids read as same-crate and ARE dropped by
    // within_crate=false. This is the bug crate_aware=false avoids.
    let s = ResolvedScope {
        within_crate: false,
        crate_aware: true,
        ..ResolvedScope::default()
    };
    let a = loc(None, &["m"]);
    let b = loc(None, &["m"]);
    assert!(
        !s.allows(&a, &b),
        "crate_aware=true treats None==None as same-crate (the guarded bug)"
    );
}

#[test]
fn permits_all_scope_allows_unrelated_pairs_even_when_crate_aware() {
    let s = ResolvedScope::default();
    assert!(s.permits_all());
    let a = loc(Some("x"), &["m", "n"]);
    let b = loc(None, &[]);
    assert!(s.allows(&a, &b));
}

#[test]
fn module_axis_compares_whole_paths() {
    let s = ResolvedScope { within_module: false, ..ResolvedScope::default() };
    // A prefix is a different module.
    assert!(s.allows(&loc(Some("k"), &["a"]), &loc(Some("k"), &["a", "b"])));
    assert!(!s.allows(&loc(Some("k"), &["a", "b"]), &loc(Some("k"), &["a", "b"])));
}
