//! Pure-rename hole detection over hole tables.

use dry_core::domain::renames::{count_pure_rename_holes, is_pure_rename_hole};
use dry_core::domain::{
    DistinctValue, Divergence, Hole, HoleId, HoleKind, SubElement, Substitution,
};
use dry_core::test_support::make_span;

fn rename_hole(index: u32, fp: u64, lexemes: &[&str]) -> Hole {
    let subs: Vec<Substitution> = lexemes
        .iter()
        .map(|lx| Substitution::new(vec![SubElement::new((*lx).to_string(), fp, make_span())]))
        .collect();
    let members = u32::try_from(lexemes.len()).unwrap();
    let dv = vec![DistinctValue::new(fp, lexemes[0].to_string(), members)];
    Hole::new(HoleId::new(index), HoleKind::SubExpr, subs, Divergence::new(1, 0, members, dv))
}

fn divergent_hole(index: u32) -> Hole {
    let subs = vec![
        Substitution::new(vec![SubElement::new("a".into(), 1, make_span())]),
        Substitution::new(vec![SubElement::new("b".into(), 2, make_span())]),
    ];
    let dv = vec![DistinctValue::new(1, "a".into(), 1), DistinctValue::new(2, "b".into(), 1)];
    Hole::new(HoleId::new(index), HoleKind::SubExpr, subs, Divergence::new(2, 1, 2, dv))
}

#[test]
fn rename_hole_with_differing_lexemes_is_pure_rename() {
    assert!(is_pure_rename_hole(&rename_hole(0, 111, &["y", "z", "total"])));
}

#[test]
fn rename_hole_with_single_lexeme_is_not_pure_rename() {
    assert!(!is_pure_rename_hole(&rename_hole(0, 111, &["x", "x", "x"])));
}

#[test]
fn divergent_hole_is_not_pure_rename() {
    assert!(!is_pure_rename_hole(&divergent_hole(0)));
}

#[test]
fn hole_without_bound_elements_is_not_pure_rename() {
    let h = Hole::new(
        HoleId::new(0),
        HoleKind::SubExpr,
        vec![Substitution::new(vec![]), Substitution::new(vec![])],
        Divergence::new(1, 0, 2, vec![]),
    );
    assert!(!is_pure_rename_hole(&h));
}

#[test]
fn lexeme_difference_across_elements_of_one_member_counts() {
    let h = Hole::new(
        HoleId::new(0),
        HoleKind::SubExpr,
        vec![
            Substitution::new(vec![]),
            Substitution::new(vec![
                SubElement::new("p".into(), 9, make_span()),
                SubElement::new("q".into(), 9, make_span()),
            ]),
        ],
        Divergence::new(1, 0, 2, vec![]),
    );
    assert!(is_pure_rename_hole(&h));
}

#[test]
fn count_pure_rename_holes_counts_only_renames() {
    let holes = vec![divergent_hole(0), divergent_hole(1), rename_hole(2, 500, &["count", "total"])];
    assert_eq!(count_pure_rename_holes(&holes), 1);
    let holes = vec![divergent_hole(0), rename_hole(1, 111, &["y", "z", "total"])];
    assert_eq!(count_pure_rename_holes(&holes), 1);
    assert_eq!(count_pure_rename_holes(&[]), 0);
    let holes = vec![rename_hole(0, 1, &["a", "b"]), rename_hole(1, 2, &["a", "b"])];
    assert_eq!(count_pure_rename_holes(&holes), 2);
}
