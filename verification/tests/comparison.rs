//! Fingerprint-set bucketing.

use std::collections::HashSet;

use dry_core::comparison::buckets::bucket_key;

fn set(values: &[u64]) -> HashSet<u64> {
    values.iter().copied().collect()
}

#[test]
fn bucket_key_is_xor_fold() {
    let a = set(&[0x1, 0x2, 0x4]);
    assert_eq!(bucket_key(&a), 0x7);
    let b = set(&[0x4, 0x2, 0x1]);
    assert_eq!(bucket_key(&a), bucket_key(&b));
}

#[test]
fn bucket_key_for_empty_set_is_zero() {
    let empty: HashSet<u64> = HashSet::new();
    assert_eq!(bucket_key(&empty), 0);
}

#[test]
fn bucket_key_of_distinct_sets_can_collide() {
    // {1, 2, 3} and {0} share the key 0: the key only buckets.
    assert_eq!(bucket_key(&set(&[1, 2, 3])), bucket_key(&set(&[0])));
}

use std::collections::BTreeMap;

use dry_core::adapters::source::crate_id::{
    manifest_name, package_name_from_manifest, toml_get, top_segment_under_roots, TomlItem,
};
use dry_core::comparison::clustering::{
    clusters_for_bucket, edge_absorbed, fingerprint_sets_equal, form_ref_for,
    group_forms_by_bucket_key, jaccard_counts, sort_unclaimed_by_node_count, synthetic_path,
};
use dry_core::comparison::union_find::{uf_find, uf_union};
use dry_core::domain::{FilePath, FormKind, NormalizedForm};
use dry_core::test_support::make_span;

fn form(fps: &[u64], node_count: u32) -> NormalizedForm {
    NormalizedForm::new(FormKind::Production, set(fps), make_span(), node_count, 1)
}

#[test]
fn forms_group_by_key_skipping_empty_sets() {
    let forms = vec![
        form(&[1, 2], 3),
        form(&[], 3),
        form(&[3], 3),
        form(&[2, 1], 4),
        form(&[7], 1),
    ];
    let buckets = group_forms_by_bucket_key(&forms);
    // {1, 2} and {3} share the key 3; {7} has its own.
    assert_eq!(buckets.len(), 2);
    assert_eq!(buckets[&3], vec![0, 2, 3]);
    assert_eq!(buckets[&7], vec![4]);
}

#[test]
fn bucket_splits_into_exact_match_clusters() {
    let forms = vec![
        form(&[1, 2], 3),
        form(&[3], 3),
        form(&[2, 1], 4),
        form(&[3], 5),
        form(&[1, 2], 6),
        form(&[0, 3], 7),
    ];
    let clusters = clusters_for_bucket(&forms, vec![0, 1, 2, 3, 4, 5]);
    assert_eq!(clusters, vec![vec![0, 2, 4], vec![1, 3]]);
    // A lone leftover is not a cluster.
    assert_eq!(clusters_for_bucket(&forms, vec![0, 5]), Vec::<Vec<usize>>::new());
    assert!(fingerprint_sets_equal(&set(&[1, 2]), &set(&[2, 1])));
    assert!(!fingerprint_sets_equal(&set(&[1, 2]), &set(&[1, 3])));
    assert!(!fingerprint_sets_equal(&set(&[1]), &set(&[1, 3])));
}

#[test]
fn unclaimed_forms_sort_by_node_count_then_index() {
    let forms = vec![form(&[1], 5), form(&[2], 2), form(&[3], 5), form(&[4], 1), form(&[5], 2)];
    let claimed: HashSet<usize> = [3].into_iter().collect();
    assert_eq!(sort_unclaimed_by_node_count(&forms, &claimed), vec![1, 4, 0, 2]);
}

#[test]
fn union_find_merges_classes_under_the_smaller_root() {
    let mut parent: BTreeMap<usize, usize> = BTreeMap::new();
    uf_union(&mut parent, 4, 2);
    uf_union(&mut parent, 7, 4);
    uf_union(&mut parent, 9, 8);
    assert_eq!(uf_find(&mut parent, 7), 2);
    assert_eq!(uf_find(&mut parent, 4), 2);
    assert_eq!(uf_find(&mut parent, 9), 8);
    assert_eq!(uf_find(&mut parent, 5), 5);
    uf_union(&mut parent, 9, 7);
    assert_eq!(uf_find(&mut parent, 8), 2);
    assert_eq!(parent[&9], 8);
    // Finding 9 compresses its path: 9 now points straight at the root.
    assert_eq!(uf_find(&mut parent, 9), 2);
    assert_eq!(parent[&9], 2);
}

#[test]
fn absorbed_edges_join_one_clique() {
    let clique_of: BTreeMap<usize, usize> = [(1, 0), (2, 0), (3, 1)].into_iter().collect();
    assert!(edge_absorbed(&clique_of, 1, 2));
    assert!(!edge_absorbed(&clique_of, 1, 3));
    assert!(!edge_absorbed(&clique_of, 1, 9));
}

#[test]
fn synthetic_paths_join_the_qualified_name() {
    let unnamed = form(&[1], 1);
    assert_eq!(synthetic_path(&unnamed).to_string(), "<unknown>");
    let named = NormalizedForm::with_context(
        FormKind::Test,
        set(&[1]),
        Vec::new(),
        vec!["a".to_string(), "b".to_string(), "c".to_string()],
        make_span(),
        1,
        1,
    );
    assert_eq!(synthetic_path(&named).to_string(), "a::b::c");
    let r = form_ref_for(&named, FilePath::new("x.rs"));
    assert_eq!(r.file, FilePath::new("x.rs"));
    assert_eq!(r.kind, FormKind::Test);
}

#[test]
fn jaccard_counts_are_intersection_and_union_sizes() {
    assert_eq!(jaccard_counts(&set(&[1, 2, 3]), &set(&[2, 3, 4, 5])), (2, 5));
    assert_eq!(jaccard_counts(&set(&[1, 2, 3, 4]), &set(&[2])), (1, 4));
    assert_eq!(jaccard_counts(&set(&[]), &set(&[1])), (0, 1));
}

#[test]
fn jaccard_counts_are_symmetric_and_full_only_for_equal_sets() {
    let a = set(&[1, 2, 3]);
    let b = set(&[3, 4]);
    assert_eq!(jaccard_counts(&a, &b), jaccard_counts(&b, &a));
    let (i, u) = jaccard_counts(&a, &a);
    assert_eq!(i, u);
    let (i, u) = jaccard_counts(&a, &set(&[1, 2]));
    assert!(i < u);
}

#[test]
fn manifest_package_name() {
    assert_eq!(
        package_name_from_manifest("[package]\nname = \"dry_core\"\nversion = \"0.1.0\"\n"),
        Some("dry_core".to_string())
    );
    assert_eq!(package_name_from_manifest("[workspace]\nmembers = []\n"), None);
    assert_eq!(package_name_from_manifest("[package]\nname = 3\n"), None);
    assert_eq!(package_name_from_manifest("not toml ["), None);
}

#[test]
fn toml_get_finds_the_first_entry_with_the_key() {
    let table = TomlItem::Table(vec![
        ("name".to_string(), TomlItem::Str("a".to_string())),
        ("version".to_string(), TomlItem::Other),
    ]);
    assert_eq!(toml_get(&table, "name"), Some(&TomlItem::Str("a".to_string())));
    assert_eq!(toml_get(&table, "version"), Some(&TomlItem::Other));
    assert_eq!(toml_get(&table, "missing"), None);
    assert_eq!(toml_get(&TomlItem::Other, "name"), None);
}

#[test]
fn manifest_name_reads_the_package_table_not_another() {
    let manifest = "[dependencies]\nname = \"wrong\"\n\n[package]\nversion = \"1\"\nname = \"right\"\n";
    assert_eq!(package_name_from_manifest(manifest), Some("right".to_string()));
}

fn comps(parts: &[&str]) -> Vec<String> {
    parts.iter().map(|p| p.to_string()).collect()
}

#[test]
fn top_segment_is_the_first_directory_under_the_containing_root() {
    let roots = vec![comps(&["/", "work", "other"]), comps(&["/", "work", "repo"])];
    let file = comps(&["/", "work", "repo", "crate_a", "src", "lib.rs"]);
    assert_eq!(top_segment_under_roots(&file, &roots), Some("crate_a".to_string()));
    // A file directly in the root has no directory segment.
    let flat = comps(&["/", "work", "repo", "lib.rs"]);
    assert_eq!(top_segment_under_roots(&flat, &roots), None);
    // A file under no root has none either.
    let outside = comps(&["/", "elsewhere", "x", "lib.rs"]);
    assert_eq!(top_segment_under_roots(&outside, &roots), None);
}

#[test]
fn manifest_name_reads_a_parsed_document() {
    let package = TomlItem::Table(vec![("name".to_string(), TomlItem::Str("pkg".to_string()))]);
    let doc = TomlItem::Table(vec![("package".to_string(), package)]);
    assert_eq!(manifest_name(&doc), Some("pkg".to_string()));
    let no_name = TomlItem::Table(vec![("package".to_string(), TomlItem::Table(vec![]))]);
    assert_eq!(manifest_name(&no_name), None);
    let bad_name = TomlItem::Table(vec![(
        "package".to_string(),
        TomlItem::Table(vec![("name".to_string(), TomlItem::Other)]),
    )]);
    assert_eq!(manifest_name(&bad_name), None);
}
