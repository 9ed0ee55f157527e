use parallel_k::taxonomy::categorical::{CategoricalHierarchy, CategoricalTaxonomy};

fn build_test_taxonomy() -> CategoricalTaxonomy {
    let hierarchy = CategoricalHierarchy {
        col_name: "Root".to_string(),
        children: vec![
            CategoricalHierarchy {
                col_name: "Mid1".to_string(),
                children: vec![
                    CategoricalHierarchy::new("LeafA"),
                    CategoricalHierarchy::new("LeafB"),
                ],
            },
            CategoricalHierarchy {
                col_name: "Mid2".to_string(),
                children: vec![CategoricalHierarchy::new("LeafC")],
            },
        ],
    };

    CategoricalTaxonomy::create_from_hierarchy("col", &hierarchy)
        .expect("test taxonomy must build without error")
}

#[test]
fn test_find_lca_single_value_returns_self() {
    let tax = build_test_taxonomy();
    assert_eq!(tax.find_lca(&["LeafA"]), Some("LeafA".to_string()));
    assert_eq!(tax.find_lca(&["Root"]), Some("Root".to_string()));
    assert_eq!(tax.find_lca(&["Mid1"]), Some("Mid1".to_string()));
}

#[test]
fn test_find_lca_two_siblings_returns_parent() {
    let tax = build_test_taxonomy();

    // LeafA and LeafB share parent Mid1.
    assert_eq!(tax.find_lca(&["LeafA", "LeafB"]), Some("Mid1".to_string()));
}

#[test]
fn test_find_lca_all_leaves_returns_root() {
    let tax = build_test_taxonomy();
    assert_eq!(tax.find_lca(&["LeafA", "LeafB", "LeafC"]), Some("Root".to_string()));
}

#[test]
fn test_find_lca_empty_returns_none() {
    let tax = build_test_taxonomy();
    assert_eq!(tax.find_lca(&[]), None);
}

#[test]
fn test_find_lca_unknown_value_returns_none() {
    let tax = build_test_taxonomy();
    assert_eq!(tax.find_lca(&["None"]), None);
    assert_eq!(tax.find_lca(&["LeafA", "Random"]), None);
}
