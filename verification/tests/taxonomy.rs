use parallel_k::taxonomy::categorical::{CategoricalHierarchy, CategoricalTaxonomy};
use parallel_k::taxonomy::numerical::{NumericalNode, NumericalTaxonomy};
use parallel_k::taxonomy::taxonomy_defs::{
    education_hierarchy, gender_hierarchy, marital_status_hierarchy, native_country_hierarchy,
    occupation_hierarchy, race_hierarchy, relationship_hierarchy, workclass_hierarchy,
};
use parallel_k::taxonomy::TaxonomyManager;

fn leaves(h: &CategoricalHierarchy) -> Vec<String> {
    if h.children.is_empty() {
        vec![h.col_name.clone()]
    } else {
        h.children.iter().flat_map(leaves).collect()
    }
}

fn depth(h: &CategoricalHierarchy) -> usize {
    h.children.iter().map(|c| 1 + depth(c)).max().unwrap_or(0)
}

#[test]
fn adult_hierarchies_have_their_shapes() {
    assert_eq!(leaves(&gender_hierarchy()), vec!["Male", "Female"]);
    assert_eq!(depth(&gender_hierarchy()), 1);
    assert_eq!(depth(&workclass_hierarchy()), 3);
    assert_eq!(leaves(&workclass_hierarchy()).len(), 6);
    assert_eq!(depth(&education_hierarchy()), 3);
    assert_eq!(leaves(&education_hierarchy()).iter().filter(|l| *l == "Assoc-acdm").count(), 1);
    assert_eq!(leaves(&marital_status_hierarchy()).len(), 7);
    assert_eq!(leaves(&occupation_hierarchy()).len(), 15);
    assert_eq!(occupation_hierarchy().children[4].col_name, "Unknown");
    assert_eq!(leaves(&occupation_hierarchy())[14], "?");
    assert_eq!(leaves(&relationship_hierarchy()).len(), 6);
    assert_eq!(leaves(&race_hierarchy()), vec!["White", "Black", "Asian-Pac-Islander", "Amer-Indian-Eskimo", "Other"]);
    assert_eq!(depth(&native_country_hierarchy()), 3);
    assert_eq!(leaves(&native_country_hierarchy()).len(), 42);
    assert_eq!(native_country_hierarchy().children.len(), 5);
    assert_eq!(native_country_hierarchy().children[4].col_name, "Unknown");
    assert_eq!(native_country_hierarchy().children[0].children[0].children[0].col_name, "United-States");
}

#[test]
fn categorical_taxonomy_levels_count_down_from_the_root() {
    let t = CategoricalTaxonomy::create_from_hierarchy("sex", &gender_hierarchy()).unwrap();
    let root = t.nodes.iter().find(|n| n.id == t.root_id).unwrap();
    assert_eq!(root.value, "*");
    assert_eq!(root.level, 1);
    assert_eq!(t.root_id, "sex_0_*");
    let male = t.nodes.iter().find(|n| n.value == "Male").unwrap();
    assert_eq!(male.level, 0);
    assert_eq!(male.parent.as_deref(), Some("sex_0_*"));
    assert_eq!(t.find_lca(&["Male", "Female"]), Some("*".to_string()));
}

#[test]
fn categorical_taxonomy_printed_depth_first() {
    let t = CategoricalTaxonomy::create_from_hierarchy("sex", &gender_hierarchy()).unwrap();
    let lines = t.print_categorical_taxanomy_tree();
    assert_eq!(
        lines,
        vec![
            "[Level 1] * (ID: sex_0_*)".to_string(),
            "  [Level 0] Male (ID: sex_1_Male)".to_string(),
            "  [Level 0] Female (ID: sex_1_Female)".to_string(),
        ]
    );
}

#[test]
fn numerical_taxonomy_groups_three_by_three() {
    let t = NumericalTaxonomy::create_from_data_range("age", 20, 23, 1, 3);
    let ranges: Vec<((i64, i64), usize)> = t.nodes.iter().map(|n| (n.range, n.level)).collect();
    assert_eq!(
        ranges,
        vec![
            ((20, 20), 0),
            ((21, 21), 0),
            ((22, 22), 0),
            ((23, 23), 0),
            ((20, 22), 1),
            ((23, 23), 1),
            ((20, 23), 3),
        ]
    );
    assert_eq!(t.nodes[0].id, "age_0_20-20");
    assert_eq!(t.nodes[0].parent.as_deref(), Some("age_1_20-22"));
    assert_eq!(t.nodes[4].children, vec!["age_0_20-20", "age_0_21-21", "age_0_22-22"]);
}

#[test]
fn numerical_taxonomy_last_leaf_is_cut_at_max() {
    let t = NumericalTaxonomy::create_from_data_range("x", 0, 11, 5, 2);
    let leaves: Vec<(i64, i64)> = t.nodes.iter().filter(|n| n.level == 0).map(|n| n.range).collect();
    assert_eq!(leaves, vec![(0, 4), (5, 9), (10, 11)]);
}

#[test]
fn qi_heights() {
    let mut m = TaxonomyManager::new();
    m.insert_numerical("age".to_string(), NumericalTaxonomy::create_from_data_range("age", 20, 23, 1, 3));
    m.insert_categorical(
        "sex".to_string(),
        CategoricalTaxonomy::create_from_hierarchy("sex", &gender_hierarchy()).unwrap(),
    );
    assert_eq!(m.get_qi_height("age"), 2);
    assert_eq!(m.get_qi_height("sex"), 1);
    assert_eq!(m.get_qi_height("zip"), 0);
}

#[test]
fn leaf_level_appends_buckets() {
    let mut nodes: Vec<NumericalNode> = Vec::new();
    let ids = NumericalTaxonomy::create_leaf_level(&mut nodes, "x", 0, 11, 5);
    assert_eq!(ids, vec!["x_0_0-4", "x_0_5-9", "x_0_10-11"]);
    let ranges: Vec<(i64, i64)> = nodes.iter().map(|n| n.range).collect();
    assert_eq!(ranges, vec![(0, 4), (5, 9), (10, 11)]);
    assert!(nodes.iter().all(|n| n.level == 0 && n.children.is_empty() && n.parent.is_none()));
    let none = NumericalTaxonomy::create_leaf_level(&mut nodes, "x", 5, 4, 1);
    assert!(none.is_empty());
    assert_eq!(nodes.len(), 3);
}

#[test]
fn parent_level_groups_the_last_nodes() {
    let mut nodes: Vec<NumericalNode> = Vec::new();
    let leaves = NumericalTaxonomy::create_leaf_level(&mut nodes, "x", 0, 11, 5);
    let parents = NumericalTaxonomy::create_parent_level(&mut nodes, "x", &leaves, 2, 1);
    assert_eq!(parents, vec!["x_1_0-9", "x_1_10-11"]);
    assert_eq!(nodes.len(), 5);
    assert_eq!(nodes[0].parent.as_deref(), Some("x_1_0-9"));
    assert_eq!(nodes[1].parent.as_deref(), Some("x_1_0-9"));
    assert_eq!(nodes[2].parent.as_deref(), Some("x_1_10-11"));
    assert_eq!(nodes[3].range, (0, 9));
    assert_eq!(nodes[3].level, 1);
    assert_eq!(nodes[3].children, vec!["x_0_0-4", "x_0_5-9"]);
    assert_eq!(nodes[4].children, vec!["x_0_10-11"]);
    assert!(nodes[3].parent.is_none());
}

#[test]
fn parent_level_with_groups_of_one() {
    let mut nodes: Vec<NumericalNode> = Vec::new();
    let leaves = NumericalTaxonomy::create_leaf_level(&mut nodes, "x", 0, 9, 5);
    let parents = NumericalTaxonomy::create_parent_level(&mut nodes, "x", &leaves, 1, 1);
    assert_eq!(parents, vec!["x_1_0-4", "x_1_5-9"]);
    assert_eq!(nodes[0].parent.as_deref(), Some("x_1_0-4"));
    assert_eq!(nodes[3].children, vec!["x_0_5-9"]);
}

#[test]
fn numerical_taxonomy_nests_children_in_their_parents() {
    let t = NumericalTaxonomy::create_from_data_range("x", 0, 9, 2, 2);
    let roots: Vec<&NumericalNode> = t.nodes.iter().filter(|n| n.parent.is_none()).collect();
    assert_eq!(roots.len(), 1);
    assert_eq!(roots[0].range, (0, 9));
    for n in &t.nodes {
        assert!(n.children.len() <= 2);
        if let Some(p) = &n.parent {
            let parent = t.nodes.iter().find(|m| &m.id == p).unwrap();
            assert!(parent.range.0 <= n.range.0 && n.range.1 <= parent.range.1);
            assert!(parent.children.contains(&n.id));
        }
    }
    for v in 0..=9 {
        let leaves = t.nodes.iter().filter(|n| n.children.is_empty() && n.range.0 <= v && v <= n.range.1).count();
        assert_eq!(leaves, 1);
    }
}

#[test]
fn categorical_parents_sit_one_level_above_their_children() {
    let t = CategoricalTaxonomy::create_from_hierarchy("edu", &education_hierarchy()).unwrap();
    let root = t.nodes.iter().find(|n| n.id == t.root_id).unwrap();
    for n in &t.nodes {
        assert!(n.level <= root.level);
        if let Some(p) = &n.parent {
            let parent = t.nodes.iter().find(|m| &m.id == p).unwrap();
            assert_eq!(parent.level, n.level + 1);
        }
    }
    assert!(t.nodes.iter().any(|n| n.level == 0));
    let parentless: Vec<&String> = t.nodes.iter().filter(|n| n.parent.is_none()).map(|n| &n.id).collect();
    assert_eq!(parentless, vec![&t.root_id]);
    assert_eq!(t.nodes.last().unwrap().id, t.root_id);
    fn count(h: &CategoricalHierarchy) -> usize {
        1 + h.children.iter().map(count).sum::<usize>()
    }
    assert_eq!(t.nodes.len(), count(&education_hierarchy()));
    for n in &t.nodes {
        for c in &n.children {
            let child = t.nodes.iter().find(|m| &m.id == c).unwrap();
            assert_eq!(child.parent.as_ref(), Some(&n.id));
        }
    }
}
