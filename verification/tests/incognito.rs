use parallel_k::algorithms::anonymization_algorithm::{AlgorithmError, AnonymizationAlgorithm};
use parallel_k::algorithms::incognito::{insert_level, FrequencyTable, FreqEntry, GenValue, Incognito, LatticeEntry};
use parallel_k::data::dataset::Dataset;
use parallel_k::data::qi::{QIType, QuasiIdentifiers};
use parallel_k::data::table::{Column, ColumnData, Table};
use parallel_k::taxonomy::taxonomy_defs::gender_hierarchy;

fn int_col(name: &str, v: &[i64]) -> Column {
    Column { name: name.to_string(), data: ColumnData::Int(v.iter().map(|x| Some(*x)).collect()) }
}

fn str_col(name: &str, v: &[&str]) -> Column {
    Column { name: name.to_string(), data: ColumnData::Str(v.iter().map(|x| Some(x.to_string())).collect()) }
}

fn strs(c: &Column) -> Vec<String> {
    match &c.data {
        ColumnData::Str(v) => v.iter().map(|x| x.clone().unwrap_or_default()).collect(),
        ColumnData::Int(_) => panic!("expected a text column"),
    }
}

fn ints(c: &Column) -> Vec<i64> {
    match &c.data {
        ColumnData::Int(v) => v.iter().map(|x| x.unwrap()).collect(),
        ColumnData::Str(_) => panic!("expected an integer column"),
    }
}

fn dataset() -> (Dataset, QuasiIdentifiers) {
    let df = Table {
        height: 4,
        columns: vec![
            int_col("age", &[20, 21, 22, 23]),
            str_col("sex", &["Male", "Female", "Male", "Female"]),
            int_col("income", &[1, 2, 3, 4]),
        ],
    };
    let qis = QuasiIdentifiers::from_column_names(&[
        ("age", QIType::Numerical { leaf_bucket_size: 1 }),
        ("sex", QIType::Categorical { path_to_json_hierarchy: "gender.json".to_string() }),
    ]);
    let ds = Dataset::build(&df, &qis, &vec![None, Some(gender_hierarchy())]).unwrap();
    (ds, qis)
}

#[test]
fn incognito_rejects_k_below_two() {
    let (ds, qis) = dataset();
    assert!(matches!(Incognito::default().anonymize(0, ds, qis), Err(AlgorithmError::KTooSmall(0))));
}

#[test]
fn incognito_generalizes_age_fully_and_keeps_sex() {
    let (ds, qis) = dataset();
    let out = Incognito::default().anonymize(2, ds, qis).unwrap();
    assert_eq!(out.df.height, 4);
    let names: Vec<&str> = out.df.columns.iter().map(|c| c.name.as_str()).collect();
    assert_eq!(names, vec!["age", "sex", "income"]);
    assert_eq!(strs(&out.df.columns[0]), vec!["20-23", "20-23", "20-23", "20-23"]);
    assert_eq!(strs(&out.df.columns[1]), vec!["Male", "Female", "Male", "Female"]);
    assert_eq!(ints(&out.df.columns[2]), vec![1, 2, 3, 4]);
}

#[test]
fn incognito_k3_generalizes_both() {
    let (ds, qis) = dataset();
    let out = Incognito::default().anonymize(3, ds, qis).unwrap();
    assert_eq!(strs(&out.df.columns[0]), vec!["20-23", "20-23", "20-23", "20-23"]);
    assert_eq!(strs(&out.df.columns[1]), vec!["*", "*", "*", "*"]);
}

#[test]
fn incognito_no_generalization_for_large_k() {
    let (ds, qis) = dataset();
    let r = Incognito::default().anonymize(5, ds, qis);
    assert!(matches!(r, Err(AlgorithmError::NoGeneralization(5))));
}

#[test]
fn incognito_missing_column_is_reported() {
    let (ds, _) = dataset();
    let qis = QuasiIdentifiers::from_column_names(&[(
        "zip",
        QIType::Categorical { path_to_json_hierarchy: "zip.json".to_string() },
    )]);
    let r = Incognito::default().anonymize(2, ds, qis);
    assert!(matches!(r, Err(AlgorithmError::ColumnNotFound(n)) if n == "zip"));
}

#[test]
fn incognito_numerical_without_taxonomy_is_reported() {
    let (ds, _) = dataset();
    let qis = QuasiIdentifiers::from_column_names(&[("income", QIType::Numerical { leaf_bucket_size: 1 })]);
    let r = Incognito::default().anonymize(2, ds, qis);
    assert!(matches!(r, Err(AlgorithmError::MissingTaxonomy(n)) if n == "income"));
}

#[test]
fn incognito_name() {
    assert_eq!(Incognito::default().name(), "Incognito");
}

#[test]
fn frequency_table_k_anonymity() {
    let t = FrequencyTable {
        qis: QuasiIdentifiers(vec![]),
        entries: vec![
            FreqEntry { key: vec![Some(GenValue::Text("a".to_string()))], count: 3 },
            FreqEntry { key: vec![Some(GenValue::Text("b".to_string()))], count: 2 },
        ],
    };
    assert!(t.is_k_anonymous(2));
    assert!(!t.is_k_anonymous(3));
    let empty = FrequencyTable { qis: QuasiIdentifiers(vec![]), entries: vec![] };
    assert!(!empty.is_k_anonymous(1));
    assert!(empty.is_k_anonymous(0));
}

#[test]
fn dimension_tables_follow_the_taxonomies() {
    let (ds, _) = dataset();
    let dims = Incognito::generate_dimension_tables(&ds).unwrap();
    assert_eq!(dims.keys.len(), 2);
    // age: (20,20) goes up to (20,22); the single-child (23,23) goes straight to the root
    let age = &dims.tables[0];
    let up = |lo: i64, hi: i64| {
        age.edges
            .iter()
            .find(|(f, _)| matches!(f, GenValue::Range(a, b) if *a == lo && *b == hi))
            .map(|(_, t)| match t {
                GenValue::Range(a, b) => (*a, *b),
                GenValue::Text(_) => panic!("numerical edge"),
            })
    };
    assert_eq!(up(20, 20), Some((20, 22)));
    assert_eq!(up(23, 23), Some((20, 23)));
    assert_eq!(up(20, 23), Some((20, 23)));
    // sex: both labels go up to "*"
    let sex = &dims.tables[1];
    assert_eq!(sex.edges.len(), 2);
    assert!(sex.edges.iter().all(|(_, t)| matches!(t, GenValue::Text(s) if s == "*")));
}

#[test]
fn expand_search_lists_every_node_above() {
    let (ds, qis) = dataset();
    let depths: Vec<_> = qis.0.iter().map(|q| (q.clone(), ds.taxonomies.get_qi_height(&q.column_name))).collect();
    assert_eq!(depths[0].1, 2);
    assert_eq!(depths[1].1, 1);
    let entry = LatticeEntry::from_root(vec![(qis.0[0].clone(), 1), (qis.0[1].clone(), 0)], &qis);
    let nodes = Incognito::expand_search(&entry, &depths);
    let levels: Vec<Vec<usize>> = nodes.iter().map(|n| n.root.iter().map(|(_, h)| *h).collect()).collect();
    assert_eq!(levels, vec![vec![1, 0], vec![1, 1], vec![2, 0], vec![2, 1]]);
}

#[test]
fn lattice_entry_copy_shares_the_table() {
    let (_, qis) = dataset();
    let mut e = LatticeEntry::from_root(vec![(qis.0[0].clone(), 0)], &qis);
    let t = FrequencyTable {
        qis: QuasiIdentifiers(vec![]),
        entries: vec![FreqEntry { key: vec![None], count: 7 }],
    };
    e.set_freq_table(std::sync::Arc::new(t));
    let c = e.copy();
    assert!(std::sync::Arc::ptr_eq(&c.freq_table, &e.freq_table));
    assert_eq!(c.freq_table.entries[0].count, 7);
    let g = LatticeEntry::from_parent(&e, qis.0[0].clone());
    assert_eq!(g.root[0].1, 1);
    assert!(g.parent.is_some());
}

#[test]
fn rollup_of_k_anonymous_table_stays_k_anonymous() {
    let (ds, qis) = dataset();
    let dims = Incognito::generate_dimension_tables(&ds).unwrap();
    let sex = qis.0[1].clone();
    let only_sex = QuasiIdentifiers(vec![sex.clone()]);
    let t = FrequencyTable {
        qis: QuasiIdentifiers(vec![sex.clone()]),
        entries: vec![
            FreqEntry { key: vec![Some(GenValue::Text("Male".to_string()))], count: 2 },
            FreqEntry { key: vec![Some(GenValue::Text("Female".to_string()))], count: 3 },
        ],
    };
    assert!(t.is_k_anonymous(2));
    let up = Incognito::rollup_from_parent(&only_sex, &sex, &t, &dims).unwrap();
    assert!(up.is_k_anonymous(2));
    assert_eq!(up.entries.len(), 1);
    assert!(matches!(&up.entries[0].key[0], Some(GenValue::Text(s)) if s == "*"));
    assert_eq!(up.entries[0].count, 5);
}

/// Every row shares its cells on `cols` with at least `k` rows.
fn k_anonymous(t: &Table, cols: &[&str], k: usize) -> bool {
    let key = |r: usize| -> Vec<String> {
        cols.iter()
            .map(|name| {
                let c = t.columns.iter().find(|c| c.name == *name).unwrap();
                match &c.data {
                    ColumnData::Str(v) => format!("{:?}", v[r]),
                    ColumnData::Int(v) => format!("{:?}", v[r]),
                }
            })
            .collect()
    };
    (0..t.height).all(|r| (0..t.height).filter(|s| key(*s) == key(r)).count() >= k)
}

#[test]
fn incognito_outputs_are_k_anonymous() {
    let ages = [21, 22, 25, 27, 30, 31, 33, 38, 40, 44, 47, 52];
    let sexes = ["Male", "Female", "Male", "Male", "Female", "Female", "Male", "Female", "Male", "Female", "Male", "Female"];
    for k in 2..=6u32 {
        let df = Table {
            height: ages.len(),
            columns: vec![int_col("age", &ages), str_col("sex", &sexes), int_col("income", &[1; 12])],
        };
        let qis = QuasiIdentifiers::from_column_names(&[
            ("age", QIType::Numerical { leaf_bucket_size: 1 }),
            ("sex", QIType::Categorical { path_to_json_hierarchy: "gender.json".to_string() }),
        ]);
        let ds = Dataset::build(&df, &qis, &vec![None, Some(gender_hierarchy())]).unwrap();
        let out = Incognito::default().anonymize(k, ds, qis).unwrap();
        assert_eq!(out.df.height, 12);
        assert!(k_anonymous(&out.df, &["age", "sex"], k as usize), "k = {k}");
    }
}

#[test]
fn incognito_wide_age_buckets_leave_no_k_anonymous_table() {
    // integer cells are looked up as one-value intervals, which only the
    // leaves of a taxonomy with one-value buckets are: here age cannot be
    // generalized, so no table is k-anonymous on both quasi-identifiers
    let ages = [21, 22, 25, 27, 30, 31];
    let sexes = ["Male", "Female", "Male", "Male", "Female", "Female"];
    let df = Table {
        height: ages.len(),
        columns: vec![int_col("age", &ages), str_col("sex", &sexes)],
    };
    let qis = QuasiIdentifiers::from_column_names(&[
        ("age", QIType::Numerical { leaf_bucket_size: 5 }),
        ("sex", QIType::Categorical { path_to_json_hierarchy: "gender.json".to_string() }),
    ]);
    let ds = Dataset::build(&df, &qis, &vec![None, Some(gender_hierarchy())]).unwrap();
    let r = Incognito::default().anonymize(2, ds, qis);
    assert!(matches!(r, Err(AlgorithmError::NoGeneralization(2))));
}

#[test]
fn insert_level_keeps_column_order() {
    let (_, qis) = dataset();
    let age = qis.0[0].clone();
    let sex = qis.0[1].clone();
    let mut root = vec![(sex.clone(), 1)];
    insert_level(&mut root, age.clone(), 2);
    let names: Vec<(&str, usize)> = root.iter().map(|(q, h)| (q.column_name.as_str(), *h)).collect();
    assert_eq!(names, vec![("age", 2), ("sex", 1)]);
    insert_level(&mut root, sex.clone(), 0);
    let names: Vec<(&str, usize)> = root.iter().map(|(q, h)| (q.column_name.as_str(), *h)).collect();
    assert_eq!(names, vec![("age", 2), ("sex", 0)]);
}

#[test]
fn incognito_two_equal_rows_need_no_generalization() {
    let df = Table { height: 2, columns: vec![str_col("g", &["Male", "Male"])] };
    let qis = QuasiIdentifiers::from_column_names(&[(
        "g",
        QIType::Categorical { path_to_json_hierarchy: "".to_string() },
    )]);
    let ds = Dataset::build(&df, &qis, &vec![Some(gender_hierarchy())]).unwrap();
    let out = Incognito::default().anonymize(2, ds, qis).unwrap();
    assert_eq!(out.df.height, 2);
    assert_eq!(strs(&out.df.columns[0]), vec!["Male", "Male"]);
}

#[test]
fn incognito_single_quasi_identifier_takes_the_lowest_k_anonymous_height() {
    let build = || {
        let df = Table { height: 4, columns: vec![str_col("g", &["Male", "Female", "Male", "Female"])] };
        let qis = QuasiIdentifiers::from_column_names(&[(
            "g",
            QIType::Categorical { path_to_json_hierarchy: "".to_string() },
        )]);
        let ds = Dataset::build(&df, &qis, &vec![Some(gender_hierarchy())]).unwrap();
        (ds, qis)
    };
    let (ds, qis) = build();
    let out = Incognito::default().anonymize(2, ds, qis).unwrap();
    assert_eq!(strs(&out.df.columns[0]), vec!["Male", "Female", "Male", "Female"]);
    let (ds, qis) = build();
    let out = Incognito::default().anonymize(3, ds, qis).unwrap();
    assert_eq!(strs(&out.df.columns[0]), vec!["*", "*", "*", "*"]);
    let (ds, qis) = build();
    assert!(matches!(Incognito::default().anonymize(5, ds, qis), Err(AlgorithmError::NoGeneralization(5))));
}

#[test]
fn rollup_from_parent_counts_like_rollup_from_the_base() {
    let (ds, qis) = dataset();
    let dims = Incognito::generate_dimension_tables(&ds).unwrap();
    let age = qis.0[0].clone();
    let only_age = QuasiIdentifiers(vec![age.clone()]);
    let base = FrequencyTable {
        qis: QuasiIdentifiers(vec![age.clone()]),
        entries: (20..24).map(|v| FreqEntry { key: vec![Some(GenValue::Range(v, v))], count: 1 }).collect(),
    };
    let rows = |t: &FrequencyTable| {
        let mut v: Vec<(String, u64)> = t.entries.iter().map(|e| (format!("{:?}", e.key), e.count)).collect();
        v.sort();
        v
    };
    for h in 0..2usize {
        let parent = Incognito::rollup(&only_age, &vec![(age.clone(), h)], &base, &dims).unwrap();
        let from_parent = Incognito::rollup_from_parent(&only_age, &age, &parent, &dims).unwrap();
        let direct = Incognito::rollup(&only_age, &vec![(age.clone(), h + 1)], &base, &dims).unwrap();
        assert_eq!(rows(&from_parent), rows(&direct), "h = {h}");
    }
}
