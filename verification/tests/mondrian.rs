use parallel_k::algorithms::anonymization_algorithm::{AlgorithmError, AnonymizationAlgorithm};
use parallel_k::algorithms::mondrian::Mondrian;
use parallel_k::data::dataset::Dataset;
use parallel_k::data::qi::{QIType, QuasiIdentifiers};
use parallel_k::data::table::{Column, ColumnData, Table};
use parallel_k::taxonomy::categorical::CategoricalHierarchy;
use parallel_k::taxonomy::taxonomy_defs::gender_hierarchy;

fn int_col(name: &str, v: &[i64]) -> Column {
    Column { name: name.to_string(), data: ColumnData::Int(v.iter().map(|x| Some(*x)).collect()) }
}

fn str_col(name: &str, v: &[&str]) -> Column {
    Column { name: name.to_string(), data: ColumnData::Str(v.iter().map(|x| Some(x.to_string())).collect()) }
}

fn strs(c: &Column) -> Vec<String> {
    match &c.data {
        ColumnData::Str(v) => v.iter().map(|x| x.clone().unwrap_or_default()).collect(),
        ColumnData::Int(_) => panic!("expected a text column"),
    }
}

fn ints(c: &Column) -> Vec<i64> {
    match &c.data {
        ColumnData::Int(v) => v.iter().map(|x| x.unwrap()).collect(),
        ColumnData::Str(_) => panic!("expected an integer column"),
    }
}

fn age_dataset(ages: &[i64]) -> (Dataset, QuasiIdentifiers) {
    let n = ages.len();
    let incomes: Vec<i64> = (1..=n as i64).collect();
    let df = Table { height: n, columns: vec![int_col("age", ages), int_col("income", &incomes)] };
    let qis = QuasiIdentifiers::from_column_names(&[("age", QIType::Numerical { leaf_bucket_size: 5 })]);
    let hs: Vec<Option<CategoricalHierarchy>> = vec![None];
    let ds = Dataset::build(&df, &qis, &hs).expect("taxonomies build");
    (ds, qis)
}

fn age_sex_dataset() -> (Dataset, QuasiIdentifiers) {
    let df = Table {
        height: 4,
        columns: vec![
            int_col("age", &[20, 25, 30, 35]),
            str_col("sex", &["Male", "Female", "Male", "Female"]),
            int_col("income", &[1, 2, 3, 4]),
        ],
    };
    let qis = QuasiIdentifiers::from_column_names(&[
        ("age", QIType::Numerical { leaf_bucket_size: 5 }),
        ("sex", QIType::Categorical { path_to_json_hierarchy: "gender.json".to_string() }),
    ]);
    let hs = vec![None, Some(gender_hierarchy())];
    let ds = Dataset::build(&df, &qis, &hs).expect("taxonomies build");
    (ds, qis)
}

/// Every row shares its cells on `cols` with at least `k` rows.
fn k_anonymous(t: &Table, cols: &[&str], k: usize) -> bool {
    let key = |r: usize| -> Vec<String> {
        cols.iter()
            .map(|name| {
                let c = t.columns.iter().find(|c| c.name == *name).unwrap();
                match &c.data {
                    ColumnData::Str(v) => format!("{:?}", v[r]),
                    ColumnData::Int(v) => format!("{:?}", v[r]),
                }
            })
            .collect()
    };
    (0..t.height).all(|r| (0..t.height).filter(|s| key(*s) == key(r)).count() >= k)
}

#[test]
fn mondrian_rejects_k_below_two() {
    let (ds, qis) = age_dataset(&[20, 25, 30, 35]);
    let r = Mondrian::default().anonymize(1, ds, qis);
    assert!(matches!(r, Err(AlgorithmError::KTooSmall(1))));
}

#[test]
fn mondrian_splits_numerical_at_the_median() {
    let (ds, qis) = age_dataset(&[20, 25, 30, 35]);
    let out = Mondrian::default().anonymize(2, ds, qis).unwrap();
    assert_eq!(out.df.height, 4);
    assert_eq!(out.df.columns[0].name, "age");
    assert_eq!(strs(&out.df.columns[0]), vec!["20-25", "20-25", "30-35", "30-35"]);
    assert_eq!(ints(&out.df.columns[1]), vec![1, 2, 3, 4]);
    assert!(k_anonymous(&out.df, &["age"], 2));
}

#[test]
fn mondrian_sorts_unsorted_values_before_cutting() {
    let (ds, qis) = age_dataset(&[35, 20, 30, 25]);
    let out = Mondrian::default().anonymize(2, ds, qis).unwrap();
    assert_eq!(strs(&out.df.columns[0]), vec!["30-35", "20-25", "30-35", "20-25"]);
}

#[test]
fn mondrian_keeps_one_group_when_no_cut_is_allowable() {
    let (ds, qis) = age_dataset(&[20, 25, 30, 35]);
    let out = Mondrian::default().anonymize(3, ds, qis).unwrap();
    assert_eq!(strs(&out.df.columns[0]), vec!["20-35", "20-35", "20-35", "20-35"]);
}

#[test]
fn mondrian_single_value_label() {
    let (ds, qis) = age_dataset(&[20, 20, 30, 30]);
    let out = Mondrian::default().anonymize(2, ds, qis).unwrap();
    assert_eq!(strs(&out.df.columns[0]), vec!["20", "20", "30", "30"]);
}

#[test]
fn mondrian_too_few_rows_gives_empty_table() {
    let (ds, qis) = age_dataset(&[20, 25, 30, 35]);
    let out = Mondrian::default().anonymize(5, ds, qis).unwrap();
    assert_eq!(out.df.height, 0);
    assert_eq!(out.df.columns.len(), 2);
    assert!(matches!(&out.df.columns[0].data, ColumnData::Int(v) if v.is_empty()));
}

#[test]
fn mondrian_generalizes_categorical_to_common_ancestor() {
    let (ds, qis) = age_sex_dataset();
    let out = Mondrian::default().anonymize(2, ds, qis).unwrap();
    assert_eq!(strs(&out.df.columns[0]), vec!["20-25", "20-25", "30-35", "30-35"]);
    assert_eq!(strs(&out.df.columns[1]), vec!["*", "*", "*", "*"]);
    assert_eq!(ints(&out.df.columns[2]), vec![1, 2, 3, 4]);
    assert!(k_anonymous(&out.df, &["age", "sex"], 2));
}

#[test]
fn mondrian_missing_taxonomy_is_reported() {
    let df = Table {
        height: 2,
        columns: vec![str_col("sex", &["Male", "Female"])],
    };
    let qis = QuasiIdentifiers::from_column_names(&[(
        "sex",
        QIType::Categorical { path_to_json_hierarchy: "gender.json".to_string() },
    )]);
    let ds = Dataset::build(&df, &qis, &vec![Some(gender_hierarchy())]).unwrap();
    let ds = Dataset {
        df: ds.df,
        qis: ds.qis,
        taxonomies: parallel_k::taxonomy::TaxonomyManager::new(),
    };
    let r = Mondrian::default().anonymize(2, ds, qis);
    assert!(matches!(r, Err(AlgorithmError::MissingTaxonomy(n)) if n == "sex"));
}

#[test]
fn mondrian_wrong_column_type_is_reported() {
    let df = Table { height: 2, columns: vec![int_col("sex", &[1, 2])] };
    let qis = QuasiIdentifiers::from_column_names(&[(
        "sex",
        QIType::Categorical { path_to_json_hierarchy: "gender.json".to_string() },
    )]);
    let ds = Dataset {
        df,
        qis: qis.clone(),
        taxonomies: {
            let mut m = parallel_k::taxonomy::TaxonomyManager::new();
            let t = parallel_k::taxonomy::categorical::CategoricalTaxonomy::create_from_hierarchy(
                "sex",
                &gender_hierarchy(),
            )
            .unwrap();
            m.insert_categorical("sex".to_string(), t);
            m
        },
    };
    let r = Mondrian::default().anonymize(2, ds, qis);
    assert!(matches!(r, Err(AlgorithmError::WrongColumnType(n)) if n == "sex"));
}

#[test]
fn mondrian_name() {
    assert_eq!(Mondrian::default().name(), "Mondrian");
}

#[test]
fn mondrian_empty_dataset_is_an_error() {
    let (ds, qis) = age_dataset(&[]);
    let r = Mondrian::default().anonymize(2, ds, qis);
    assert!(matches!(r, Err(AlgorithmError::EmptyDataset)));
}

#[test]
fn error_messages() {
    assert_eq!(AlgorithmError::KTooSmall(1).message(), "k must be at least 2, got k = 1");
    assert_eq!(AlgorithmError::EmptyDataset.message(), "the dataset is empty");
    assert_eq!(AlgorithmError::ColumnNotFound("age".to_string()).message(), "column not found: age");
}
