use parallel_k::data::dataset::Dataset;
use parallel_k::data::qi::{QIType, QuasiIdentifiers};
use parallel_k::data::table::{Column, ColumnData, Table};
use parallel_k::data_interface::replace_qmarks_with_none;
use parallel_k::taxonomy::TaxonomyError;

#[test]
fn from_column_names_numbers_and_names_the_columns() {
    let qis = QuasiIdentifiers::from_column_names(&[
        ("age", QIType::Numerical { leaf_bucket_size: 5 }),
        ("sex", QIType::Categorical { path_to_json_hierarchy: "h.json".to_string() }),
    ]);
    assert_eq!(qis.0.len(), 2);
    assert_eq!(qis.0[0].column_name, "age");
    assert_eq!(qis.0[0].incognito_colname, "ATT_0");
    assert_eq!(qis.0[1].incognito_colname, "ATT_1");
    assert_eq!(qis.0[1].index, 1);
    assert_eq!(qis.0[1].qi_type, QIType::Categorical { path_to_json_hierarchy: "h.json".to_string() });
}

#[test]
fn from_column_names_two_digit_index() {
    let names: Vec<String> = (0..12).map(|i| format!("c{i}")).collect();
    let pairs: Vec<(&str, QIType)> =
        names.iter().map(|n| (n.as_str(), QIType::Numerical { leaf_bucket_size: 1 })).collect();
    let qis = QuasiIdentifiers::from_column_names(&pairs);
    assert_eq!(qis.0[11].incognito_colname, "ATT_11");
}

#[test]
fn qmarks_become_null_in_text_columns_only() {
    let mut t = Table {
        height: 3,
        columns: vec![
            Column {
                name: "w".to_string(),
                data: ColumnData::Str(vec![Some("?".to_string()), Some("Private".to_string()), None]),
            },
            Column { name: "n".to_string(), data: ColumnData::Int(vec![Some(1), None, Some(3)]) },
        ],
    };
    replace_qmarks_with_none(&mut t);
    match &t.columns[0].data {
        ColumnData::Str(v) => assert_eq!(v, &vec![None, Some("Private".to_string()), None]),
        _ => panic!(),
    }
    match &t.columns[1].data {
        ColumnData::Int(v) => assert_eq!(v, &vec![Some(1), None, Some(3)]),
        _ => panic!(),
    }
}

#[test]
fn dataset_build_reports_missing_column() {
    let t = Table { height: 0, columns: vec![] };
    let qis = QuasiIdentifiers::from_column_names(&[("age", QIType::Numerical { leaf_bucket_size: 5 })]);
    let r = Dataset::build(&t, &qis, &vec![None]);
    assert!(matches!(r, Err(TaxonomyError::ColumnNotFound(n)) if n == "age"));
}

#[test]
fn dataset_build_copies_the_table() {
    let t = Table {
        height: 2,
        columns: vec![Column { name: "age".to_string(), data: ColumnData::Int(vec![Some(3), Some(9)]) }],
    };
    let qis = QuasiIdentifiers::from_column_names(&[("age", QIType::Numerical { leaf_bucket_size: 2 })]);
    let d = Dataset::build(&t, &qis, &vec![None]).unwrap();
    assert_eq!(d.df.height, 2);
    match &d.df.columns[0].data {
        ColumnData::Int(v) => assert_eq!(v, &vec![Some(3), Some(9)]),
        _ => panic!(),
    }
    let tax = d.taxonomies.numerical("age").unwrap();
    assert_eq!((tax.min_val, tax.max_val), (3, 9));
}

