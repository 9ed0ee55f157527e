//! The interface every anonymization algorithm offers.
use vstd::prelude::*;
use crate::data::{dataset::Dataset, qi::QuasiIdentifier, qi::QuasiIdentifiers};
use crate::data::table::{CellsModel, ColumnData, Table, TableModel, column_len, opt_strings_view};
use crate::text::opt_string_view;
use crate::text::{nat_decimal, push_decimal, push_str_chars, string_from_chars};

verus! {

/// Why an anonymization failed.
#[derive(Clone, Debug, PartialEq, Eq)]
pub enum AlgorithmError {
    /// `k` is below 2.
    KTooSmall(u32),
    /// The named quasi-identifier column is not in the table.
    ColumnNotFound(String),
    /// The named quasi-identifier column does not hold the kind of cells its quasi-identifier needs.
    WrongColumnType(String),
    /// The named categorical quasi-identifier column has no taxonomy.
    MissingTaxonomy(String),
    /// The named categorical column's values in a group have no common ancestor in its taxonomy.
    NoCommonAncestor(String),
    /// No full-domain generalization makes the table k-anonymous for this `k`.
    NoGeneralization(u32),
    /// The named column's numerical taxonomy has a node whose parent is missing.
    BrokenTaxonomy(String),
    /// The named quasi-identifier is not among the dataset's own.
    UnknownQuasiIdentifier(String),
    /// The dataset has no row.
    EmptyDataset,
}

/// The text that describes an error.
pub open spec fn error_text(e: AlgorithmError) -> Seq<char> {
    match e {
        AlgorithmError::KTooSmall(k) => "k must be at least 2, got k = "@ + nat_decimal(k as nat),
        AlgorithmError::ColumnNotFound(c) => "column not found: "@ + c@,
        AlgorithmError::WrongColumnType(c) => "column has the wrong type: "@ + c@,
        AlgorithmError::MissingTaxonomy(c) => "no taxonomy for column: "@ + c@,
        AlgorithmError::NoCommonAncestor(c) => "no common ancestor in the taxonomy of column: "@ + c@,
        AlgorithmError::NoGeneralization(k) => "No k-anonymous full domain generalization exists for k = "@
            + nat_decimal(k as nat),
        AlgorithmError::BrokenTaxonomy(c) => "broken taxonomy for column: "@ + c@,
        AlgorithmError::UnknownQuasiIdentifier(c) => "unknown quasi-identifier: "@ + c@,
        AlgorithmError::EmptyDataset => "the dataset is empty"@,
    }
}

impl AlgorithmError {
    /// The text that describes the error (see `error_text`).
    pub fn message(&self) -> (s: String)
        ensures
            s@ == error_text(*self),
    {
        let mut cs: Vec<char> = Vec::new();
        match self {
            AlgorithmError::KTooSmall(k) => {
                push_str_chars(&mut cs, "k must be at least 2, got k = ");
                push_decimal(&mut cs, *k as u64);
            },
            AlgorithmError::ColumnNotFound(c) => {
                push_str_chars(&mut cs, "column not found: ");
                push_str_chars(&mut cs, c.as_str());
            },
            AlgorithmError::WrongColumnType(c) => {
                push_str_chars(&mut cs, "column has the wrong type: ");
                push_str_chars(&mut cs, c.as_str());
            },
            AlgorithmError::MissingTaxonomy(c) => {
                push_str_chars(&mut cs, "no taxonomy for column: ");
                push_str_chars(&mut cs, c.as_str());
            },
            AlgorithmError::NoCommonAncestor(c) => {
                push_str_chars(&mut cs, "no common ancestor in the taxonomy of column: ");
                push_str_chars(&mut cs, c.as_str());
            },
            AlgorithmError::NoGeneralization(k) => {
                push_str_chars(&mut cs, "No k-anonymous full domain generalization exists for k = ");
                push_decimal(&mut cs, *k as u64);
            },
            AlgorithmError::BrokenTaxonomy(c) => {
                push_str_chars(&mut cs, "broken taxonomy for column: ");
                push_str_chars(&mut cs, c.as_str());
            },
            AlgorithmError::UnknownQuasiIdentifier(c) => {
                push_str_chars(&mut cs, "unknown quasi-identifier: ");
                push_str_chars(&mut cs, c.as_str());
            },
            AlgorithmError::EmptyDataset => {
                push_str_chars(&mut cs, "the dataset is empty");
            },
        }
        let s = string_from_chars(&cs);
        assert(s@ =~= error_text(*self));
        s
    }
}

/// A pluggable k-anonymity algorithm, e.g. Mondrian or Incognito.
pub trait AnonymizationAlgorithm {
    /// The algorithm's name, e.g. "Mondrian" or "Incognito".
    fn name(&self) -> &str;

    /// Anonymizes `dataset` so that each group of rows sharing the same
    /// quasi-identifier values has at least `k` rows.
    fn anonymize(&self, k: u32, dataset: Dataset, quasi_identifiers: QuasiIdentifiers) -> Result<
        Dataset,
        AlgorithmError,
    >
        requires
            dataset.wf(),
    ;
}


/// Whether `name` is the column of one of `qis`.
pub open spec fn is_qi_column(qis: Seq<QuasiIdentifier>, name: Seq<char>) -> bool {
    exists|q: int| 0 <= q < qis.len() && (#[trigger] qis[q]).column_name@ == name
}

/// Whether rows `i` and `j` hold the same cell in column `c`.
pub open spec fn same_cell(c: CellsModel, i: int, j: int) -> bool {
    match c {
        CellsModel::Int(v) => v[i] == v[j],
        CellsModel::Str(v) => v[i] == v[j],
    }
}

/// Whether rows `i` and `j` of `t` agree on every quasi-identifier column.
pub open spec fn same_qi_cells(qis: Seq<QuasiIdentifier>, t: TableModel, i: int, j: int) -> bool {
    forall|c: int|
        0 <= c < t.columns.len() && is_qi_column(qis, t.columns[c].0) ==> #[trigger] same_cell(t.columns[c].1, i, j)
}

/// The rows of `t` that agree with row `i` on every quasi-identifier column.
pub open spec fn equivalence_class(qis: Seq<QuasiIdentifier>, t: TableModel, i: int) -> Set<int> {
    Set::new(|j: int| 0 <= j < t.height && same_qi_cells(qis, t, i, j))
}

/// Every row of `t` shares its quasi-identifier cells with at least `k` rows
/// of `t`, itself included.
pub open spec fn is_k_anonymous(qis: Seq<QuasiIdentifier>, t: TableModel, k: int) -> bool {
    forall|i: int| 0 <= i < t.height ==> #[trigger] equivalence_class(qis, t, i).len() >= k
}

/// The rows `j < m` of `t` that agree with row `i` on every quasi-identifier column.
pub open spec fn class_below(qis: Seq<QuasiIdentifier>, t: TableModel, i: int, m: int) -> Set<int> {
    Set::new(|j: int| 0 <= j < m && same_qi_cells(qis, t, i, j))
}

pub proof fn lemma_class_below(qis: Seq<QuasiIdentifier>, t: TableModel, i: int, m: int)
    requires
        0 <= m,
    ensures
        class_below(qis, t, i, m).finite(),
        class_below(qis, t, i, m + 1) == if same_qi_cells(qis, t, i, m) {
            class_below(qis, t, i, m).insert(m)
        } else {
            class_below(qis, t, i, m)
        },
        !class_below(qis, t, i, m).contains(m),
    decreases m,
{
    if m > 0 {
        lemma_class_below(qis, t, i, m - 1);
    } else {
        assert(class_below(qis, t, i, 0) =~= Set::<int>::empty());
    }
    if same_qi_cells(qis, t, i, m) {
        assert(class_below(qis, t, i, m + 1) =~= class_below(qis, t, i, m).insert(m));
    } else {
        assert(class_below(qis, t, i, m + 1) =~= class_below(qis, t, i, m));
    }
}

/// Whether two optional texts are the same.
fn same_opt_text(a: &Option<String>, b: &Option<String>) -> (r: bool)
    ensures
        r == (opt_string_view(*a) == opt_string_view(*b)),
{
    match a {
        Some(x) => match b {
            Some(y) => *x == *y,
            None => false,
        },
        None => b.is_none(),
    }
}

/// Whether each column of `t` is the column of one of `qis`.
fn qi_column_flags(qis: &Vec<QuasiIdentifier>, t: &Table) -> (flags: Vec<bool>)
    ensures
        flags@.len() == t.columns@.len(),
        forall|c: int| 0 <= c < flags@.len() ==> flags@[c] == is_qi_column(qis@, #[trigger] t@.columns[c].0),
{
    let mut flags: Vec<bool> = Vec::new();
    for c in 0..t.columns.len()
        invariant
            flags@.len() == c,
            forall|c2: int| 0 <= c2 < c ==> flags@[c2] == is_qi_column(qis@, #[trigger] t@.columns[c2].0),
    {
        let mut found = false;
        for q in 0..qis.len()
            invariant
                c < t.columns@.len(),
                found == exists|q2: int| 0 <= q2 < q && (#[trigger] qis@[q2]).column_name@ == t.columns@[c as int].name@,
        {
            if qis[q].column_name == t.columns[c].name {
                found = true;
            }
        }
        assert(t@.columns[c as int].0 == t.columns@[c as int].name@);
        flags.push(found);
    }
    flags
}

/// Whether rows `i` and `j` of `t` agree on every column flagged in `flags`.
fn same_flagged_cells(t: &Table, flags: &Vec<bool>, i: usize, j: usize, Ghost(qis): Ghost<Seq<QuasiIdentifier>>) -> (r: bool)
    requires
        t.wf(),
        i < t.height,
        j < t.height,
        flags@.len() == t.columns@.len(),
        forall|c: int| 0 <= c < flags@.len() ==> flags@[c] == is_qi_column(qis, #[trigger] t@.columns[c].0),
    ensures
        r == same_qi_cells(qis, t@, i as int, j as int),
{
    for c in 0..t.columns.len()
        invariant
            t.wf(),
            i < t.height,
            j < t.height,
            flags@.len() == t.columns@.len(),
            forall|c2: int| 0 <= c2 < flags@.len() ==> flags@[c2] == is_qi_column(qis, #[trigger] t@.columns[c2].0),
            forall|c2: int|
                0 <= c2 < c && is_qi_column(qis, t@.columns[c2].0) ==> #[trigger] same_cell(t@.columns[c2].1, i as int, j as int),
    {
        assert(t@.columns[c as int] == (t.columns@[c as int].name@, t.columns@[c as int].data@));
        assert(column_len(t.columns@[c as int].data) == t.height);
        if flags[c] {
            let same = match &t.columns[c].data {
                ColumnData::Int(v) => match (v[i], v[j]) {
                    (Some(x), Some(y)) => x == y,
                    (None, None) => true,
                    _ => false,
                },
                ColumnData::Str(v) => {
                    proof {
                        assert(opt_strings_view(v@)[i as int] == opt_string_view(v@[i as int]));
                        assert(opt_strings_view(v@)[j as int] == opt_string_view(v@[j as int]));
                    }
                    same_opt_text(&v[i], &v[j])
                },
            };
            if !same {
                assert(!same_cell(t@.columns[c as int].1, i as int, j as int));
                return false;
            }
        }
    }
    true
}

/// Whether every row of `t` shares its cells on the quasi-identifier columns
/// with at least `k` rows of `t` (see `is_k_anonymous`).
pub fn table_is_k_anonymous(qis: &Vec<QuasiIdentifier>, t: &Table, k: u32) -> (r: bool)
    requires
        t.wf(),
    ensures
        r == is_k_anonymous(qis@, t@, k as int),
{
    let flags = qi_column_flags(qis, t);
    let n = t.height;
    for i in 0..n
        invariant
            n == t.height,
            t.wf(),
            flags@.len() == t.columns@.len(),
            forall|c: int| 0 <= c < flags@.len() ==> flags@[c] == is_qi_column(qis@, #[trigger] t@.columns[c].0),
            forall|i2: int| 0 <= i2 < i ==> #[trigger] equivalence_class(qis@, t@, i2).len() >= k,
    {
        let mut count: usize = 0;
        assert(class_below(qis@, t@, i as int, 0) =~= Set::<int>::empty());
        for j in 0..n
            invariant
                n == t.height,
                t.wf(),
                i < n,
                flags@.len() == t.columns@.len(),
                forall|c: int| 0 <= c < flags@.len() ==> flags@[c] == is_qi_column(qis@, #[trigger] t@.columns[c].0),
                count <= j,
                class_below(qis@, t@, i as int, j as int).finite(),
                count == class_below(qis@, t@, i as int, j as int).len(),
        {
            proof {
                lemma_class_below(qis@, t@, i as int, j as int);
            }
            if same_flagged_cells(t, &flags, i, j, Ghost(qis@)) {
                count += 1;
            }
        }
        assert(class_below(qis@, t@, i as int, n as int) =~= equivalence_class(qis@, t@, i as int));
        if count < k as usize {
            return false;
        }
    }
    true
}

} // verus!
