//! Cleaning of raw tables before anonymization.
use vstd::prelude::*;
use crate::data::table::{column_len, opt_strings_view, CellsModel, Column, ColumnData, Table};
use crate::text::{clone_opt_string, opt_string_view};

verus! {

/// A text cell with `?` (the census files' mark for an unknown value) made null.
pub open spec fn unmark(o: Option<Seq<char>>) -> Option<Seq<char>> {
    match o {
        Some(s) => if s == seq!['?'] {
            None
        } else {
            Some(s)
        },
        None => None,
    }
}

/// The cells of a column with every text cell `?` made null; integer cells are kept.
pub open spec fn unmarked(c: CellsModel) -> CellsModel {
    match c {
        CellsModel::Int(v) => CellsModel::Int(v),
        CellsModel::Str(v) => CellsModel::Str(v.map_values(|o: Option<Seq<char>>| unmark(o))),
    }
}

/// `b` is `a` cleaned cell by cell: the same kind and number of cells;
/// integer cells are the same; a text cell is null exactly when it was null
/// or `?`, and is unchanged otherwise.
pub open spec fn cleaned_cells(a: CellsModel, b: CellsModel) -> bool {
    match (a, b) {
        (CellsModel::Int(v), CellsModel::Int(w)) => w == v,
        (CellsModel::Str(v), CellsModel::Str(w)) => {
            &&& w.len() == v.len()
            &&& forall|i: int|
                0 <= i < v.len() ==> ((#[trigger] w[i]) is None <==> (v[i] is None || v[i] == Some(seq!['?'])))
            &&& forall|i: int| 0 <= i < v.len() && (#[trigger] w[i]) is Some ==> w[i] == v[i]
        },
        _ => false,
    }
}

/// Cleaning a column nulls every `?` text cell and keeps every other cell as
/// it is, whatever the other rows hold.
pub proof fn lemma_unmarked_cleans(c: CellsModel)
    ensures
        cleaned_cells(c, unmarked(c)),
{
}

/// Whether a text cell is exactly `?`.
fn is_qmark(o: &Option<String>) -> (r: bool)
    ensures
        r == (opt_string_view(*o) == Some(seq!['?'])),
{
    match o {
        Some(s) => {
            let q = "?";
            proof {
                reveal_strlit("?");
            }
            let r = crate::text::str_eq_string(q, s);
            assert(q@ =~= seq!['?']);
            r
        },
        None => false,
    }
}

/// Makes null every text cell that is `?`, in every text column.
pub fn replace_qmarks_with_none(df: &mut Table)
    ensures
        final(df).height == old(df).height,
        final(df).columns@.len() == old(df).columns@.len(),
        forall|c: int|
            0 <= c < old(df).columns@.len() ==> (#[trigger] final(df).columns@[c]).name@ == old(df).columns@[c].name@
                && final(df).columns@[c].data@ == unmarked(old(df).columns@[c].data@) && column_len(
                final(df).columns@[c].data,
            ) == column_len(old(df).columns@[c].data),
        forall|c: int|
            0 <= c < old(df).columns@.len() ==> cleaned_cells(
                old(df).columns@[c].data@,
                #[trigger] final(df).columns@[c].data@,
            ),
{
    let ghost before = df.columns@;
    let mut cols: Vec<Column> = Vec::new();
    for c in 0..df.columns.len()
        invariant
            before == df.columns@,
            cols@.len() == c,
            forall|j: int|
                0 <= j < c ==> (#[trigger] cols@[j]).name@ == before[j].name@ && cols@[j].data@ == unmarked(
                    before[j].data@,
                ) && column_len(cols@[j].data) == column_len(before[j].data),
    {
        let column = &df.columns[c];
        let data = match &column.data {
            ColumnData::Int(_) => column.data.copy(),
            ColumnData::Str(v) => {
                let mut out: Vec<Option<String>> = Vec::new();
                for i in 0..v.len()
                    invariant
                        out@.len() == i,
                        forall|j: int| 0 <= j < i ==> opt_string_view(#[trigger] out@[j]) == unmark(opt_string_view(v@[j])),
                {
                    if is_qmark(&v[i]) {
                        out.push(None);
                    } else {
                        out.push(clone_opt_string(&v[i]));
                    }
                }
                assert(opt_strings_view(out@) =~= opt_strings_view(v@).map_values(|o: Option<Seq<char>>| unmark(o)));
                ColumnData::Str(out)
            },
        };
        cols.push(Column { name: column.name.clone(), data });
    }
    df.columns = cols;
    proof {
        assert forall|c: int| 0 <= c < before.len() implies cleaned_cells(before[c].data@, #[trigger] df.columns@[c].data@) by {
            lemma_unmarked_cleans(before[c].data@);
        }
    }
}

} // verus!
