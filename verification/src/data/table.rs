//! A column-oriented table of integer and text cells, each cell possibly null.
use vstd::prelude::*;
use crate::text::{clone_opt_string, opt_string_view, str_eq_string};

verus! {

/// The cells of one column, top to bottom.
#[derive(Clone, Debug)]
pub enum ColumnData {
    Int(Vec<Option<i64>>),
    Str(Vec<Option<String>>),
}

/// Number of cells in a column.
pub open spec fn column_len(d: ColumnData) -> nat {
    match d {
        ColumnData::Int(v) => v@.len(),
        ColumnData::Str(v) => v@.len(),
    }
}

/// The cells of a column, as values.
pub ghost enum CellsModel {
    Int(Seq<Option<i64>>),
    Str(Seq<Option<Seq<char>>>),
}

/// The views of a list of optional strings.
pub open spec fn opt_strings_view(v: Seq<Option<String>>) -> Seq<Option<Seq<char>>> {
    v.map_values(|o: Option<String>| opt_string_view(o))
}

impl View for ColumnData {
    type V = CellsModel;

    open spec fn view(&self) -> CellsModel {
        match self {
            ColumnData::Int(v) => CellsModel::Int(v@),
            ColumnData::Str(v) => CellsModel::Str(opt_strings_view(v@)),
        }
    }
}

/// A named column.
#[derive(Clone, Debug)]
pub struct Column {
    pub name: String,
    pub data: ColumnData,
}

/// A table: `height` rows, stored column by column.
#[derive(Clone, Debug)]
pub struct Table {
    pub height: usize,
    pub columns: Vec<Column>,
}

/// Index of the first column at or after `i` named `name`.
pub open spec fn first_column_from(cols: Seq<Column>, name: Seq<char>, i: int) -> Option<int>
    decreases cols.len() - i,
{
    if 0 <= i < cols.len() {
        if cols[i].name@ == name {
            Some(i)
        } else {
            first_column_from(cols, name, i + 1)
        }
    } else {
        None
    }
}

pub proof fn lemma_first_column(cols: Seq<Column>, name: Seq<char>, a: int)
    requires
        0 <= a,
    ensures
        match first_column_from(cols, name, a) {
            Some(j) => a <= j < cols.len() && cols[j].name@ == name,
            None => forall|k: int| a <= k < cols.len() ==> cols[k].name@ != name,
        },
    decreases cols.len() - a,
{
    if a < cols.len() && cols[a].name@ != name {
        lemma_first_column(cols, name, a + 1);
    }
}

/// The content of a table: its height and its named columns.
pub ghost struct TableModel {
    pub height: int,
    pub columns: Seq<(Seq<char>, CellsModel)>,
}

impl View for Table {
    type V = TableModel;

    open spec fn view(&self) -> TableModel {
        TableModel {
            height: self.height as int,
            columns: self.columns@.map_values(|c: Column| (c.name@, c.data@)),
        }
    }
}

impl Table {
    /// Every column holds exactly `height` cells.
    pub open spec fn wf(&self) -> bool {
        forall|c: int| 0 <= c < self.columns@.len() ==> column_len(#[trigger] self.columns@[c].data) == self.height
    }

    /// The index of the first column named `name`.
    pub fn column_index(&self, name: &str) -> (r: Option<usize>)
        ensures
            match r {
                Some(i) => first_column_from(self.columns@, name@, 0) == Some(i as int),
                None => first_column_from(self.columns@, name@, 0) is None,
            },
    {
        let n = self.columns.len();
        let mut i: usize = 0;
        while i < n
            invariant
                n == self.columns@.len(),
                0 <= i <= n,
                first_column_from(self.columns@, name@, 0) == first_column_from(self.columns@, name@, i as int),
            decreases n - i,
        {
            if str_eq_string(name, &self.columns[i].name) {
                assert(first_column_from(self.columns@, name@, i as int) == Some(i as int));
                return Some(i);
            }
            i += 1;
        }
        None
    }
}


impl ColumnData {
    /// A copy of the cells.
    pub fn copy(&self) -> (r: ColumnData)
        ensures
            r@ == self@,
            column_len(r) == column_len(*self),
    {
        match self {
            ColumnData::Int(v) => {
                let mut out: Vec<Option<i64>> = Vec::new();
                for i in 0..v.len()
                    invariant
                        out@ == v@.take(i as int),
                {
                    out.push(v[i]);
                    assert(out@ =~= v@.take(i as int + 1));
                }
                assert(v@.take(v@.len() as int) =~= v@);
                ColumnData::Int(out)
            },
            ColumnData::Str(v) => {
                let mut out: Vec<Option<String>> = Vec::new();
                for i in 0..v.len()
                    invariant
                        out@.len() == i,
                        forall|j: int| 0 <= j < i ==> opt_string_view(#[trigger] out@[j]) == opt_string_view(v@[j]),
                {
                    out.push(clone_opt_string(&v[i]));
                }
                assert(opt_strings_view(out@) =~= opt_strings_view(v@));
                ColumnData::Str(out)
            },
        }
    }
}

impl Table {
    /// A copy of the table.
    pub fn copy(&self) -> (t: Table)
        ensures
            t@ == self@,
            t.wf() == self.wf(),
    {
        let mut cols: Vec<Column> = Vec::new();
        for i in 0..self.columns.len()
            invariant
                cols@.len() == i,
                forall|j: int| 0 <= j < i ==> (#[trigger] cols@[j]).name@ == self.columns@[j].name@,
                forall|j: int| 0 <= j < i ==> (#[trigger] cols@[j]).data@ == self.columns@[j].data@,
                forall|j: int| 0 <= j < i ==> column_len((#[trigger] cols@[j]).data) == column_len(self.columns@[j].data),
        {
            cols.push(Column { name: self.columns[i].name.clone(), data: self.columns[i].data.copy() });
        }
        let t = Table { height: self.height, columns: cols };
        assert(t@.columns =~= self@.columns);
        assert(t.wf() == self.wf()) by {
            if self.wf() {
                assert forall|c: int| 0 <= c < t.columns@.len() implies column_len(#[trigger] t.columns@[c].data) == t.height by {
                    assert(column_len(self.columns@[c].data) == self.height);
                }
            }
            if t.wf() {
                assert forall|c: int| 0 <= c < self.columns@.len() implies column_len(#[trigger] self.columns@[c].data) == self.height by {
                    assert(column_len(t.columns@[c].data) == t.height);
                }
            }
        }
        t
    }
}

} // verus!
