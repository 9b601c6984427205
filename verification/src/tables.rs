//! The table data model: typed cells and in-memory tables. A row carries one
//! optional cell per header column; `None` marks a missing value.

use vstd::prelude::*;

verus! {

/// A typed scalar value held by a table cell.
#[derive(Debug, PartialEq, Eq)]
pub enum TableCell {
    CellInt(i64),
    CellString(String),
}

/// An in-memory table: a header of column names and the data rows.
#[derive(Debug, PartialEq, Eq)]
pub struct TableData {
    pub header: Vec<String>,
    pub rows: Vec<Vec<Option<TableCell>>>,
}

/// Model of a `TableCell`.
pub enum SpecCell {
    Int(int),
    Str(Seq<char>),
}

/// Model of a `TableData`.
pub struct SpecTableData {
    pub header: Seq<Seq<char>>,
    pub rows: Seq<Seq<Option<SpecCell>>>,
}

impl View for TableCell {
    type V = SpecCell;

    open spec fn view(&self) -> SpecCell {
        match self {
            TableCell::CellInt(i) => SpecCell::Int(*i as int),
            TableCell::CellString(s) => SpecCell::Str(s@),
        }
    }
}

impl DeepView for TableCell {
    type V = SpecCell;

    open spec fn deep_view(&self) -> SpecCell {
        self.view()
    }
}

impl View for TableData {
    type V = SpecTableData;

    open spec fn view(&self) -> SpecTableData {
        SpecTableData { header: self.header.deep_view(), rows: self.rows.deep_view() }
    }
}

impl DeepView for TableData {
    type V = SpecTableData;

    open spec fn deep_view(&self) -> SpecTableData {
        self.view()
    }
}

impl SpecTableData {
    /// A table is rectangular: every row has one slot per header column.
    pub open spec fn wf(self) -> bool {
        forall|r: int| 0 <= r < self.rows.len() ==> #[trigger] self.rows[r].len()
            == self.header.len()
    }
}

impl Clone for TableCell {
    fn clone(&self) -> (r: Self)
        ensures
            r@ == self@,
    {
        match self {
            TableCell::CellInt(i) => TableCell::CellInt(*i),
            TableCell::CellString(s) => TableCell::CellString(s.clone()),
        }
    }
}

/// Copies an optional cell, keeping its model.
pub fn clone_cell_opt(c: &Option<TableCell>) -> (r: Option<TableCell>)
    ensures
        r.deep_view() == c.deep_view(),
{
    match c {
        Some(cell) => Some(cell.clone()),
        None => None,
    }
}

/// Copies a row of optional cells, keeping its model.
pub fn clone_row(row: &Vec<Option<TableCell>>) -> (r: Vec<Option<TableCell>>)
    ensures
        r.deep_view() == row.deep_view(),
{
    let mut out: Vec<Option<TableCell>> = Vec::new();
    let n = row.len();
    let mut i: usize = 0;
    while i < n
        invariant
            i <= n,
            n == row@.len(),
            out@.len() == i,
            forall|j: int| 0 <= j < i ==> out.deep_view()[j] == row.deep_view()[j],
        decreases n - i,
    {
        let c = clone_cell_opt(&row[i]);
        let ghost pre = out.deep_view();
        out.push(c);
        proof {
            assert forall|j: int| 0 <= j <= i as int implies out.deep_view()[j]
                == row.deep_view()[j] by {
                assert(out.deep_view()[j] == out@[j].deep_view());
                if j < i as int {
                    assert(out@[j].deep_view() == pre[j]);
                }
            }
        }
        i += 1;
    }
    proof {
        assert(out.deep_view() =~= row.deep_view());
    }
    out
}

/// Copies a header of column names, keeping its model.
pub fn clone_header(header: &Vec<String>) -> (r: Vec<String>)
    ensures
        r.deep_view() == header.deep_view(),
{
    let mut out: Vec<String> = Vec::new();
    let n = header.len();
    let mut i: usize = 0;
    while i < n
        invariant
            i <= n,
            n == header@.len(),
            out@.len() == i,
            forall|j: int| 0 <= j < i ==> out.deep_view()[j] == header.deep_view()[j],
        decreases n - i,
    {
        let s = header[i].clone();
        let ghost pre = out.deep_view();
        out.push(s);
        proof {
            assert forall|j: int| 0 <= j <= i as int implies out.deep_view()[j]
                == header.deep_view()[j] by {
                assert(out.deep_view()[j] == out@[j].deep_view());
                if j < i as int {
                    assert(out@[j].deep_view() == pre[j]);
                }
            }
        }
        i += 1;
    }
    proof {
        assert(out.deep_view() =~= header.deep_view());
    }
    out
}

impl Clone for TableData {
    fn clone(&self) -> (r: Self)
        ensures
            r@ == self@,
    {
        let header = clone_header(&self.header);
        let mut rows: Vec<Vec<Option<TableCell>>> = Vec::new();
        let n = self.rows.len();
        let mut i: usize = 0;
        while i < n
            invariant
                i <= n,
                n == self.rows@.len(),
                rows@.len() == i,
                forall|j: int| 0 <= j < i ==> rows.deep_view()[j] == self.rows.deep_view()[j],
            decreases n - i,
        {
            let row = clone_row(&self.rows[i]);
            let ghost pre = rows.deep_view();
            rows.push(row);
            proof {
                assert forall|j: int| 0 <= j <= i as int implies rows.deep_view()[j]
                    == self.rows.deep_view()[j] by {
                    assert(rows.deep_view()[j] == rows@[j].deep_view());
                    if j < i as int {
                        assert(rows@[j].deep_view() == pre[j]);
                    }
                }
            }
            i += 1;
        }
        proof {
            assert(rows.deep_view() =~= self.rows.deep_view());
        }
        TableData { header, rows }
    }
}

} // verus!
