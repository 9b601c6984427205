//! Filter evaluation under three-valued logic: a candidate row is a sequence
//! of per-table row slices, a boolean is `CellInt(1)` or `CellInt(0)`, and a
//! missing operand makes the result undefined (`None`).

use vstd::prelude::*;

use crate::ast::{BinaryOp, IndexedFilter, SpecIndexedColumnSelector, SpecIndexedFilter, UnaryOp};
use crate::tables::{clone_cell_opt, SpecCell, TableCell};

verus! {

/// A cell counts as true exactly when it is a nonzero integer.
pub open spec fn is_truthy(c: SpecCell) -> bool {
    c matches SpecCell::Int(i) && i != 0
}

/// The boolean results of evaluation, encoded as integer cells.
pub open spec fn bool_cell(b: bool) -> Option<SpecCell> {
    Some(SpecCell::Int(if b {
        1int
    } else {
        0int
    }))
}

/// Logical NOT: inverts an integer cell; a string or missing operand is
/// undefined.
pub open spec fn spec_eval_uop(op: UnaryOp, v: Option<SpecCell>) -> Option<SpecCell> {
    match v {
        Some(SpecCell::Int(i)) => bool_cell(i == 0),
        _ => None,
    }
}

/// A binary operation on two present operands. `And`/`Or` treat strings as
/// falsy; `Eq` compares like-typed operands and is false across types; `Lt`
/// holds only between integers. `Like` is a documented limitation: the
/// grammar accepts it, but it carries no matching semantics and always
/// evaluates to false.
pub open spec fn spec_eval_bop_present(op: BinaryOp, l: SpecCell, r: SpecCell) -> Option<SpecCell> {
    match op {
        BinaryOp::And => bool_cell(is_truthy(l) && is_truthy(r)),
        BinaryOp::Or => bool_cell(is_truthy(l) || is_truthy(r)),
        BinaryOp::Lt => bool_cell(l matches SpecCell::Int(a) && r matches SpecCell::Int(b) && a
            < b),
        BinaryOp::Eq => bool_cell((l matches SpecCell::Int(a) && r matches SpecCell::Int(b) && a
            == b) || (l matches SpecCell::Str(a) && r matches SpecCell::Str(b) && a == b)),
        BinaryOp::Like => bool_cell(false),
    }
}

/// A binary operation: undefined as soon as either operand is missing.
pub open spec fn spec_eval_bop(op: BinaryOp, l: Option<SpecCell>, r: Option<SpecCell>) -> Option<
    SpecCell,
> {
    match (l, r) {
        (Some(cl), Some(cr)) => spec_eval_bop_present(op, cl, cr),
        _ => None,
    }
}

/// Evaluation of a bound filter against a candidate row (one row slice per
/// table).
pub open spec fn spec_eval(f: SpecIndexedFilter, row: Seq<Seq<Option<SpecCell>>>) -> Option<
    SpecCell,
>
    decreases f,
{
    match f {
        SpecIndexedFilter::Id(sel) => row[sel.table][sel.field],
        SpecIndexedFilter::LitS(s) => Some(SpecCell::Str(s)),
        SpecIndexedFilter::LitB(b) => bool_cell(b),
        SpecIndexedFilter::LitI(i) => Some(SpecCell::Int(i)),
        SpecIndexedFilter::UnaryOp(op, f1) => spec_eval_uop(op, spec_eval(*f1, row)),
        SpecIndexedFilter::BinaryOp(op, l, r) => spec_eval_bop(
            op,
            spec_eval(*l, row),
            spec_eval(*r, row),
        ),
    }
}

/// Row acceptance: a candidate row is kept exactly when the filter evaluates
/// to a nonzero integer cell.
pub open spec fn spec_accepts(f: SpecIndexedFilter, row: Seq<Seq<Option<SpecCell>>>) -> bool {
    spec_eval(f, row) matches Some(SpecCell::Int(i)) && i != 0
}

/// The widths of the slices of a candidate row.
pub open spec fn shape_of_row(row: Seq<Seq<Option<SpecCell>>>) -> Seq<int> {
    Seq::new(row.len(), |d: int| row[d].len() as int)
}

/// Every column reference of the filter addresses a slice and a position
/// that exist in the given shape.
pub open spec fn filter_in_bounds(f: SpecIndexedFilter, shape: Seq<int>) -> bool
    decreases f,
{
    match f {
        SpecIndexedFilter::Id(sel) => 0 <= sel.table < shape.len() && 0 <= sel.field
            < shape[sel.table],
        SpecIndexedFilter::LitS(_) => true,
        SpecIndexedFilter::LitB(_) => true,
        SpecIndexedFilter::LitI(_) => true,
        SpecIndexedFilter::UnaryOp(_, f1) => filter_in_bounds(*f1, shape),
        SpecIndexedFilter::BinaryOp(_, l, r) => filter_in_bounds(*l, shape) && filter_in_bounds(
            *r,
            shape,
        ),
    }
}

/// The number of nodes of a filter tree; the termination measure of the
/// mutually recursive evaluation functions.
pub open spec fn filter_node_count(f: IndexedFilter) -> nat
    decreases f,
{
    match f {
        IndexedFilter::UnaryOp(_, f1) => 1 + filter_node_count(*f1),
        IndexedFilter::BinaryOp(_, l, r) => 1 + filter_node_count(*l) + filter_node_count(*r),
        _ => 1,
    }
}

impl IndexedFilter {
    /// Evaluates `uop` applied to this filter's value on the row.
    fn compute_with_row_uop(&self, row: &Vec<Vec<Option<TableCell>>>, uop: UnaryOp) -> (r: Option<
        TableCell,
    >)
        requires
            filter_in_bounds(self@, shape_of_row(row.deep_view())),
        ensures
            r.deep_view() == spec_eval_uop(uop, spec_eval(self@, row.deep_view())),
        decreases filter_node_count(*self), 1nat,
    {
        match uop {
            UnaryOp::Not => {
                match self.compute_with_row(row) {
                    Some(tc) => match tc {
                        TableCell::CellInt(i) => Some(
                            TableCell::CellInt(
                                if i == 0 {
                                    1
                                } else {
                                    0
                                },
                            ),
                        ),
                        TableCell::CellString(_) => None,
                    },
                    None => None,
                }
            },
        }
    }

    /// Evaluates `bop` applied to the two operand filters on the row:
    /// undefined as soon as either operand is undefined, otherwise as
    /// `spec_eval_bop_present` defines the operator.
    pub fn compute_with_row_bop(
        &self,
        row: &Vec<Vec<Option<TableCell>>>,
        bop: BinaryOp,
        filterl: &IndexedFilter,
        filterr: &IndexedFilter,
    ) -> (r: Option<TableCell>)
        requires
            filter_in_bounds(filterl@, shape_of_row(row.deep_view())),
            filter_in_bounds(filterr@, shape_of_row(row.deep_view())),
        ensures
            r.deep_view() == spec_eval_bop(
                bop,
                spec_eval(filterl@, row.deep_view()),
                spec_eval(filterr@, row.deep_view()),
            ),
        decreases filter_node_count(*filterl) + filter_node_count(*filterr), 2nat,
    {
        let tcl = match filterl.compute_with_row(row) {
            Some(tc) => tc,
            None => {
                return None;
            },
        };
        let tcr = match filterr.compute_with_row(row) {
            Some(tc) => tc,
            None => {
                return None;
            },
        };
        match bop {
            BinaryOp::And => {
                let b = match (&tcl, &tcr) {
                    (TableCell::CellInt(l), TableCell::CellInt(r)) => *l != 0 && *r != 0,
                    _ => false,
                };
                Some(TableCell::CellInt(
                    if b {
                        1
                    } else {
                        0
                    },
                ))
            },
            BinaryOp::Or => {
                let bl = match &tcl {
                    TableCell::CellInt(l) => *l != 0,
                    _ => false,
                };
                let br = match &tcr {
                    TableCell::CellInt(r) => *r != 0,
                    _ => false,
                };
                Some(TableCell::CellInt(
                    if bl || br {
                        1
                    } else {
                        0
                    },
                ))
            },
            BinaryOp::Lt => {
                let b = match (&tcl, &tcr) {
                    (TableCell::CellInt(l), TableCell::CellInt(r)) => *l < *r,
                    _ => false,
                };
                Some(TableCell::CellInt(
                    if b {
                        1
                    } else {
                        0
                    },
                ))
            },
            BinaryOp::Eq => {
                let b = match (&tcl, &tcr) {
                    (TableCell::CellInt(l), TableCell::CellInt(r)) => *l == *r,
                    (TableCell::CellString(l), TableCell::CellString(r)) => *l == *r,
                    _ => false,
                };
                Some(TableCell::CellInt(
                    if b {
                        1
                    } else {
                        0
                    },
                ))
            },
            BinaryOp::Like => Some(TableCell::CellInt(0)),
        }
    }

    /// Evaluates this filter against a candidate row, yielding a typed cell
    /// or `None` for undefined.
    pub fn compute_with_row(&self, row: &Vec<Vec<Option<TableCell>>>) -> (r: Option<TableCell>)
        requires
            filter_in_bounds(self@, shape_of_row(row.deep_view())),
        ensures
            r.deep_view() == spec_eval(self@, row.deep_view()),
        decreases filter_node_count(*self), 0nat,
    {
        match self {
            IndexedFilter::Id(ind) => {
                proof {
                    assert(row.deep_view()[ind.table as int].len() == row@[
                        ind.table as int
                    ]@.len());
                }
                let cell = clone_cell_opt(&row[ind.table][ind.field]);
                proof {
                    assert(row.deep_view()[ind.table as int][ind.field as int] == row@[
                        ind.table as int
                    ]@[ind.field as int].deep_view());
                }
                cell
            },
            IndexedFilter::LitB(b) => Some(TableCell::CellInt(
                if *b {
                    1
                } else {
                    0
                },
            )),
            IndexedFilter::LitI(i) => Some(TableCell::CellInt(*i)),
            IndexedFilter::LitS(s) => Some(TableCell::CellString(s.clone())),
            IndexedFilter::UnaryOp(uop, filter) => filter.compute_with_row_uop(row, *uop),
            IndexedFilter::BinaryOp(bop, filterl, filterr) => self.compute_with_row_bop(
                row,
                *bop,
                filterl,
                filterr,
            ),
        }
    }

    /// Whether this filter keeps the candidate row: evaluation must yield a
    /// nonzero integer cell.
    pub fn valid_row(&self, row: &Vec<Vec<Option<TableCell>>>) -> (r: bool)
        requires
            filter_in_bounds(self@, shape_of_row(row.deep_view())),
        ensures
            r == spec_accepts(self@, row.deep_view()),
    {
        let tc_opt = self.compute_with_row(row);
        match tc_opt {
            Some(TableCell::CellInt(i)) => i != 0,
            _ => false,
        }
    }
}

/// Three-valued semantics: every binary operator is undefined as soon as
/// either operand is undefined, and logical NOT is undefined on an undefined
/// operand.
pub proof fn lemma_undefined_operand_propagates(
    bop: BinaryOp,
    uop: UnaryOp,
    l: Option<SpecCell>,
    r: Option<SpecCell>,
)
    requires
        l is None || r is None,
    ensures
        spec_eval_bop(bop, l, r) is None,
        spec_eval_uop(uop, None) is None,
{
}

/// A filter that references a column whose cell is missing: any `AND`, `OR`,
/// `EQ` or `LT` (indeed any binary operation) with that reference as either
/// operand evaluates to undefined, whatever the other operand yields, and
/// the row is therefore excluded.
pub proof fn lemma_missing_cell_excludes(
    bop: BinaryOp,
    sel: SpecIndexedColumnSelector,
    other: SpecIndexedFilter,
    row: Seq<Seq<Option<SpecCell>>>,
)
    requires
        0 <= sel.table < row.len(),
        0 <= sel.field < row[sel.table].len(),
        row[sel.table][sel.field] is None,
    ensures
        spec_eval(
            SpecIndexedFilter::BinaryOp(
                bop,
                Box::new(SpecIndexedFilter::Id(sel)),
                Box::new(other),
            ),
            row,
        ) is None,
        spec_eval(
            SpecIndexedFilter::BinaryOp(
                bop,
                Box::new(other),
                Box::new(SpecIndexedFilter::Id(sel)),
            ),
            row,
        ) is None,
        !spec_accepts(
            SpecIndexedFilter::BinaryOp(
                bop,
                Box::new(SpecIndexedFilter::Id(sel)),
                Box::new(other),
            ),
            row,
        ),
        !spec_accepts(
            SpecIndexedFilter::BinaryOp(
                bop,
                Box::new(other),
                Box::new(SpecIndexedFilter::Id(sel)),
            ),
            row,
        ),
{
    assert(spec_eval(SpecIndexedFilter::Id(sel), row) is None);
}

/// An undefined evaluation never keeps a row.
pub proof fn lemma_undefined_excludes(f: SpecIndexedFilter, row: Seq<Seq<Option<SpecCell>>>)
    requires
        spec_eval(f, row) is None,
    ensures
        !spec_accepts(f, row),
{
}

} // verus!
