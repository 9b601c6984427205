//! The join/execution engine: enumerates the cross product of all input
//! tables with the combination generator, keeps the candidate rows the
//! filter accepts, and projects them through the selection.

use vstd::prelude::*;

use crate::ast::{
    IndexedQuery, IndexedSelection, Query, SpecIndexedQuery, SpecIndexedSelection,
};
use crate::bind::{
    first_match, lemma_first_match, lemma_first_table_with, query_result_view, spec_bind_columns,
    spec_bind_filter, spec_bind_query, spec_bind_selector, BindError,
};
use crate::eval::{filter_in_bounds, shape_of_row, spec_accepts};
use crate::index_comb::{
    given_bounds, lemma_tuple_at_valid, total_count, tuple_at, valid_digits,
};
use crate::tables::{clone_header, clone_row, SpecCell, SpecTableData, TableCell, TableData};

verus! {

/// The headers of the tables, in table order.
pub open spec fn headers_of(tables: Seq<SpecTableData>) -> Seq<Seq<Seq<char>>> {
    Seq::new(tables.len(), |d: int| tables[d].header)
}

/// The widths of the tables' headers.
pub open spec fn header_shape(tables: Seq<SpecTableData>) -> Seq<int> {
    Seq::new(tables.len(), |d: int| tables[d].header.len() as int)
}

/// The widths of a list of headers.
pub open spec fn headers_shape(headers: Seq<Seq<Seq<char>>>) -> Seq<int> {
    Seq::new(headers.len(), |d: int| headers[d].len() as int)
}

/// The per-dimension bounds of the cross product: each table's row count.
pub open spec fn bounds_of(tables: Seq<SpecTableData>) -> Seq<usize> {
    Seq::new(tables.len(), |d: int| tables[d].rows.len() as usize)
}

/// Every table is rectangular.
pub open spec fn tables_wf(tables: Seq<SpecTableData>) -> bool {
    &&& forall|d: int| 0 <= d < tables.len() ==> (#[trigger] tables[d]).wf()
    &&& forall|d: int| 0 <= d < tables.len() ==> (#[trigger] tables[d]).rows.len() <= usize::MAX
}

/// The candidate row for one tuple of row indices: per table in order, that
/// table's row at the tuple's index for that dimension.
pub open spec fn candidate_at(tables: Seq<SpecTableData>, t: Seq<usize>) -> Seq<
    Seq<Option<SpecCell>>,
> {
    Seq::new(tables.len(), |d: int| tables[d].rows[t[d] as int])
}

/// Whether a row has the shape of a candidate: one slice per table, each as
/// wide as its table's header.
pub open spec fn candidate_shaped(row: Seq<Seq<Option<SpecCell>>>, tables: Seq<SpecTableData>) -> bool {
    &&& row.len() == tables.len()
    &&& forall|d: int| 0 <= d < row.len() ==> #[trigger] row[d].len() == tables[d].header.len()
}

/// Every listed column addresses an existing slice and position of the
/// given shape.
pub open spec fn cols_in_bounds(
    cols: Seq<crate::ast::SpecIndexedColumnSelector>,
    shape: Seq<int>,
) -> bool {
    forall|i: int|
        0 <= i < cols.len() ==> 0 <= (#[trigger] cols[i]).table < shape.len() && 0 <= cols[i].field
            < shape[cols[i].table]
}

/// Every column reference of a selection addresses an existing slice and
/// position of the given shape.
pub open spec fn sel_in_bounds(sel: SpecIndexedSelection, shape: Seq<int>) -> bool {
    match sel {
        SpecIndexedSelection::Star => true,
        SpecIndexedSelection::Columns(cols) => cols_in_bounds(cols, shape),
    }
}

/// A listed column of an in-bounds selection addresses an existing slice
/// and position.
pub proof fn lemma_sel_col_in_bounds(
    cols: Seq<crate::ast::SpecIndexedColumnSelector>,
    shape: Seq<int>,
    i: int,
)
    requires
        sel_in_bounds(SpecIndexedSelection::Columns(cols), shape),
        0 <= i < cols.len(),
    ensures
        0 <= cols[i].table < shape.len(),
        0 <= cols[i].field < shape[cols[i].table],
{
    assert(cols_in_bounds(cols, shape));
}

/// Projection of a candidate row: `Star` flattens all slices in table
/// order; a column list picks exactly the listed cells, in listed order.
pub open spec fn spec_project(sel: SpecIndexedSelection, row: Seq<Seq<Option<SpecCell>>>) -> Seq<
    Option<SpecCell>,
> {
    match sel {
        SpecIndexedSelection::Star => row.flatten(),
        SpecIndexedSelection::Columns(cols) => Seq::new(
            cols.len(),
            |i: int| row[cols[i].table][cols[i].field],
        ),
    }
}

/// The result header: the same projection applied once to the table
/// headers.
pub open spec fn spec_new_header(sel: SpecIndexedSelection, headers: Seq<Seq<Seq<char>>>) -> Seq<
    Seq<char>,
> {
    match sel {
        SpecIndexedSelection::Star => headers.flatten(),
        SpecIndexedSelection::Columns(cols) => Seq::new(
            cols.len(),
            |i: int| headers[cols[i].table][cols[i].field],
        ),
    }
}

/// The result rows produced by the first `n` candidate tuples, where
/// `kept[k]` says whether candidate `k` was accepted.
pub open spec fn rows_upto(
    tables: Seq<SpecTableData>,
    kept: Seq<bool>,
    sel: SpecIndexedSelection,
    n: nat,
) -> Seq<Seq<Option<SpecCell>>>
    decreases n,
{
    if n == 0 {
        Seq::empty()
    } else {
        let prev = rows_upto(tables, kept, sel, (n - 1) as nat);
        if kept[n - 1] {
            prev.push(
                spec_project(sel, candidate_at(tables, tuple_at(bounds_of(tables), (n - 1) as nat))),
            )
        } else {
            prev
        }
    }
}

/// Which candidates the bound filter accepts, in enumeration order.
pub open spec fn accepts_flags(tables: Seq<SpecTableData>, filt: crate::ast::SpecIndexedFilter) -> Seq<
    bool,
> {
    Seq::new(
        total_count(bounds_of(tables)),
        |k: int| spec_accepts(filt, candidate_at(tables, tuple_at(bounds_of(tables), k as nat))),
    )
}

/// The meaning of executing a bound query: the projected header, and the
/// projections of the accepted candidates in enumeration order (dimension 0
/// fastest).
pub open spec fn spec_run(q: SpecIndexedQuery, tables: Seq<SpecTableData>) -> SpecTableData {
    SpecTableData {
        header: spec_new_header(q.selection, headers_of(tables)),
        rows: rows_upto(
            tables,
            accepts_flags(tables, q.filter),
            q.selection,
            total_count(bounds_of(tables)),
        ),
    }
}

/// `rows_upto` reads only the first `n` flags.
pub proof fn lemma_rows_upto_stable(
    tables: Seq<SpecTableData>,
    kept1: Seq<bool>,
    kept2: Seq<bool>,
    sel: SpecIndexedSelection,
    n: nat,
)
    requires
        n <= kept1.len(),
        n <= kept2.len(),
        forall|j: int| 0 <= j < n ==> kept1[j] == kept2[j],
    ensures
        rows_upto(tables, kept1, sel, n) == rows_upto(tables, kept2, sel, n),
    decreases n,
{
    if n > 0 {
        lemma_rows_upto_stable(tables, kept1, kept2, sel, (n - 1) as nat);
    }
}

/// At most one result row per candidate.
pub proof fn lemma_rows_upto_len(
    tables: Seq<SpecTableData>,
    kept: Seq<bool>,
    sel: SpecIndexedSelection,
    n: nat,
)
    ensures
        rows_upto(tables, kept, sel, n).len() <= n,
    decreases n,
{
    if n > 0 {
        lemma_rows_upto_len(tables, kept, sel, (n - 1) as nat);
    }
}

/// When every candidate is kept, there is exactly one result row per
/// candidate, in enumeration order.
pub proof fn lemma_rows_upto_all_kept(
    tables: Seq<SpecTableData>,
    kept: Seq<bool>,
    sel: SpecIndexedSelection,
    n: nat,
)
    requires
        forall|j: int| 0 <= j < n ==> kept[j],
    ensures
        rows_upto(tables, kept, sel, n).len() == n,
        forall|k: int|
            0 <= k < n ==> rows_upto(tables, kept, sel, n)[k] == spec_project(
                sel,
                candidate_at(tables, tuple_at(bounds_of(tables), k as nat)),
            ),
    decreases n,
{
    if n > 0 {
        lemma_rows_upto_all_kept(tables, kept, sel, (n - 1) as nat);
    }
}

/// The sum of the lengths of the inner sequences.
pub open spec fn sum_of_lens<A>(s: Seq<Seq<A>>) -> nat
    decreases s.len(),
{
    if s.len() == 0 {
        0
    } else {
        s[0].len() + sum_of_lens(s.drop_first())
    }
}

/// Flattening yields exactly the sum of the inner lengths.
pub proof fn lemma_flatten_len<A>(s: Seq<Seq<A>>)
    ensures
        s.flatten().len() == sum_of_lens(s),
    decreases s.len(),
{
    if s.len() == 0 {
    } else {
        lemma_flatten_len(s.drop_first());
    }
}

/// Join cardinality: executing a query whose filter accepts every candidate
/// row yields exactly the product of the tables' row counts, and result row
/// `k` is the projection of the `k`-th candidate — under `Star`, the
/// concatenation of one row from each table, in enumeration order.
pub proof fn lemma_join_cardinality(q: SpecIndexedQuery, tables: Seq<SpecTableData>)
    requires
        forall|row: Seq<Seq<Option<SpecCell>>>| spec_accepts(q.filter, row),
    ensures
        spec_run(q, tables).rows.len() == total_count(bounds_of(tables)),
        forall|k: int|
            0 <= k < total_count(bounds_of(tables)) ==> spec_run(q, tables).rows[k]
                == spec_project(
                q.selection,
                candidate_at(tables, tuple_at(bounds_of(tables), k as nat)),
            ),
{
    lemma_rows_upto_all_kept(
        tables,
        accepts_flags(tables, q.filter),
        q.selection,
        total_count(bounds_of(tables)),
    );
}

/// Projection correctness: a column-list projection always yields one cell
/// per listed column, in listed order, wherever the columns physically sit;
/// a `Star` projection has the combined width of all slices.
pub proof fn lemma_projection_shape(
    cols: Seq<crate::ast::SpecIndexedColumnSelector>,
    row: Seq<Seq<Option<SpecCell>>>,
)
    ensures
        spec_project(SpecIndexedSelection::Columns(cols), row).len() == cols.len(),
        forall|i: int|
            0 <= i < cols.len() ==> spec_project(SpecIndexedSelection::Columns(cols), row)[i]
                == row[(#[trigger] cols[i]).table][cols[i].field],
        spec_project(SpecIndexedSelection::Star, row).len() == sum_of_lens(row),
{
    lemma_flatten_len(row);
}

impl IndexedSelection {
    /// Projects one candidate row through this selection.
    #[verifier::loop_isolation(false)]
    pub fn to_row(&self, row_vec: &Vec<Vec<Option<TableCell>>>) -> (r: Vec<Option<TableCell>>)
        requires
            sel_in_bounds(self@, shape_of_row(row_vec.deep_view())),
        ensures
            r.deep_view() == spec_project(self@, row_vec.deep_view()),
    {
        broadcast use vstd::seq_lib::group_seq_lib_default;

        match self {
            IndexedSelection::Star => {
                let mut new_row: Vec<Option<TableCell>> = Vec::new();
                let n = row_vec.len();
                let mut d: usize = 0;
                proof {
                    assert(row_vec.deep_view().take(0) =~= Seq::<Seq<Option<SpecCell>>>::empty());
                    assert(Seq::<Seq<Option<SpecCell>>>::empty().flatten() =~= Seq::<
                        Option<SpecCell>,
                    >::empty());
                }
                while d < n
                    invariant
                        d <= n,
                        new_row.deep_view() == row_vec.deep_view().take(d as int).flatten(),
                    decreases n - d,
                {
                    let inner = &row_vec[d];
                    let m = inner.len();
                    let mut j: usize = 0;
                    let ghost flat_pre = new_row.deep_view();
                    while j < m
                        invariant
                            j <= m,
                            new_row@.len() == flat_pre.len() + j,
                            new_row.deep_view() == flat_pre.add(
                                row_vec.deep_view()[d as int].take(j as int),
                            ),
                        decreases m - j,
                    {
                        let c = crate::tables::clone_cell_opt(&inner[j]);
                        let ghost pre_vec = new_row@;
                        let ghost dv_pre = new_row.deep_view();
                        new_row.push(c);
                        proof {
                            let target = flat_pre.add(
                                row_vec.deep_view()[d as int].take(j as int + 1),
                            );
                            assert(row_vec.deep_view()[d as int][j as int] == row_vec@[
                                d as int
                            ]@[j as int].deep_view());
                            assert forall|k: int| 0 <= k < new_row@.len() implies
                                new_row.deep_view()[k] == target[k] by {
                                assert(new_row.deep_view()[k] == new_row@[k].deep_view());
                                if k < pre_vec.len() {
                                    assert(new_row@[k] == pre_vec[k]);
                                    assert(pre_vec[k].deep_view() == dv_pre[k]);
                                }
                            }
                            assert(new_row.deep_view() =~= target);
                        }
                        j += 1;
                    }
                    proof {
                        assert(row_vec.deep_view()[d as int].take(m as int) =~= row_vec.deep_view()[
                            d as int
                        ]);
                        assert(row_vec.deep_view().take(d as int + 1) =~= row_vec.deep_view().take(
                            d as int,
                        ).push(row_vec.deep_view()[d as int]));
                        row_vec.deep_view().take(d as int).lemma_flatten_push(
                            row_vec.deep_view()[d as int],
                        );
                        assert(row_vec.deep_view().take(d as int + 1).flatten() =~= row_vec.deep_view().take(
                            d as int,
                        ).flatten() + row_vec.deep_view()[d as int]);
                    }
                    d += 1;
                }
                proof {
                    assert(row_vec.deep_view().take(n as int) =~= row_vec.deep_view());
                }
                new_row
            },
            IndexedSelection::Columns(cols) => {
                let mut new_row: Vec<Option<TableCell>> = Vec::new();
                let n = cols.len();
                let mut i: usize = 0;
                while i < n
                    invariant
                        i <= n,
                        new_row@.len() == i,
                        forall|j: int|
                            0 <= j < i ==> new_row.deep_view()[j] == spec_project(
                                self@,
                                row_vec.deep_view(),
                            )[j],
                    decreases n - i,
                {
                    let col_sel = &cols[i];
                    proof {
                        assert(cols.deep_view()[i as int] == cols@[i as int]@);
                        assert(self@ == SpecIndexedSelection::Columns(cols.deep_view()));
                        lemma_sel_col_in_bounds(
                            cols.deep_view(),
                            shape_of_row(row_vec.deep_view()),
                            i as int,
                        );
                        assert(col_sel.table as int == cols.deep_view()[i as int].table);
                        assert(shape_of_row(row_vec.deep_view()).len() == row_vec@.len());
                        assert(row_vec.deep_view()[col_sel.table as int].len() == row_vec@[
                            col_sel.table as int
                        ]@.len());
                    }
                    let c = crate::tables::clone_cell_opt(
                        &row_vec[col_sel.table][col_sel.field],
                    );
                    let ghost pre = new_row.deep_view();
                    new_row.push(c);
                    proof {
                        assert(new_row.deep_view()[i as int] == new_row@[i as int].deep_view());
                        assert(row_vec.deep_view()[col_sel.table as int][col_sel.field as int]
                            == row_vec@[col_sel.table as int]@[col_sel.field as int].deep_view());
                        assert(new_row.deep_view()[i as int] == spec_project(
                            self@,
                            row_vec.deep_view(),
                        )[i as int]);
                        assert forall|j: int| 0 <= j <= i as int implies new_row.deep_view()[j]
                            == spec_project(self@, row_vec.deep_view())[j] by {
                            assert(new_row.deep_view()[j] == new_row@[j].deep_view());
                            if j < i as int {
                                assert(new_row@[j].deep_view() == pre[j]);
                            }
                        }
                    }
                    i += 1;
                }
                proof {
                    assert(new_row.deep_view() =~= spec_project(self@, row_vec.deep_view()));
                }
                new_row
            },
        }
    }

    /// Projects the table headers once, yielding the result header.
    #[verifier::loop_isolation(false)]
    pub fn new_header(&self, old_header: Vec<Vec<String>>) -> (r: Vec<String>)
        requires
            sel_in_bounds(self@, headers_shape(old_header.deep_view())),
        ensures
            r.deep_view() == spec_new_header(self@, old_header.deep_view()),
    {
        broadcast use vstd::seq_lib::group_seq_lib_default;

        match self {
            IndexedSelection::Star => {
                let mut out: Vec<String> = Vec::new();
                let n = old_header.len();
                let mut d: usize = 0;
                proof {
                    assert(old_header.deep_view().take(0) =~= Seq::<Seq<Seq<char>>>::empty());
                    assert(Seq::<Seq<Seq<char>>>::empty().flatten() =~= Seq::<Seq<char>>::empty());
                }
                while d < n
                    invariant
                        d <= n,
                        out.deep_view() == old_header.deep_view().take(d as int).flatten(),
                    decreases n - d,
                {
                    let inner = &old_header[d];
                    let m = inner.len();
                    let mut j: usize = 0;
                    let ghost flat_pre = out.deep_view();
                    while j < m
                        invariant
                            j <= m,
                            out@.len() == flat_pre.len() + j,
                            out.deep_view() == flat_pre.add(
                                old_header.deep_view()[d as int].take(j as int),
                            ),
                        decreases m - j,
                    {
                        let s = inner[j].clone();
                        let ghost pre_vec = out@;
                        let ghost dv_pre = out.deep_view();
                        out.push(s);
                        proof {
                            let target = flat_pre.add(
                                old_header.deep_view()[d as int].take(j as int + 1),
                            );
                            assert(old_header.deep_view()[d as int][j as int] == old_header@[
                                d as int
                            ]@[j as int]@);
                            assert forall|k: int| 0 <= k < out@.len() implies out.deep_view()[k]
                                == target[k] by {
                                assert(out.deep_view()[k] == out@[k].deep_view());
                                if k < pre_vec.len() {
                                    assert(out@[k] == pre_vec[k]);
                                    assert(pre_vec[k].deep_view() == dv_pre[k]);
                                }
                            }
                            assert(out.deep_view() =~= target);
                        }
                        j += 1;
                    }
                    proof {
                        assert(old_header.deep_view()[d as int].take(m as int)
                            =~= old_header.deep_view()[d as int]);
                        assert(old_header.deep_view().take(d as int + 1) =~= old_header.deep_view().take(
                            d as int,
                        ).push(old_header.deep_view()[d as int]));
                        old_header.deep_view().take(d as int).lemma_flatten_push(
                            old_header.deep_view()[d as int],
                        );
                        assert(old_header.deep_view().take(d as int + 1).flatten()
                            =~= old_header.deep_view().take(d as int).flatten()
                            + old_header.deep_view()[d as int]);
                    }
                    d += 1;
                }
                proof {
                    assert(old_header.deep_view().take(n as int) =~= old_header.deep_view());
                }
                out
            },
            IndexedSelection::Columns(cols) => {
                let mut out: Vec<String> = Vec::new();
                let n = cols.len();
                let mut i: usize = 0;
                while i < n
                    invariant
                        i <= n,
                        out@.len() == i,
                        forall|j: int|
                            0 <= j < i ==> out.deep_view()[j] == spec_new_header(
                                self@,
                                old_header.deep_view(),
                            )[j],
                    decreases n - i,
                {
                    let col_sel = &cols[i];
                    proof {
                        assert(cols.deep_view()[i as int] == cols@[i as int]@);
                        assert(self@ == SpecIndexedSelection::Columns(cols.deep_view()));
                        lemma_sel_col_in_bounds(
                            cols.deep_view(),
                            headers_shape(old_header.deep_view()),
                            i as int,
                        );
                        assert(headers_shape(old_header.deep_view()).len() == old_header@.len());
                        assert(old_header.deep_view()[col_sel.table as int].len() == old_header@[
                            col_sel.table as int
                        ]@.len());
                    }
                    let s = old_header[col_sel.table][col_sel.field].clone();
                    let ghost pre = out.deep_view();
                    out.push(s);
                    proof {
                        assert(out.deep_view()[i as int] == out@[i as int].deep_view());
                        assert(old_header.deep_view()[col_sel.table as int][col_sel.field as int]
                            == old_header@[col_sel.table as int]@[col_sel.field as int]@);
                        assert(out.deep_view()[i as int] == spec_new_header(
                            self@,
                            old_header.deep_view(),
                        )[i as int]);
                        assert forall|j: int| 0 <= j <= i as int implies out.deep_view()[j]
                            == spec_new_header(self@, old_header.deep_view())[j] by {
                            assert(out.deep_view()[j] == out@[j].deep_view());
                            if j < i as int {
                                assert(out@[j].deep_view() == pre[j]);
                            }
                        }
                    }
                    i += 1;
                }
                proof {
                    assert(out.deep_view() =~= spec_new_header(self@, old_header.deep_view()));
                }
                out
            },
        }
    }
}

/// A selector the binder resolved points at an existing table and column.
pub proof fn lemma_bind_selector_in_bounds(
    sel: crate::ast::SpecColumnSelector,
    tables: Seq<SpecTableData>,
    names: Seq<Seq<char>>,
)
    requires
        tables.len() == names.len(),
        spec_bind_selector(sel, tables, names) is Ok,
    ensures
        0 <= spec_bind_selector(sel, tables, names)->Ok_0.table < tables.len(),
        0 <= spec_bind_selector(sel, tables, names)->Ok_0.field < tables[spec_bind_selector(
            sel,
            tables,
            names,
        )->Ok_0.table].header.len(),
{
    match sel.table {
        Some(t) => {
            lemma_first_match(names, t);
            let i = first_match(names, t)->Some_0;
            lemma_first_match(tables[i].header, sel.field);
        },
        None => {
            lemma_first_table_with(tables, sel.field);
            let i = crate::bind::first_table_with(tables, sel.field)->Some_0;
            lemma_first_match(tables[i].header, sel.field);
        },
    }
}

/// A filter the binder resolved is in bounds of the tables' headers.
pub proof fn lemma_bind_filter_in_bounds(
    f: crate::ast::SpecFilter,
    tables: Seq<SpecTableData>,
    names: Seq<Seq<char>>,
)
    requires
        tables.len() == names.len(),
        spec_bind_filter(f, tables, names) is Ok,
    ensures
        filter_in_bounds(spec_bind_filter(f, tables, names)->Ok_0, header_shape(tables)),
    decreases f,
{
    match f {
        crate::ast::SpecFilter::Id(cs) => {
            lemma_bind_selector_in_bounds(cs, tables, names);
        },
        crate::ast::SpecFilter::UnaryOp(_, f1) => {
            lemma_bind_filter_in_bounds(*f1, tables, names);
        },
        crate::ast::SpecFilter::BinaryOp(_, l, r) => {
            lemma_bind_filter_in_bounds(*l, tables, names);
            lemma_bind_filter_in_bounds(*r, tables, names);
        },
        _ => {},
    }
}

/// A column list the binder resolved is in bounds of the tables' headers.
pub proof fn lemma_bind_columns_in_bounds(
    cols: Seq<crate::ast::SpecColumnSelector>,
    tables: Seq<SpecTableData>,
    names: Seq<Seq<char>>,
)
    requires
        tables.len() == names.len(),
        spec_bind_columns(cols, tables, names) is Ok,
    ensures
        cols_in_bounds(spec_bind_columns(cols, tables, names)->Ok_0, header_shape(tables)),
    decreases cols.len(),
{
    let xs = spec_bind_columns(cols, tables, names)->Ok_0;
    if cols.len() == 0 {
    } else {
        lemma_bind_selector_in_bounds(cols[0], tables, names);
        lemma_bind_columns_in_bounds(cols.drop_first(), tables, names);
        let rest = spec_bind_columns(cols.drop_first(), tables, names)->Ok_0;
        assert forall|i: int| 0 <= i < xs.len() implies 0 <= (#[trigger] xs[i]).table
            < header_shape(tables).len() && 0 <= xs[i].field < header_shape(tables)[xs[i].table] by {
            if i > 0 {
                assert(xs[i] == rest[i - 1]);
            }
        }
    }
}

/// A query the binder resolved is in bounds of the tables' headers.
pub proof fn lemma_bind_query_in_bounds(
    q: crate::ast::SpecQuery,
    tables: Seq<SpecTableData>,
    names: Seq<Seq<char>>,
)
    requires
        tables.len() == names.len(),
        spec_bind_query(q, tables, names) is Ok,
    ensures
        filter_in_bounds(spec_bind_query(q, tables, names)->Ok_0.filter, header_shape(tables)),
        sel_in_bounds(spec_bind_query(q, tables, names)->Ok_0.selection, header_shape(tables)),
{
    lemma_bind_filter_in_bounds(q.filter, tables, names);
    match q.selection {
        crate::ast::SpecSelection::Star => {},
        crate::ast::SpecSelection::Columns(cols) => {
            lemma_bind_columns_in_bounds(cols, tables, names);
        },
    }
}

impl TableData {
    /// Enumerates the cross product of the tables' rows with the combination
    /// generator, keeps the candidate rows the predicate accepts, and
    /// projects them through the selection. The result header is the
    /// projection of the table headers; result rows appear in enumeration
    /// order (dimension 0 fastest), one per accepted candidate.
    #[verifier::loop_isolation(false)]
    pub fn join_table<F: Fn(&Vec<Vec<Option<TableCell>>>) -> bool>(
        valid_row: &F,
        tables: &Vec<TableData>,
        sel: &IndexedSelection,
    ) -> (res: TableData)
        requires
            tables_wf(tables.deep_view()),
            sel_in_bounds(sel@, header_shape(tables.deep_view())),
            forall|r: Vec<Vec<Option<TableCell>>>|
                candidate_shaped(r.deep_view(), tables.deep_view()) ==> call_requires(
                    *valid_row,
                    (&r,),
                ),
        ensures
            res@.header == spec_new_header(sel@, headers_of(tables.deep_view())),
            exists|kept: Seq<bool>, wits: Seq<Vec<Vec<Option<TableCell>>>>|
                {
                    &&& kept.len() == total_count(bounds_of(tables.deep_view()))
                    &&& wits.len() == kept.len()
                    &&& (forall|k: int|
                        0 <= k < kept.len() ==> (#[trigger] wits[k]).deep_view() == candidate_at(
                            tables.deep_view(),
                            tuple_at(bounds_of(tables.deep_view()), k as nat),
                        ) && call_ensures(*valid_row, (&wits[k],), kept[k]))
                    &&& res@.rows == rows_upto(
                        tables.deep_view(),
                        kept,
                        sel@,
                        kept.len() as nat,
                    )
                },
    {
        let ghost tv = tables.deep_view();
        let n_tables = tables.len();
        let mut table_headers: Vec<Vec<String>> = Vec::new();
        let mut d: usize = 0;
        while d < n_tables
            invariant
                d <= n_tables,
                table_headers@.len() == d,
                forall|j: int| 0 <= j < d ==> table_headers.deep_view()[j] == headers_of(tv)[j],
            decreases n_tables - d,
        {
            let h = clone_header(&tables[d].header);
            let ghost pre = table_headers.deep_view();
            table_headers.push(h);
            proof {
                assert(tv[d as int].header == tables@[d as int].header.deep_view());
                assert forall|j: int| 0 <= j <= d as int implies table_headers.deep_view()[j]
                    == headers_of(tv)[j] by {
                    assert(table_headers.deep_view()[j] == table_headers@[j].deep_view());
                    if j < d as int {
                        assert(table_headers@[j].deep_view() == pre[j]);
                    }
                }
            }
            d += 1;
        }
        proof {
            assert(table_headers.deep_view() =~= headers_of(tv));
            assert(headers_shape(table_headers.deep_view()) =~= header_shape(tv));
        }
        let new_header: Vec<String> = sel.new_header(table_headers);
        let mut bounds: Vec<usize> = Vec::new();
        let mut b: usize = 0;
        while b < n_tables
            invariant
                b <= n_tables,
                bounds@.len() == b,
                forall|j: int| 0 <= j < b ==> bounds@[j] == bounds_of(tv)[j],
            decreases n_tables - b,
        {
            proof {
                assert(tv[b as int].rows.len() == tables@[b as int].rows@.len());
            }
            let count = tables[b].rows.len();
            bounds.push(count);
            b += 1;
        }
        proof {
            assert(bounds@ =~= bounds_of(tv));
        }
        let mut iter = given_bounds(bounds);
        let ghost bv = bounds_of(tv);
        let ghost total = total_count(bv);
        let mut new_rows: Vec<Vec<Option<TableCell>>> = Vec::new();
        let ghost mut kept: Seq<bool> = Seq::empty();
        let ghost mut wits: Seq<Vec<Vec<Option<TableCell>>>> = Seq::empty();
        proof {
            assert(new_rows.deep_view() =~= Seq::<Seq<Option<SpecCell>>>::empty());
        }
        let mut done = false;
        while !done
            invariant
                iter.wf(),
                iter.bounds@ == bv,
                kept.len() <= total,
                wits.len() == kept.len(),
                !done ==> (total > 0 ==> iter.pos() == kept.len()),
                !done ==> (total == 0 ==> kept.len() == 0),
                done ==> kept.len() == total,
                forall|k: int|
                    0 <= k < kept.len() ==> (#[trigger] wits[k]).deep_view() == candidate_at(
                        tv,
                        tuple_at(bv, k as nat),
                    ) && call_ensures(*valid_row, (&wits[k],), kept[k]),
                new_rows.deep_view() == rows_upto(tv, kept, sel@, kept.len() as nat),
            decreases
                    (if done {
                        0int
                    } else {
                        1int
                    }),
                    (if done {
                        0int
                    } else {
                        total - iter.pos()
                    }),
        {
            let ghost k = kept.len() as nat;
            let next_opt = iter.next();
            match next_opt {
                None => {
                    done = true;
                },
                Some(indices) => {
                    proof {
                        assert(total > 0);
                        assert(indices@ == tuple_at(bv, k));
                        lemma_tuple_at_valid(bv, k);
                    }
                    let mut current: Vec<Vec<Option<TableCell>>> = Vec::new();
                    let mut t: usize = 0;
                    while t < n_tables
                        invariant
                            t <= n_tables,
                            current@.len() == t,
                            forall|j: int|
                                0 <= j < t ==> current.deep_view()[j] == candidate_at(
                                    tv,
                                    tuple_at(bv, k),
                                )[j],
                        decreases n_tables - t,
                    {
                        proof {
                            assert(tv[t as int].rows.len() == tables@[t as int].rows@.len());
                            assert((indices@[t as int] as nat) < (bv[t as int] as nat));
                        }
                        let row_t = clone_row(&tables[t].rows[indices[t]]);
                        let ghost pre = current.deep_view();
                        current.push(row_t);
                        proof {
                            assert(tv[t as int].rows[indices@[t as int] as int] == tables@[
                                t as int
                            ].rows@[indices@[t as int] as int].deep_view());
                            assert forall|j: int| 0 <= j <= t as int implies current.deep_view()[j]
                                == candidate_at(tv, tuple_at(bv, k))[j] by {
                                assert(current.deep_view()[j] == current@[j].deep_view());
                                if j < t as int {
                                    assert(current@[j].deep_view() == pre[j]);
                                }
                            }
                        }
                        t += 1;
                    }
                    proof {
                        assert(current.deep_view() =~= candidate_at(tv, tuple_at(bv, k)));
                        assert forall|j: int| 0 <= j < current.deep_view().len() implies (
                        #[trigger] current.deep_view()[j]).len() == tv[j].header.len() by {
                            assert(tv[j].wf());
                            assert(current.deep_view()[j] == tv[j].rows[tuple_at(bv, k)[j] as int]);
                        }
                        assert(candidate_shaped(current.deep_view(), tv));
                    }
                    let keep = (valid_row)(&current);
                    let ghost kept_pre = kept;
                    proof {
                        kept = kept.push(keep);
                        wits = wits.push(current);
                        lemma_rows_upto_stable(tv, kept_pre, kept, sel@, k);
                        assert(kept[k as int] == keep);
                        assert(wits[k as int] == current);
                        assert(call_ensures(*valid_row, (&current,), keep));
                        assert(current.deep_view() == candidate_at(tv, tuple_at(bv, k)));
                    }
                    if keep {
                        proof {
                            assert(shape_of_row(current.deep_view()) =~= header_shape(tv));
                        }
                        let new_row = sel.to_row(&current);
                        let ghost pre_rows = new_rows.deep_view();
                        let ghost pre_vec = new_rows@;
                        new_rows.push(new_row);
                        proof {
                            assert forall|j: int| 0 <= j < new_rows@.len() implies
                                new_rows.deep_view()[j] == pre_rows.push(
                                spec_project(sel@, candidate_at(tv, tuple_at(bv, k))),
                            )[j] by {
                                assert(new_rows.deep_view()[j] == new_rows@[j].deep_view());
                                if j < pre_vec.len() {
                                    assert(new_rows@[j] == pre_vec[j]);
                                    assert(pre_vec[j].deep_view() == pre_rows[j]);
                                }
                            }
                            assert(new_rows.deep_view() =~= pre_rows.push(
                                spec_project(sel@, candidate_at(tv, tuple_at(bv, k))),
                            ));
                            assert(new_rows.deep_view() == rows_upto(tv, kept, sel@, (k + 1) as nat));
                        }
                    } else {
                        proof {
                            assert(new_rows.deep_view() == rows_upto(tv, kept, sel@, (k + 1) as nat));
                        }
                    }
                },
            }
        }
        let res = TableData { header: new_header, rows: new_rows };
        proof {
            assert(res@.header == spec_new_header(sel@, headers_of(tv)));
            assert(kept.len() == total_count(bounds_of(tv)) && wits.len() == kept.len() && (
            forall|k2: int|
                0 <= k2 < kept.len() ==> (#[trigger] wits[k2]).deep_view() == candidate_at(
                    tv,
                    tuple_at(bv, k2 as nat),
                ) && call_ensures(*valid_row, (&wits[k2],), kept[k2])) && res@.rows == rows_upto(
                tv,
                kept,
                sel@,
                kept.len() as nat,
            ));
        }
        res
    }
}

impl IndexedQuery {
    /// Executes this bound query: the cross product of the tables' rows is
    /// filtered by the bound predicate and projected through the selection.
    /// Execution is total; the `Result` never holds an error.
    pub fn run(&self, tables: &Vec<TableData>) -> (r: Result<TableData, BindError>)
        requires
            tables_wf(tables.deep_view()),
            filter_in_bounds(self.filter@, header_shape(tables.deep_view())),
            sel_in_bounds(self.selection@, header_shape(tables.deep_view())),
        ensures
            r matches Ok(td) && td@ == spec_run(self@, tables.deep_view()),
    {
        let ghost tv = tables.deep_view();
        let filter = &self.filter;
        let f = |row: &Vec<Vec<Option<TableCell>>>| -> (b: bool)
            requires
                filter_in_bounds(filter@, shape_of_row(row.deep_view())),
            ensures
                b == spec_accepts(filter@, row.deep_view()),
            { filter.valid_row(row) };
        proof {
            assert forall|r: Vec<Vec<Option<TableCell>>>|
                candidate_shaped(r.deep_view(), tv) implies call_requires(f, (&r,)) by {
                assert(shape_of_row(r.deep_view()) =~= header_shape(tv));
            }
            assert(forall|x: &Vec<Vec<Option<TableCell>>>, y: bool|
                call_ensures(f, (x,), y) ==> y == spec_accepts(filter@, x.deep_view()));
        }
        let res = TableData::join_table(&f, tables, &self.selection);
        proof {
            let (kept, wits) = choose|kept: Seq<bool>, wits: Seq<Vec<Vec<Option<TableCell>>>>|
                {
                    &&& kept.len() == total_count(bounds_of(tv))
                    &&& wits.len() == kept.len()
                    &&& (forall|k: int|
                        0 <= k < kept.len() ==> (#[trigger] wits[k]).deep_view() == candidate_at(
                            tv,
                            tuple_at(bounds_of(tv), k as nat),
                        ) && call_ensures(f, (&wits[k],), kept[k]))
                    &&& res@.rows == rows_upto(tv, kept, self.selection@, kept.len() as nat)
                };
            assert forall|k: int| 0 <= k < kept.len() implies kept[k] == accepts_flags(
                tv,
                self.filter@,
            )[k] by {
                assert(wits[k].deep_view() == candidate_at(tv, tuple_at(bounds_of(tv), k as nat))
                    && call_ensures(f, (&wits[k],), kept[k]));
                assert(kept[k] == spec_accepts(self.filter@, wits[k].deep_view()));
            }
            assert(kept =~= accepts_flags(tv, self.filter@));
            assert(res@ == spec_run(self@, tv));
        }
        Ok(res)
    }
}

impl Query {
    /// Binds this query against the named tables and, on success, executes
    /// it. The result is the executed table, or the first binding error;
    /// execution itself never fails.
    pub fn run(self, tables: &Vec<TableData>, names: &Vec<String>) -> (r: Result<
        TableData,
        BindError,
    >)
        requires
            tables@.len() == names@.len(),
            tables_wf(tables.deep_view()),
        ensures
            match spec_bind_query(self@, tables.deep_view(), names.deep_view()) {
                Err(e) => r matches Err(e2) && e2@ == e,
                Ok(iq) => r matches Ok(td) && td@ == spec_run(iq, tables.deep_view()),
            },
    {
        let ghost q_v = self@;
        let query: IndexedQuery = match self.to_indexed(tables, names) {
            Ok(q) => q,
            Err(e) => {
                return Err(e);
            },
        };
        proof {
            lemma_bind_query_in_bounds(q_v, tables.deep_view(), names.deep_view());
        }
        query.run(tables)
    }
}

} // verus!
