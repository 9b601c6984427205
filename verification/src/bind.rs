//! The binder: rewrites name-based column references into positional
//! `(table, column)` addresses against a set of loaded tables. Resolution is
//! first-match and fail-fast, exactly as specified by `spec_bind_query`.

use vstd::prelude::*;

use crate::ast::{
    ColumnSelector, Filter, IndexedColumnSelector, IndexedFilter, IndexedQuery, IndexedSelection,
    Query, Selection, SpecColumnSelector, SpecFilter, SpecIndexedColumnSelector,
    SpecIndexedFilter, SpecIndexedQuery, SpecIndexedSelection, SpecQuery,
};
use crate::tables::{SpecTableData, TableData};

verus! {

/// A failure to resolve a reference during binding.
#[derive(Debug, PartialEq, Eq)]
pub enum BindError {
    /// The qualifier of a selector names no loaded table.
    TableNotFound(String),
    /// The field of a selector appears in no candidate header; the second
    /// component is the qualifier, if the selector had one.
    ColumnNotFound(String, Option<String>),
}

/// Model of a `BindError`.
pub enum SpecBindError {
    TableNotFound(Seq<char>),
    ColumnNotFound(Seq<char>, Option<Seq<char>>),
}

impl View for BindError {
    type V = SpecBindError;

    open spec fn view(&self) -> SpecBindError {
        match self {
            BindError::TableNotFound(t) => SpecBindError::TableNotFound(t@),
            BindError::ColumnNotFound(f, t) => SpecBindError::ColumnNotFound(
                f@,
                match t {
                    Some(t) => Some(t@),
                    None => None,
                },
            ),
        }
    }
}

impl Clone for BindError {
    fn clone(&self) -> (r: Self)
        ensures
            r@ == self@,
    {
        match self {
            BindError::TableNotFound(t) => BindError::TableNotFound(t.clone()),
            BindError::ColumnNotFound(f, t) => BindError::ColumnNotFound(
                f.clone(),
                match t {
                    Some(t) => Some(t.clone()),
                    None => None,
                },
            ),
        }
    }
}

impl BindError {
    /// A human-readable description of the unresolved reference.
    pub fn message(&self) -> (r: String)
        ensures
            r@ == match self@ {
                SpecBindError::TableNotFound(t) => "table not found: "@.add(t),
                SpecBindError::ColumnNotFound(f, Some(t)) => "column not found: "@.add(f).add(
                    " in table "@,
                ).add(t),
                SpecBindError::ColumnNotFound(f, None) => "column not found: "@.add(f),
            },
    {
        let mut out = String::new();
        match self {
            BindError::TableNotFound(t) => {
                out.append("table not found: ");
                out.append(t.as_str());
            },
            BindError::ColumnNotFound(f, t) => {
                out.append("column not found: ");
                out.append(f.as_str());
                match t {
                    Some(t) => {
                        out.append(" in table ");
                        out.append(t.as_str());
                    },
                    None => {},
                }
            },
        }
        out
    }
}

/// The first position holding `target`, if any.
pub open spec fn first_match(names: Seq<Seq<char>>, target: Seq<char>) -> Option<int>
    decreases names.len(),
{
    if names.len() == 0 {
        None
    } else if names[0] == target {
        Some(0)
    } else {
        match first_match(names.drop_first(), target) {
            Some(i) => Some(i + 1),
            None => None,
        }
    }
}

/// What `first_match` returns: the least position holding `target`, or
/// `None` when no position holds it.
pub proof fn lemma_first_match(names: Seq<Seq<char>>, target: Seq<char>)
    ensures
        match first_match(names, target) {
            Some(i) => 0 <= i < names.len() && names[i] == target && (forall|j: int|
                0 <= j < i ==> names[j] != target),
            None => forall|j: int| 0 <= j < names.len() ==> names[j] != target,
        },
    decreases names.len(),
{
    if names.len() > 0 {
        lemma_first_match(names.drop_first(), target);
        assert(forall|j: int|
            0 < j < names.len() ==> names[j] == names.drop_first()[j - 1]);
    }
}

/// The first table whose header holds `field`, if any.
pub open spec fn first_table_with(tables: Seq<SpecTableData>, field: Seq<char>) -> Option<int>
    decreases tables.len(),
{
    if tables.len() == 0 {
        None
    } else if first_match(tables[0].header, field) is Some {
        Some(0)
    } else {
        match first_table_with(tables.drop_first(), field) {
            Some(i) => Some(i + 1),
            None => None,
        }
    }
}

/// What `first_table_with` returns: the least table position whose header
/// holds `field`, or `None` when none does.
pub proof fn lemma_first_table_with(tables: Seq<SpecTableData>, field: Seq<char>)
    ensures
        match first_table_with(tables, field) {
            Some(i) => 0 <= i < tables.len() && first_match(tables[i].header, field) is Some && (
            forall|j: int| 0 <= j < i ==> first_match(#[trigger] tables[j].header, field) is None),
            None => forall|j: int|
                0 <= j < tables.len() ==> first_match(#[trigger] tables[j].header, field) is None,
        },
    decreases tables.len(),
{
    if tables.len() > 0 {
        lemma_first_table_with(tables.drop_first(), field);
        assert(forall|j: int|
            0 < j < tables.len() ==> tables[j] == tables.drop_first()[j - 1]);
    }
}

/// Resolution of one selector. A qualified selector looks its table up by
/// name (first match wins) and then its field in that table's header; an
/// unqualified selector takes the first table, in order, whose header holds
/// the field, without checking for ambiguity.
pub open spec fn spec_bind_selector(
    sel: SpecColumnSelector,
    tables: Seq<SpecTableData>,
    names: Seq<Seq<char>>,
) -> Result<SpecIndexedColumnSelector, SpecBindError> {
    match sel.table {
        Some(t) => match first_match(names, t) {
            None => Err(SpecBindError::TableNotFound(t)),
            Some(i) => match first_match(tables[i].header, sel.field) {
                None => Err(SpecBindError::ColumnNotFound(sel.field, Some(t))),
                Some(j) => Ok(SpecIndexedColumnSelector { table: i, field: j }),
            },
        },
        None => match first_table_with(tables, sel.field) {
            None => Err(SpecBindError::ColumnNotFound(sel.field, None)),
            Some(i) => match first_match(tables[i].header, sel.field) {
                None => Err(SpecBindError::ColumnNotFound(sel.field, None)),
                Some(j) => Ok(SpecIndexedColumnSelector { table: i, field: j }),
            },
        },
    }
}

/// Structural binding of a filter tree, propagating the first error found
/// (left subtree before right).
pub open spec fn spec_bind_filter(
    f: SpecFilter,
    tables: Seq<SpecTableData>,
    names: Seq<Seq<char>>,
) -> Result<SpecIndexedFilter, SpecBindError>
    decreases f,
{
    match f {
        SpecFilter::Id(cs) => match spec_bind_selector(cs, tables, names) {
            Ok(ix) => Ok(SpecIndexedFilter::Id(ix)),
            Err(e) => Err(e),
        },
        SpecFilter::LitS(s) => Ok(SpecIndexedFilter::LitS(s)),
        SpecFilter::LitB(b) => Ok(SpecIndexedFilter::LitB(b)),
        SpecFilter::LitI(i) => Ok(SpecIndexedFilter::LitI(i)),
        SpecFilter::UnaryOp(op, f1) => match spec_bind_filter(*f1, tables, names) {
            Ok(g) => Ok(SpecIndexedFilter::UnaryOp(op, Box::new(g))),
            Err(e) => Err(e),
        },
        SpecFilter::BinaryOp(op, l, r) => match spec_bind_filter(*l, tables, names) {
            Err(e) => Err(e),
            Ok(gl) => match spec_bind_filter(*r, tables, names) {
                Err(e) => Err(e),
                Ok(gr) => Ok(SpecIndexedFilter::BinaryOp(op, Box::new(gl), Box::new(gr))),
            },
        },
    }
}

/// Binding of a selection column list, in order, first error wins.
pub open spec fn spec_bind_columns(
    cols: Seq<SpecColumnSelector>,
    tables: Seq<SpecTableData>,
    names: Seq<Seq<char>>,
) -> Result<Seq<SpecIndexedColumnSelector>, SpecBindError>
    decreases cols.len(),
{
    if cols.len() == 0 {
        Ok(Seq::empty())
    } else {
        match spec_bind_selector(cols[0], tables, names) {
            Err(e) => Err(e),
            Ok(x) => match spec_bind_columns(cols.drop_first(), tables, names) {
                Err(e) => Err(e),
                Ok(xs) => Ok(seq![x].add(xs)),
            },
        }
    }
}

/// Splitting a column list splits its binding: the first error of the whole
/// list is the first error of `a`, else the first error of `b`, else the two
/// bound lists concatenated.
pub proof fn lemma_bind_columns_app(
    a: Seq<SpecColumnSelector>,
    b: Seq<SpecColumnSelector>,
    tables: Seq<SpecTableData>,
    names: Seq<Seq<char>>,
)
    ensures
        spec_bind_columns(a.add(b), tables, names) == match spec_bind_columns(a, tables, names) {
            Err(e) => Err(e),
            Ok(xs) => match spec_bind_columns(b, tables, names) {
                Err(e) => Err(e),
                Ok(ys) => Ok(xs.add(ys)),
            },
        },
    decreases a.len(),
{
    if a.len() == 0 {
        assert(a.add(b) =~= b);
        if spec_bind_columns(b, tables, names) is Ok {
            assert(spec_bind_columns(a, tables, names)->Ok_0.add(
                spec_bind_columns(b, tables, names)->Ok_0,
            ) =~= spec_bind_columns(b, tables, names)->Ok_0);
        }
    } else {
        let ab = a.add(b);
        assert(ab[0] == a[0]);
        assert(ab.drop_first() =~= a.drop_first().add(b));
        lemma_bind_columns_app(a.drop_first(), b, tables, names);
        if spec_bind_selector(a[0], tables, names) is Ok && spec_bind_columns(
            a.drop_first(),
            tables,
            names,
        ) is Ok && spec_bind_columns(b, tables, names) is Ok {
            let x = spec_bind_selector(a[0], tables, names)->Ok_0;
            let xs = spec_bind_columns(a.drop_first(), tables, names)->Ok_0;
            let ys = spec_bind_columns(b, tables, names)->Ok_0;
            assert(seq![x].add(xs.add(ys)) =~= seq![x].add(xs).add(ys));
        }
    }
}

/// Binding a single-selector list is binding that selector.
pub proof fn lemma_bind_columns_singleton(
    c: SpecColumnSelector,
    tables: Seq<SpecTableData>,
    names: Seq<Seq<char>>,
)
    ensures
        spec_bind_columns(seq![c], tables, names) == match spec_bind_selector(c, tables, names) {
            Err(e) => Err(e),
            Ok(x) => Ok(seq![x]),
        },
{
    let s = seq![c];
    assert(s.drop_first() =~= Seq::<SpecColumnSelector>::empty());
    assert(spec_bind_columns(Seq::<SpecColumnSelector>::empty(), tables, names)
        == Ok::<_, SpecBindError>(Seq::<SpecIndexedColumnSelector>::empty()));
    match spec_bind_selector(c, tables, names) {
        Err(_) => {},
        Ok(x) => {
            assert(seq![x].add(Seq::<SpecIndexedColumnSelector>::empty()) =~= seq![x]);
        },
    }
}

/// Binding of a whole query: the filter first, then the selection columns in
/// order; the table list is carried over unchanged.
pub open spec fn spec_bind_query(
    q: SpecQuery,
    tables: Seq<SpecTableData>,
    names: Seq<Seq<char>>,
) -> Result<SpecIndexedQuery, SpecBindError> {
    match spec_bind_filter(q.filter, tables, names) {
        Err(e) => Err(e),
        Ok(f) => match q.selection {
            crate::ast::SpecSelection::Star => Ok(
                SpecIndexedQuery {
                    selection: SpecIndexedSelection::Star,
                    tables: q.tables,
                    filter: f,
                },
            ),
            crate::ast::SpecSelection::Columns(cols) => match spec_bind_columns(
                cols,
                tables,
                names,
            ) {
                Err(e) => Err(e),
                Ok(xs) => Ok(
                    SpecIndexedQuery {
                        selection: SpecIndexedSelection::Columns(xs),
                        tables: q.tables,
                        filter: f,
                    },
                ),
            },
        },
    }
}

/// Binder determinism: binding the same query against the same tables and
/// names always yields the same bound query or the same error.
pub proof fn lemma_binder_deterministic(
    q1: SpecQuery,
    q2: SpecQuery,
    tables1: Seq<SpecTableData>,
    tables2: Seq<SpecTableData>,
    names1: Seq<Seq<char>>,
    names2: Seq<Seq<char>>,
)
    requires
        q1 == q2,
        tables1 == tables2,
        names1 == names2,
    ensures
        spec_bind_query(q1, tables1, names1) == spec_bind_query(q2, tables2, names2),
{
}

/// The model of a selector binding result.
pub open spec fn sel_result_view(
    r: Result<IndexedColumnSelector, BindError>,
) -> Result<SpecIndexedColumnSelector, SpecBindError> {
    match r {
        Ok(ix) => Ok(ix@),
        Err(e) => Err(e@),
    }
}

/// The model of a filter binding result.
pub open spec fn filter_result_view(
    r: Result<IndexedFilter, BindError>,
) -> Result<SpecIndexedFilter, SpecBindError> {
    match r {
        Ok(f) => Ok(f@),
        Err(e) => Err(e@),
    }
}

/// The model of a query binding result.
pub open spec fn query_result_view(
    r: Result<IndexedQuery, BindError>,
) -> Result<SpecIndexedQuery, SpecBindError> {
    match r {
        Ok(q) => Ok(q@),
        Err(e) => Err(e@),
    }
}

/// Finds the first position of `target` in `v`, scanning from the front.
#[verifier::loop_isolation(false)]
fn find_string(v: &Vec<String>, target: &String) -> (r: Option<usize>)
    ensures
        match r {
            Some(i) => first_match(v.deep_view(), target@) == Some(i as int),
            None => first_match(v.deep_view(), target@) is None,
        },
{
    proof {
        lemma_first_match(v.deep_view(), target@);
    }
    let n = v.len();
    let mut i: usize = 0;
    while i < n
        invariant
            i <= n,
            forall|j: int| 0 <= j < i ==> v.deep_view()[j] != target@,
        decreases n - i,
    {
        if v[i] == *target {
            proof {
                assert(v.deep_view()[i as int] == v@[i as int]@);
            }
            return Some(i);
        }
        i += 1;
    }
    None
}

impl ColumnSelector {
    /// Resolves this selector against the loaded tables, where `names[i]` is
    /// the caller-supplied name of `tables[i]`. First match wins; a
    /// qualified selector whose table is missing fails with
    /// `TableNotFound`, a field found in no candidate header fails with
    /// `ColumnNotFound`.
    #[verifier::loop_isolation(false)]
    pub fn to_indexed(&self, tables: &Vec<TableData>, names: &Vec<String>) -> (r: Result<
        IndexedColumnSelector,
        BindError,
    >)
        requires
            tables@.len() == names@.len(),
        ensures
            sel_result_view(r) == spec_bind_selector(self@, tables.deep_view(), names.deep_view()),
    {
        match &self.table {
            Some(name) => {
                match find_string(names, name) {
                    None => Err(BindError::TableNotFound(name.clone())),
                    Some(i) => {
                        proof {
                            lemma_first_match(names.deep_view(), name@);
                        }
                        match find_string(&tables[i].header, &self.field) {
                            None => Err(
                                BindError::ColumnNotFound(self.field.clone(), Some(name.clone())),
                            ),
                            Some(j) => Ok(IndexedColumnSelector { table: i, field: j }),
                        }
                    },
                }
            },
            None => {
                proof {
                    lemma_first_table_with(tables.deep_view(), self.field@);
                }
                let n = tables.len();
                let mut d: usize = 0;
                while d < n
                    invariant
                        d <= n,
                        forall|j: int|
                            0 <= j < d ==> first_match(
                                #[trigger] tables.deep_view()[j].header,
                                self.field@,
                            ) is None,
                    decreases n - d,
                {
                    proof {
                        assert(tables.deep_view()[d as int] == tables@[d as int]@);
                    }
                    match find_string(&tables[d].header, &self.field) {
                        Some(j) => {
                            proof {
                                lemma_first_table_with(tables.deep_view(), self.field@);
                                assert(tables.deep_view()[d as int].header == tables@[
                                    d as int
                                ].header.deep_view());
                                assert(first_match(tables.deep_view()[d as int].header, self.field@)
                                    == Some(j as int));
                                let ftw = first_table_with(tables.deep_view(), self.field@);
                                if ftw is Some {
                                    let k = ftw->Some_0;
                                    if k < d as int {
                                        assert(first_match(
                                            tables.deep_view()[k].header,
                                            self.field@,
                                        ) is None);
                                    } else if k > d as int {
                                        assert(first_match(
                                            tables.deep_view()[d as int].header,
                                            self.field@,
                                        ) is None);
                                    }
                                }
                                assert(ftw == Some(d as int));
                            }
                            return Ok(IndexedColumnSelector { table: d, field: j });
                        },
                        None => {},
                    }
                    d += 1;
                }
                Err(BindError::ColumnNotFound(self.field.clone(), None))
            },
        }
    }
}

impl Filter {
    /// Resolves every column reference in this filter, fail-fast, left
    /// subtree before right.
    pub fn to_indexed(&self, tables: &Vec<TableData>, names: &Vec<String>) -> (r: Result<
        IndexedFilter,
        BindError,
    >)
        requires
            tables@.len() == names@.len(),
        ensures
            filter_result_view(r) == spec_bind_filter(
                self@,
                tables.deep_view(),
                names.deep_view(),
            ),
        decreases *self,
    {
        match self {
            Filter::Id(id) => {
                match id.to_indexed(tables, names) {
                    Ok(ix) => Ok(IndexedFilter::Id(ix)),
                    Err(e) => Err(e),
                }
            },
            Filter::LitS(s) => Ok(IndexedFilter::LitS(s.clone())),
            Filter::LitB(b) => Ok(IndexedFilter::LitB(*b)),
            Filter::LitI(i) => Ok(IndexedFilter::LitI(*i)),
            Filter::UnaryOp(uop, f1) => {
                match (**f1).to_indexed(tables, names) {
                    Ok(g) => Ok(IndexedFilter::UnaryOp(*uop, Box::new(g))),
                    Err(e) => Err(e),
                }
            },
            Filter::BinaryOp(bop, l, r) => {
                match (**l).to_indexed(tables, names) {
                    Err(e) => Err(e),
                    Ok(gl) => match (**r).to_indexed(tables, names) {
                        Err(e) => Err(e),
                        Ok(gr) => Ok(IndexedFilter::BinaryOp(*bop, Box::new(gl), Box::new(gr))),
                    },
                }
            },
        }
    }
}

impl Query {
    /// Resolves every column reference of this query: the filter first, then
    /// the selection columns in listed order, first error wins. The parsed
    /// table list is carried over unchanged.
    #[verifier::loop_isolation(false)]
    pub fn to_indexed(self, tables: &Vec<TableData>, names: &Vec<String>) -> (r: Result<
        IndexedQuery,
        BindError,
    >)
        requires
            tables@.len() == names@.len(),
        ensures
            query_result_view(r) == spec_bind_query(self@, tables.deep_view(), names.deep_view()),
    {
        let Query { selection, tables: from_tables, filter } = self;
        let indexed_filter = match filter.to_indexed(tables, names) {
            Ok(f) => f,
            Err(e) => {
                return Err(e);
            },
        };
        let indexed_selection = match selection {
            Selection::Star => IndexedSelection::Star,
            Selection::Columns(v) => {
                let ghost cols_v = v.deep_view();
                let n = v.len();
                let mut out: Vec<IndexedColumnSelector> = Vec::new();
                proof {
                    assert(cols_v.take(0) =~= Seq::<SpecColumnSelector>::empty());
                    assert(out.deep_view() =~= Seq::<SpecIndexedColumnSelector>::empty());
                }
                let mut i: usize = 0;
                while i < n
                    invariant
                        i <= n,
                        out@.len() == i,
                        spec_bind_columns(cols_v.take(i as int), tables.deep_view(), names.deep_view())
                            == Ok::<_, SpecBindError>(out.deep_view()),
                    decreases n - i,
                {
                    let ghost pre_out = out.deep_view();
                    proof {
                        assert(cols_v[i as int] == v@[i as int]@);
                        lemma_bind_columns_singleton(
                            cols_v[i as int],
                            tables.deep_view(),
                            names.deep_view(),
                        );
                        lemma_bind_columns_app(
                            cols_v.take(i as int),
                            seq![cols_v[i as int]],
                            tables.deep_view(),
                            names.deep_view(),
                        );
                        assert(cols_v.take(i as int).add(seq![cols_v[i as int]]) =~= cols_v.take(
                            i as int + 1,
                        ));
                    }
                    let x = match v[i].to_indexed(tables, names) {
                        Ok(x) => x,
                        Err(e) => {
                            proof {
                                lemma_bind_columns_app(
                                    cols_v.take(i as int + 1),
                                    cols_v.skip(i as int + 1),
                                    tables.deep_view(),
                                    names.deep_view(),
                                );
                                assert(cols_v.take(i as int + 1).add(cols_v.skip(i as int + 1))
                                    =~= cols_v);
                            }
                            return Err(e);
                        },
                    };
                    out.push(x);
                    proof {
                        assert(out.deep_view()[i as int] == out@[i as int].deep_view());
                        assert(out.deep_view() =~= pre_out.add(seq![x@]));
                    }
                    i += 1;
                }
                proof {
                    assert(cols_v.take(n as int) =~= cols_v);
                }
                IndexedSelection::Columns(out)
            },
        };
        Ok(IndexedQuery { selection: indexed_selection, tables: from_tables, filter: indexed_filter })
    }
}

} // verus!
