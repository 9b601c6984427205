//! The abstract syntax of the query language: filter expression trees,
//! selections, table references and whole queries, together with their
//! mathematical models (the `Spec…` types) and well-formedness predicates.

use vstd::prelude::*;

verus! {

/// A name appearing in a query: a table, an alias or a column.
pub type Ident = String;

/// The one unary operator of the language.
#[derive(Debug, PartialEq, Eq, Clone, Copy, Structural)]
pub enum UnaryOp {
    Not,
}

/// The binary operators. `And`, `Eq`, `Lt` and `Like` share one precedence
/// tier; only `Or` binds more loosely.
#[derive(Debug, PartialEq, Eq, Clone, Copy, Structural)]
pub enum BinaryOp {
    And,
    Or,
    Eq,
    Lt,
    Like,
}

/// A column reference, optionally qualified with a table name.
#[derive(Debug, PartialEq, Eq)]
pub struct ColumnSelector {
    pub table: Option<Ident>,
    pub field: Ident,
}

/// An unbound filter expression tree, as produced by the parser.
#[derive(Debug, PartialEq, Eq)]
pub enum Filter {
    Id(ColumnSelector),
    LitS(String),
    LitB(bool),
    LitI(i64),
    UnaryOp(UnaryOp, Box<Filter>),
    BinaryOp(BinaryOp, Box<Filter>, Box<Filter>),
}

/// A bound column reference: positions into the table list and that table's
/// header.
#[derive(Debug, PartialEq, Eq)]
pub struct IndexedColumnSelector {
    pub table: usize,
    pub field: usize,
}

/// A bound filter expression tree, as produced by the binder.
#[derive(Debug, PartialEq, Eq)]
pub enum IndexedFilter {
    Id(IndexedColumnSelector),
    LitS(String),
    LitB(bool),
    LitI(i64),
    UnaryOp(UnaryOp, Box<IndexedFilter>),
    BinaryOp(BinaryOp, Box<IndexedFilter>, Box<IndexedFilter>),
}

/// What a query projects: every column of every table, or a listed set.
#[derive(Debug, PartialEq, Eq)]
pub enum Selection {
    Star,
    Columns(Vec<ColumnSelector>),
}

/// The bound form of a `Selection`.
#[derive(Debug, PartialEq, Eq)]
pub enum IndexedSelection {
    Star,
    Columns(Vec<IndexedColumnSelector>),
}

/// A table reference in a `FROM` clause. The alias is recorded but not
/// consulted during binding: qualifiers resolve against the caller-supplied
/// name list.
#[derive(Debug, PartialEq, Eq)]
pub struct Table {
    pub table_name: Ident,
    pub alias: Option<Ident>,
}

/// A parsed query, ready for binding.
#[derive(Debug, PartialEq)]
pub struct Query {
    pub selection: Selection,
    pub tables: Vec<Table>,
    pub filter: Filter,
}

/// A bound query, ready for execution.
#[derive(Debug, PartialEq)]
pub struct IndexedQuery {
    pub selection: IndexedSelection,
    pub tables: Vec<Table>,
    pub filter: IndexedFilter,
}

// ------------------------------------------------------------------
// Mathematical models.
// ------------------------------------------------------------------

/// Model of a `ColumnSelector`.
pub struct SpecColumnSelector {
    pub table: Option<Seq<char>>,
    pub field: Seq<char>,
}

/// Model of a `Filter`.
pub enum SpecFilter {
    Id(SpecColumnSelector),
    LitS(Seq<char>),
    LitB(bool),
    LitI(int),
    UnaryOp(UnaryOp, Box<SpecFilter>),
    BinaryOp(BinaryOp, Box<SpecFilter>, Box<SpecFilter>),
}

/// Model of an `IndexedColumnSelector`.
pub struct SpecIndexedColumnSelector {
    pub table: int,
    pub field: int,
}

/// Model of an `IndexedFilter`.
pub enum SpecIndexedFilter {
    Id(SpecIndexedColumnSelector),
    LitS(Seq<char>),
    LitB(bool),
    LitI(int),
    UnaryOp(UnaryOp, Box<SpecIndexedFilter>),
    BinaryOp(BinaryOp, Box<SpecIndexedFilter>, Box<SpecIndexedFilter>),
}

/// Model of a `Selection`.
pub enum SpecSelection {
    Star,
    Columns(Seq<SpecColumnSelector>),
}

/// Model of an `IndexedSelection`.
pub enum SpecIndexedSelection {
    Star,
    Columns(Seq<SpecIndexedColumnSelector>),
}

/// Model of a `Table`.
pub struct SpecTable {
    pub table_name: Seq<char>,
    pub alias: Option<Seq<char>>,
}

/// Model of a `Query`.
pub struct SpecQuery {
    pub selection: SpecSelection,
    pub tables: Seq<SpecTable>,
    pub filter: SpecFilter,
}

/// Model of an `IndexedQuery`.
pub struct SpecIndexedQuery {
    pub selection: SpecIndexedSelection,
    pub tables: Seq<SpecTable>,
    pub filter: SpecIndexedFilter,
}

// ------------------------------------------------------------------
// Views from the executable types to their models.
// ------------------------------------------------------------------

impl View for ColumnSelector {
    type V = SpecColumnSelector;

    open spec fn view(&self) -> SpecColumnSelector {
        SpecColumnSelector {
            table: match self.table {
                Some(t) => Some(t@),
                None => None,
            },
            field: self.field@,
        }
    }
}

impl DeepView for ColumnSelector {
    type V = SpecColumnSelector;

    open spec fn deep_view(&self) -> SpecColumnSelector {
        self.view()
    }
}

/// The model of a filter tree, structurally.
pub open spec fn view_filter(f: Filter) -> SpecFilter
    decreases f,
{
    match f {
        Filter::Id(cs) => SpecFilter::Id(cs@),
        Filter::LitS(s) => SpecFilter::LitS(s@),
        Filter::LitB(b) => SpecFilter::LitB(b),
        Filter::LitI(i) => SpecFilter::LitI(i as int),
        Filter::UnaryOp(op, f1) => SpecFilter::UnaryOp(op, Box::new(view_filter(*f1))),
        Filter::BinaryOp(op, l, r) => SpecFilter::BinaryOp(
            op,
            Box::new(view_filter(*l)),
            Box::new(view_filter(*r)),
        ),
    }
}

impl View for Filter {
    type V = SpecFilter;

    open spec fn view(&self) -> SpecFilter {
        view_filter(*self)
    }
}

impl DeepView for Filter {
    type V = SpecFilter;

    open spec fn deep_view(&self) -> SpecFilter {
        view_filter(*self)
    }
}

impl View for IndexedColumnSelector {
    type V = SpecIndexedColumnSelector;

    open spec fn view(&self) -> SpecIndexedColumnSelector {
        SpecIndexedColumnSelector { table: self.table as int, field: self.field as int }
    }
}

impl DeepView for IndexedColumnSelector {
    type V = SpecIndexedColumnSelector;

    open spec fn deep_view(&self) -> SpecIndexedColumnSelector {
        self.view()
    }
}

/// The model of a bound filter tree, structurally.
pub open spec fn view_indexed_filter(f: IndexedFilter) -> SpecIndexedFilter
    decreases f,
{
    match f {
        IndexedFilter::Id(cs) => SpecIndexedFilter::Id(cs@),
        IndexedFilter::LitS(s) => SpecIndexedFilter::LitS(s@),
        IndexedFilter::LitB(b) => SpecIndexedFilter::LitB(b),
        IndexedFilter::LitI(i) => SpecIndexedFilter::LitI(i as int),
        IndexedFilter::UnaryOp(op, f1) => SpecIndexedFilter::UnaryOp(
            op,
            Box::new(view_indexed_filter(*f1)),
        ),
        IndexedFilter::BinaryOp(op, l, r) => SpecIndexedFilter::BinaryOp(
            op,
            Box::new(view_indexed_filter(*l)),
            Box::new(view_indexed_filter(*r)),
        ),
    }
}

impl View for IndexedFilter {
    type V = SpecIndexedFilter;

    open spec fn view(&self) -> SpecIndexedFilter {
        view_indexed_filter(*self)
    }
}

impl DeepView for IndexedFilter {
    type V = SpecIndexedFilter;

    open spec fn deep_view(&self) -> SpecIndexedFilter {
        view_indexed_filter(*self)
    }
}

impl View for Selection {
    type V = SpecSelection;

    open spec fn view(&self) -> SpecSelection {
        match self {
            Selection::Star => SpecSelection::Star,
            Selection::Columns(cols) => SpecSelection::Columns(cols.deep_view()),
        }
    }
}

impl DeepView for Selection {
    type V = SpecSelection;

    open spec fn deep_view(&self) -> SpecSelection {
        self.view()
    }
}

impl View for IndexedSelection {
    type V = SpecIndexedSelection;

    open spec fn view(&self) -> SpecIndexedSelection {
        match self {
            IndexedSelection::Star => SpecIndexedSelection::Star,
            IndexedSelection::Columns(cols) => SpecIndexedSelection::Columns(cols.deep_view()),
        }
    }
}

impl DeepView for IndexedSelection {
    type V = SpecIndexedSelection;

    open spec fn deep_view(&self) -> SpecIndexedSelection {
        self.view()
    }
}

impl View for Table {
    type V = SpecTable;

    open spec fn view(&self) -> SpecTable {
        SpecTable {
            table_name: self.table_name@,
            alias: match self.alias {
                Some(a) => Some(a@),
                None => None,
            },
        }
    }
}

impl DeepView for Table {
    type V = SpecTable;

    open spec fn deep_view(&self) -> SpecTable {
        self.view()
    }
}

impl View for Query {
    type V = SpecQuery;

    open spec fn view(&self) -> SpecQuery {
        SpecQuery {
            selection: self.selection@,
            tables: self.tables.deep_view(),
            filter: self.filter@,
        }
    }
}

impl DeepView for Query {
    type V = SpecQuery;

    open spec fn deep_view(&self) -> SpecQuery {
        self.view()
    }
}

impl View for IndexedQuery {
    type V = SpecIndexedQuery;

    open spec fn view(&self) -> SpecIndexedQuery {
        SpecIndexedQuery {
            selection: self.selection@,
            tables: self.tables.deep_view(),
            filter: self.filter@,
        }
    }
}

impl DeepView for IndexedQuery {
    type V = SpecIndexedQuery;

    open spec fn deep_view(&self) -> SpecIndexedQuery {
        self.view()
    }
}

// ------------------------------------------------------------------
// Clones with exact contracts (the derived impls are opaque to the
// verifier, so these are written by hand).
// ------------------------------------------------------------------

impl Clone for ColumnSelector {
    fn clone(&self) -> (r: Self)
        ensures
            r@ == self@,
    {
        ColumnSelector {
            table: match &self.table {
                Some(t) => Some(t.clone()),
                None => None,
            },
            field: self.field.clone(),
        }
    }
}

impl Clone for Filter {
    fn clone(&self) -> (r: Self)
        ensures
            r@ == self@,
        decreases *self,
    {
        match self {
            Filter::Id(cs) => Filter::Id(cs.clone()),
            Filter::LitS(s) => Filter::LitS(s.clone()),
            Filter::LitB(b) => Filter::LitB(*b),
            Filter::LitI(i) => Filter::LitI(*i),
            Filter::UnaryOp(op, f1) => Filter::UnaryOp(*op, Box::new((**f1).clone())),
            Filter::BinaryOp(op, l, r) => Filter::BinaryOp(
                *op,
                Box::new((**l).clone()),
                Box::new((**r).clone()),
            ),
        }
    }
}

impl Clone for IndexedColumnSelector {
    fn clone(&self) -> (r: Self)
        ensures
            r@ == self@,
    {
        IndexedColumnSelector { table: self.table, field: self.field }
    }
}

impl Clone for IndexedFilter {
    fn clone(&self) -> (r: Self)
        ensures
            r@ == self@,
        decreases *self,
    {
        match self {
            IndexedFilter::Id(cs) => IndexedFilter::Id(cs.clone()),
            IndexedFilter::LitS(s) => IndexedFilter::LitS(s.clone()),
            IndexedFilter::LitB(b) => IndexedFilter::LitB(*b),
            IndexedFilter::LitI(i) => IndexedFilter::LitI(*i),
            IndexedFilter::UnaryOp(op, f1) => IndexedFilter::UnaryOp(*op, Box::new((**f1).clone())),
            IndexedFilter::BinaryOp(op, l, r) => IndexedFilter::BinaryOp(
                *op,
                Box::new((**l).clone()),
                Box::new((**r).clone()),
            ),
        }
    }
}

impl Clone for Table {
    fn clone(&self) -> (r: Self)
        ensures
            r@ == self@,
    {
        Table {
            table_name: self.table_name.clone(),
            alias: match &self.alias {
                Some(a) => Some(a.clone()),
                None => None,
            },
        }
    }
}

impl Clone for Selection {
    fn clone(&self) -> (r: Self)
        ensures
            r@ == self@,
    {
        match self {
            Selection::Star => Selection::Star,
            Selection::Columns(cols) => {
                let mut out: Vec<ColumnSelector> = Vec::new();
                let n = cols.len();
                let mut i: usize = 0;
                while i < n
                    invariant
                        i <= n,
                        n == cols@.len(),
                        out@.len() == i,
                        forall|j: int| 0 <= j < i ==> out.deep_view()[j] == cols.deep_view()[j],
                    decreases n - i,
                {
                    out.push(cols[i].clone());
                    i += 1;
                }
                proof {
                    assert(out.deep_view() =~= cols.deep_view());
                }
                Selection::Columns(out)
            },
        }
    }
}

impl Clone for Query {
    fn clone(&self) -> (r: Self)
        ensures
            r@ == self@,
    {
        let mut tables: Vec<Table> = Vec::new();
        let n = self.tables.len();
        let mut i: usize = 0;
        while i < n
            invariant
                i <= n,
                n == self.tables@.len(),
                tables@.len() == i,
                forall|j: int| 0 <= j < i ==> tables.deep_view()[j] == self.tables.deep_view()[j],
            decreases n - i,
        {
            let t = self.tables[i].clone();
            let ghost pre = tables.deep_view();
            tables.push(t);
            proof {
                assert forall|j: int| 0 <= j <= i as int implies tables.deep_view()[j]
                    == self.tables.deep_view()[j] by {
                    assert(tables.deep_view()[j] == tables@[j].deep_view());
                    if j < i as int {
                        assert(tables@[j].deep_view() == pre[j]);
                    }
                }
            }
            i += 1;
        }
        proof {
            assert(tables.deep_view() =~= self.tables.deep_view());
        }
        Query { selection: self.selection.clone(), tables, filter: self.filter.clone() }
    }
}

// ------------------------------------------------------------------
// Well-formedness of the syntax, as the grammar defines it.
// ------------------------------------------------------------------

/// An ASCII letter.
pub open spec fn is_letter(c: char) -> bool {
    (65 <= c as u32 <= 90) || (97 <= c as u32 <= 122)
}

/// An ASCII digit.
pub open spec fn is_digit_char(c: char) -> bool {
    48 <= c as u32 <= 57
}

/// A valid identifier: a letter followed by letters and digits.
pub open spec fn wf_ident(s: Seq<char>) -> bool {
    &&& s.len() > 0
    &&& is_letter(s[0])
    &&& forall|i: int| 0 < i < s.len() ==> is_letter(#[trigger] s[i]) || is_digit_char(s[i])
}

/// A letter folded to lower case, as a code point.
pub open spec fn lower_code(c: char) -> u32 {
    if 65 <= c as u32 <= 90 {
        (c as u32 + 32) as u32
    } else {
        c as u32
    }
}

/// Case-insensitive equality of character sequences.
pub open spec fn eq_ignore_case(a: Seq<char>, b: Seq<char>) -> bool {
    a.len() == b.len() && forall|i: int| 0 <= i < a.len() ==> lower_code(#[trigger] a[i]) == lower_code(b[i])
}

/// The reserved words of the language, matched case-insensitively.
pub open spec fn is_keyword(s: Seq<char>) -> bool {
    ||| eq_ignore_case(s, seq!['s', 'e', 'l', 'e', 'c', 't'])
    ||| eq_ignore_case(s, seq!['f', 'r', 'o', 'm'])
    ||| eq_ignore_case(s, seq!['w', 'h', 'e', 'r', 'e'])
    ||| eq_ignore_case(s, seq!['a', 's'])
    ||| eq_ignore_case(s, seq!['n', 'o', 't'])
    ||| eq_ignore_case(s, seq!['l', 'i', 'k', 'e'])
    ||| eq_ignore_case(s, seq!['t', 'r', 'u', 'e'])
    ||| eq_ignore_case(s, seq!['f', 'a', 'l', 's', 'e'])
}

/// An identifier that the parser will read back as an identifier: well
/// formed and not a reserved word.
pub open spec fn usable_ident(s: Seq<char>) -> bool {
    wf_ident(s) && !is_keyword(s)
}

/// A string literal body that renders back into itself: no unescaped quote
/// can be rendered, and every backslash must begin a valid escape.
pub open spec fn wf_string_body(s: Seq<char>) -> bool {
    &&& forall|i: int| 0 <= i < s.len() ==> #[trigger] s[i] != '"'
    &&& forall|i: int|
        0 <= i < s.len() && #[trigger] s[i] == '\\' ==> i + 1 < s.len() && (s[i + 1] == 'n' || s[i
            + 1] == '\\')
}

/// A selector the renderer and parser round-trip.
pub open spec fn wf_spec_selector(s: SpecColumnSelector) -> bool {
    &&& usable_ident(s.field)
    &&& match s.table {
        Some(t) => usable_ident(t),
        None => true,
    }
}

/// A filter value that is syntactically expressible in the language.
pub open spec fn wf_spec_filter(f: SpecFilter) -> bool
    decreases f,
{
    match f {
        SpecFilter::Id(cs) => wf_spec_selector(cs),
        SpecFilter::LitS(s) => wf_string_body(s),
        SpecFilter::LitB(_) => true,
        SpecFilter::LitI(i) => i64::MIN <= i <= i64::MAX,
        SpecFilter::UnaryOp(_, f1) => wf_spec_filter(*f1),
        SpecFilter::BinaryOp(_, l, r) => wf_spec_filter(*l) && wf_spec_filter(*r),
    }
}

/// A selection that is syntactically expressible: a listed selection names
/// at least one column.
pub open spec fn wf_spec_selection(s: SpecSelection) -> bool {
    match s {
        SpecSelection::Star => true,
        SpecSelection::Columns(cols) => cols.len() > 0 && forall|i: int|
            0 <= i < cols.len() ==> wf_spec_selector(#[trigger] cols[i]),
    }
}

/// A table reference with usable names.
pub open spec fn wf_spec_table(t: SpecTable) -> bool {
    &&& usable_ident(t.table_name)
    &&& match t.alias {
        Some(a) => usable_ident(a),
        None => true,
    }
}

/// A query value that is syntactically expressible in the language.
pub open spec fn wf_spec_query(q: SpecQuery) -> bool {
    &&& wf_spec_selection(q.selection)
    &&& q.tables.len() > 0
    &&& forall|i: int| 0 <= i < q.tables.len() ==> wf_spec_table(#[trigger] q.tables[i])
    &&& wf_spec_filter(q.filter)
}

} // verus!
