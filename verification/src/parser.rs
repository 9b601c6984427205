//! The parser: recursive descent with precedence climbing over the token
//! stream. `AND`, `EQ`, `LT` and `LIKE` share one precedence tier; only `OR`
//! binds more loosely; `NOT`, parentheses and literals bind tightest.
//!
//! The recursion is bounded by a fuel argument; one unit of fuel is spent
//! only when at least one token has been consumed, so any fuel beyond the
//! number of remaining tokens never runs out.

use vstd::prelude::*;

use crate::ast::{
    BinaryOp, ColumnSelector, Filter, Query, Selection, SpecColumnSelector, SpecFilter, SpecQuery,
    SpecSelection, SpecTable, Table, UnaryOp,
};
use crate::lexer::{lex_chars, spec_lex, ParseError, SpecTok, Tok};
use crate::strutil::str_to_chars;

verus! {

/// A column selector: an identifier, optionally qualified as
/// `table.field`.
pub open spec fn spec_p_selector(ts: Seq<SpecTok>, i: int) -> Option<(SpecColumnSelector, int)> {
    if 0 <= i < ts.len() && ts[i] is Ident {
        if i + 2 < ts.len() && ts[i + 1] is Dot && ts[i + 2] is Ident {
            Some(
                (
                    SpecColumnSelector {
                        table: Some(ts[i]->Ident_0),
                        field: ts[i + 2]->Ident_0,
                    },
                    i + 3,
                ),
            )
        } else {
            Some((SpecColumnSelector { table: None, field: ts[i]->Ident_0 }, i + 1))
        }
    } else {
        None
    }
}

/// The operators of the shared `term` precedence tier.
pub open spec fn is_term_op(t: SpecTok) -> bool {
    t is AndAnd || t is EqEq || t is Less || t is Like
}

/// The `Filter` operator a term-tier token stands for.
pub open spec fn term_op_of(t: SpecTok) -> BinaryOp {
    match t {
        SpecTok::AndAnd => BinaryOp::And,
        SpecTok::EqEq => BinaryOp::Eq,
        SpecTok::Less => BinaryOp::Lt,
        _ => BinaryOp::Like,
    }
}

/// A factor: a parenthesized expression, a negation, a literal or a column
/// reference.
pub open spec fn spec_p_factor(ts: Seq<SpecTok>, i: int, fuel: nat) -> Option<(SpecFilter, int)>
    decreases fuel, 0nat,
{
    if fuel == 0 || !(0 <= i < ts.len()) {
        None
    } else {
        match ts[i] {
            SpecTok::LParen => match spec_p_expression(ts, i + 1, (fuel - 1) as nat) {
                Some((f, j)) => if 0 <= j < ts.len() && ts[j] is RParen {
                    Some((f, j + 1))
                } else {
                    None
                },
                None => None,
            },
            SpecTok::Not => match spec_p_factor(ts, i + 1, (fuel - 1) as nat) {
                Some((f, j)) => Some((SpecFilter::UnaryOp(UnaryOp::Not, Box::new(f)), j)),
                None => None,
            },
            SpecTok::IntLit(v) => Some((SpecFilter::LitI(v), i + 1)),
            SpecTok::True => Some((SpecFilter::LitB(true), i + 1)),
            SpecTok::False => Some((SpecFilter::LitB(false), i + 1)),
            SpecTok::StrLit(s) => Some((SpecFilter::LitS(s), i + 1)),
            SpecTok::Ident(_) => match spec_p_selector(ts, i) {
                Some((sel, j)) => Some((SpecFilter::Id(sel), j)),
                None => None,
            },
            _ => None,
        }
    }
}

/// The left-associative chain of term-tier operators after a first factor.
pub open spec fn spec_p_term_rest(ts: Seq<SpecTok>, i: int, fuel: nat, acc: SpecFilter) -> Option<
    (SpecFilter, int),
>
    decreases fuel, 0nat,
{
    if 0 <= i < ts.len() && is_term_op(ts[i]) {
        if fuel == 0 {
            None
        } else {
            match spec_p_factor(ts, i + 1, (fuel - 1) as nat) {
                Some((f, j)) => spec_p_term_rest(
                    ts,
                    j,
                    (fuel - 1) as nat,
                    SpecFilter::BinaryOp(term_op_of(ts[i]), Box::new(acc), Box::new(f)),
                ),
                None => None,
            }
        }
    } else {
        Some((acc, i))
    }
}

/// A term: a factor followed by any chain of term-tier operators.
pub open spec fn spec_p_term(ts: Seq<SpecTok>, i: int, fuel: nat) -> Option<(SpecFilter, int)>
    decreases fuel, 1nat,
{
    match spec_p_factor(ts, i, fuel) {
        Some((f, j)) => spec_p_term_rest(ts, j, fuel, f),
        None => None,
    }
}

/// The left-associative chain of `OR`s after a first term.
pub open spec fn spec_p_expr_rest(ts: Seq<SpecTok>, i: int, fuel: nat, acc: SpecFilter) -> Option<
    (SpecFilter, int),
>
    decreases fuel, 0nat,
{
    if 0 <= i < ts.len() && ts[i] is OrOr {
        if fuel == 0 {
            None
        } else {
            match spec_p_term(ts, i + 1, (fuel - 1) as nat) {
                Some((f, j)) => spec_p_expr_rest(
                    ts,
                    j,
                    (fuel - 1) as nat,
                    SpecFilter::BinaryOp(BinaryOp::Or, Box::new(acc), Box::new(f)),
                ),
                None => None,
            }
        }
    } else {
        Some((acc, i))
    }
}

/// An expression: a term followed by any chain of `OR`s.
pub open spec fn spec_p_expression(ts: Seq<SpecTok>, i: int, fuel: nat) -> Option<
    (SpecFilter, int),
>
    decreases fuel, 2nat,
{
    match spec_p_term(ts, i, fuel) {
        Some((f, j)) => spec_p_expr_rest(ts, j, fuel, f),
        None => None,
    }
}

/// The columns of a listed selection after the first one: `, selector`
/// repeated.
pub open spec fn spec_p_columns_rest(
    ts: Seq<SpecTok>,
    i: int,
    acc: Seq<SpecColumnSelector>,
) -> Option<(Seq<SpecColumnSelector>, int)>
    decreases ts.len() - i when i >= 0 via spec_p_columns_rest_dec
{
    if 0 <= i < ts.len() && ts[i] is Comma {
        match spec_p_selector(ts, i + 1) {
            Some((c, j)) => spec_p_columns_rest(ts, j, acc.push(c)),
            None => None,
        }
    } else {
        Some((acc, i))
    }
}

#[via_fn]
proof fn spec_p_columns_rest_dec(ts: Seq<SpecTok>, i: int, acc: Seq<SpecColumnSelector>) {
}

/// A selection: `*`, or a non-empty comma-separated list of selectors.
pub open spec fn spec_p_selection(ts: Seq<SpecTok>, i: int) -> Option<(SpecSelection, int)> {
    if 0 <= i < ts.len() && ts[i] is Star {
        Some((SpecSelection::Star, i + 1))
    } else {
        match spec_p_selector(ts, i) {
            Some((c, j)) => match spec_p_columns_rest(ts, j, seq![c]) {
                Some((cols, j2)) => Some((SpecSelection::Columns(cols), j2)),
                None => None,
            },
            None => None,
        }
    }
}

/// A table reference: an identifier, optionally aliased with `AS`.
pub open spec fn spec_p_table(ts: Seq<SpecTok>, i: int) -> Option<(SpecTable, int)> {
    if 0 <= i < ts.len() && ts[i] is Ident {
        if i + 1 < ts.len() && ts[i + 1] is As {
            if i + 2 < ts.len() && ts[i + 2] is Ident {
                Some(
                    (
                        SpecTable {
                            table_name: ts[i]->Ident_0,
                            alias: Some(ts[i + 2]->Ident_0),
                        },
                        i + 3,
                    ),
                )
            } else {
                None
            }
        } else {
            Some((SpecTable { table_name: ts[i]->Ident_0, alias: None }, i + 1))
        }
    } else {
        None
    }
}

/// The tables of a `FROM` clause after the first one.
pub open spec fn spec_p_tables_rest(ts: Seq<SpecTok>, i: int, acc: Seq<SpecTable>) -> Option<
    (Seq<SpecTable>, int),
>
    decreases ts.len() - i when i >= 0 via spec_p_tables_rest_dec
{
    if 0 <= i < ts.len() && ts[i] is Comma {
        match spec_p_table(ts, i + 1) {
            Some((t, j)) => spec_p_tables_rest(ts, j, acc.push(t)),
            None => None,
        }
    } else {
        Some((acc, i))
    }
}

#[via_fn]
proof fn spec_p_tables_rest_dec(ts: Seq<SpecTok>, i: int, acc: Seq<SpecTable>) {
}

/// A whole query: `SELECT selection FROM tables WHERE expression`, with
/// nothing but the end of input after it.
pub open spec fn spec_p_query(ts: Seq<SpecTok>, i: int) -> Option<(SpecQuery, int)> {
    if 0 <= i < ts.len() && ts[i] is Select {
        match spec_p_selection(ts, i + 1) {
            None => None,
            Some((sel, j1)) => if j1 < ts.len() && ts[j1] is From {
                match spec_p_table(ts, j1 + 1) {
                    None => None,
                    Some((t, j2)) => match spec_p_tables_rest(ts, j2, seq![t]) {
                        None => None,
                        Some((tabs, j3)) => if j3 < ts.len() && ts[j3] is Where {
                            match spec_p_expression(ts, j3 + 1, (ts.len() - j3) as nat) {
                                None => None,
                                Some((f, j4)) => Some(
                                    (SpecQuery { selection: sel, tables: tabs, filter: f }, j4),
                                ),
                            }
                        } else {
                            None
                        },
                    },
                }
            } else {
                None
            },
        }
    } else {
        None
    }
}

/// The meaning of parsing query text: lex it, parse a query, and demand
/// that nothing but whitespace follows.
pub open spec fn spec_parse_sql(s: Seq<char>) -> Option<SpecQuery> {
    match spec_lex(s, 0) {
        None => None,
        Some(ts) => match spec_p_query(ts, 0) {
            None => None,
            Some((q, j)) => if j == ts.len() {
                Some(q)
            } else {
                None
            },
        },
    }
}

/// Reads one column selector.
fn p_selector(ts: &Vec<Tok>, i: usize) -> (r: Result<(ColumnSelector, usize), ParseError>)
    ensures
        match r {
            Ok((c, j)) => spec_p_selector(ts.deep_view(), i as int) == Some((c@, j as int)) && i
                < j <= ts@.len(),
            Err(_) => spec_p_selector(ts.deep_view(), i as int) is None,
        },
{
    let n = ts.len();
    if i < n {
        proof {
            assert(ts.deep_view()[i as int] == ts@[i as int]@);
        }
        match &ts[i] {
            Tok::Ident(first) => {
                if n - i > 2 {
                    proof {
                        assert(ts.deep_view()[i as int + 1] == ts@[i as int + 1]@);
                        assert(ts.deep_view()[i as int + 2] == ts@[i as int + 2]@);
                    }
                    let second_is_dot = matches!(&ts[i + 1], Tok::Dot);
                    if second_is_dot {
                        match &ts[i + 2] {
                            Tok::Ident(field) => {
                                return Ok(
                                    (
                                        ColumnSelector {
                                            table: Some(first.clone()),
                                            field: field.clone(),
                                        },
                                        i + 3,
                                    ),
                                );
                            },
                            _ => {
                                return Ok(
                                    (ColumnSelector { table: None, field: first.clone() }, i + 1),
                                );
                            },
                        }
                    }
                }
                Ok((ColumnSelector { table: None, field: first.clone() }, i + 1))
            },
            _ => Err(ParseError { pos: i }),
        }
    } else {
        Err(ParseError { pos: i })
    }
}

/// Reads one factor.
fn p_factor(ts: &Vec<Tok>, i: usize, fuel: usize) -> (r: Result<(Filter, usize), ParseError>)
    ensures
        match r {
            Ok((f, j)) => spec_p_factor(ts.deep_view(), i as int, fuel as nat) == Some(
                (f@, j as int),
            ) && i < j <= ts@.len(),
            Err(_) => spec_p_factor(ts.deep_view(), i as int, fuel as nat) is None,
        },
    decreases fuel, 0nat,
{
    let n = ts.len();
    if fuel == 0 || i >= n {
        return Err(ParseError { pos: i });
    }
    proof {
        assert(ts.deep_view()[i as int] == ts@[i as int]@);
    }
    match &ts[i] {
        Tok::LParen => {
            match p_expression(ts, i + 1, fuel - 1) {
                Ok((f, j)) => {
                    if j < n {
                        proof {
                            assert(ts.deep_view()[j as int] == ts@[j as int]@);
                        }
                        let is_rparen = matches!(&ts[j], Tok::RParen);
                        if is_rparen {
                            Ok((f, j + 1))
                        } else {
                            Err(ParseError { pos: j })
                        }
                    } else {
                        Err(ParseError { pos: j })
                    }
                },
                Err(e) => Err(e),
            }
        },
        Tok::Not => {
            match p_factor(ts, i + 1, fuel - 1) {
                Ok((f, j)) => Ok((Filter::UnaryOp(UnaryOp::Not, Box::new(f)), j)),
                Err(e) => Err(e),
            }
        },
        Tok::IntLit(v) => Ok((Filter::LitI(*v), i + 1)),
        Tok::True => Ok((Filter::LitB(true), i + 1)),
        Tok::False => Ok((Filter::LitB(false), i + 1)),
        Tok::StrLit(s) => Ok((Filter::LitS(s.clone()), i + 1)),
        Tok::Ident(_) => {
            match p_selector(ts, i) {
                Ok((sel, j)) => Ok((Filter::Id(sel), j)),
                Err(e) => Err(e),
            }
        },
        _ => Err(ParseError { pos: i }),
    }
}

/// Reads the chain of term-tier operators after a first factor.
fn p_term_rest(ts: &Vec<Tok>, i: usize, fuel: usize, acc: Filter) -> (r: Result<
    (Filter, usize),
    ParseError,
>)
    requires
        i <= ts@.len(),
    ensures
        match r {
            Ok((f, j)) => spec_p_term_rest(ts.deep_view(), i as int, fuel as nat, acc@) == Some(
                (f@, j as int),
            ) && i <= j <= ts@.len(),
            Err(_) => spec_p_term_rest(ts.deep_view(), i as int, fuel as nat, acc@) is None,
        },
    decreases fuel, 0nat,
{
    let n = ts.len();
    if i < n {
        proof {
            assert(ts.deep_view()[i as int] == ts@[i as int]@);
        }
        let op = match &ts[i] {
            Tok::AndAnd => Some(BinaryOp::And),
            Tok::EqEq => Some(BinaryOp::Eq),
            Tok::Less => Some(BinaryOp::Lt),
            Tok::Like => Some(BinaryOp::Like),
            _ => None,
        };
        match op {
            Some(bop) => {
                if fuel == 0 {
                    return Err(ParseError { pos: i });
                }
                match p_factor(ts, i + 1, fuel - 1) {
                    Ok((f, j)) => {
                        let combined = Filter::BinaryOp(bop, Box::new(acc), Box::new(f));
                        p_term_rest(ts, j, fuel - 1, combined)
                    },
                    Err(e) => Err(e),
                }
            },
            None => Ok((acc, i)),
        }
    } else {
        Ok((acc, i))
    }
}

/// Reads one term.
fn p_term(ts: &Vec<Tok>, i: usize, fuel: usize) -> (r: Result<(Filter, usize), ParseError>)
    ensures
        match r {
            Ok((f, j)) => spec_p_term(ts.deep_view(), i as int, fuel as nat) == Some(
                (f@, j as int),
            ) && i <= j <= ts@.len(),
            Err(_) => spec_p_term(ts.deep_view(), i as int, fuel as nat) is None,
        },
    decreases fuel, 1nat,
{
    match p_factor(ts, i, fuel) {
        Ok((f, j)) => p_term_rest(ts, j, fuel, f),
        Err(e) => Err(e),
    }
}

/// Reads the chain of `OR`s after a first term.
fn p_expr_rest(ts: &Vec<Tok>, i: usize, fuel: usize, acc: Filter) -> (r: Result<
    (Filter, usize),
    ParseError,
>)
    requires
        i <= ts@.len(),
    ensures
        match r {
            Ok((f, j)) => spec_p_expr_rest(ts.deep_view(), i as int, fuel as nat, acc@) == Some(
                (f@, j as int),
            ) && i <= j <= ts@.len(),
            Err(_) => spec_p_expr_rest(ts.deep_view(), i as int, fuel as nat, acc@) is None,
        },
    decreases fuel, 0nat,
{
    let n = ts.len();
    if i < n {
        proof {
            assert(ts.deep_view()[i as int] == ts@[i as int]@);
        }
        let is_or = matches!(&ts[i], Tok::OrOr);
        if is_or {
            if fuel == 0 {
                return Err(ParseError { pos: i });
            }
            match p_term(ts, i + 1, fuel - 1) {
                Ok((f, j)) => {
                    let combined = Filter::BinaryOp(BinaryOp::Or, Box::new(acc), Box::new(f));
                    p_expr_rest(ts, j, fuel - 1, combined)
                },
                Err(e) => Err(e),
            }
        } else {
            Ok((acc, i))
        }
    } else {
        Ok((acc, i))
    }
}

/// Reads one expression.
fn p_expression(ts: &Vec<Tok>, i: usize, fuel: usize) -> (r: Result<(Filter, usize), ParseError>)
    ensures
        match r {
            Ok((f, j)) => spec_p_expression(ts.deep_view(), i as int, fuel as nat) == Some(
                (f@, j as int),
            ) && i <= j <= ts@.len(),
            Err(_) => spec_p_expression(ts.deep_view(), i as int, fuel as nat) is None,
        },
    decreases fuel, 2nat,
{
    match p_term(ts, i, fuel) {
        Ok((f, j)) => p_expr_rest(ts, j, fuel, f),
        Err(e) => Err(e),
    }
}

/// Reads the selection clause.
#[verifier::loop_isolation(false)]
fn p_selection(ts: &Vec<Tok>, i: usize) -> (r: Result<(Selection, usize), ParseError>)
    ensures
        match r {
            Ok((sel, j)) => spec_p_selection(ts.deep_view(), i as int) == Some(
                (sel@, j as int),
            ) && i <= j <= ts@.len(),
            Err(_) => spec_p_selection(ts.deep_view(), i as int) is None,
        },
{
    let n = ts.len();
    if i < n {
        proof {
            assert(ts.deep_view()[i as int] == ts@[i as int]@);
        }
        let is_star = matches!(&ts[i], Tok::Star);
        if is_star {
            return Ok((Selection::Star, i + 1));
        }
    }
    let (first, j0) = match p_selector(ts, i) {
        Ok(p) => p,
        Err(e) => {
            return Err(e);
        },
    };
    let mut cols: Vec<ColumnSelector> = Vec::new();
    cols.push(first);
    proof {
        assert(cols.deep_view() =~= seq![ts.deep_view()[i as int]].map_values(
            |t: SpecTok| SpecColumnSelector { table: None, field: Seq::empty() },
        ).take(0).add(seq![cols@[0]@]));
        assert(cols.deep_view() =~= seq![cols@[0]@]);
    }
    let ghost acc0 = cols.deep_view();
    let mut cur: usize = j0;
    let mut done = false;
    while !done
        invariant
            j0 <= cur <= ts@.len(),
            cols@.len() >= 1,
            spec_p_columns_rest(ts.deep_view(), j0 as int, acc0) == spec_p_columns_rest(
                ts.deep_view(),
                cur as int,
                cols.deep_view(),
            ),
            done ==> spec_p_columns_rest(ts.deep_view(), cur as int, cols.deep_view()) == Some(
                (cols.deep_view(), cur as int),
            ),
        decreases
                (if done {
                    0int
                } else {
                    1int
                }),
                ts@.len() - cur,
    {
        let has_comma = cur < ts.len() && matches!(&ts[cur], Tok::Comma);
        proof {
            if cur < ts@.len() {
                assert(ts.deep_view()[cur as int] == ts@[cur as int]@);
            }
        }
        if !has_comma {
            done = true;
        } else {
        match p_selector(ts, cur + 1) {
            Ok((c, j)) => {
                let ghost pre = cols.deep_view();
                let ghost pre_vec = cols@;
                cols.push(c);
                proof {
                    assert forall|q: int| 0 <= q < cols@.len() implies cols.deep_view()[q]
                        == pre.push(cols@[cols@.len() - 1]@)[q] by {
                        assert(cols.deep_view()[q] == cols@[q].deep_view());
                        if q < pre_vec.len() {
                            assert(cols@[q] == pre_vec[q]);
                            assert(pre_vec[q].deep_view() == pre[q]);
                        }
                    }
                    assert(cols.deep_view() =~= pre.push(c@));
                }
                cur = j;
            },
            Err(e) => {
                proof {
                    assert(spec_p_columns_rest(ts.deep_view(), cur as int, cols.deep_view())
                        is None);
                }
                return Err(e);
            },
        }
        }
    }
    Ok((Selection::Columns(cols), cur))
}

/// Reads one table reference.
fn p_table(ts: &Vec<Tok>, i: usize) -> (r: Result<(Table, usize), ParseError>)
    ensures
        match r {
            Ok((t, j)) => spec_p_table(ts.deep_view(), i as int) == Some((t@, j as int)) && i < j
                <= ts@.len(),
            Err(_) => spec_p_table(ts.deep_view(), i as int) is None,
        },
{
    let n = ts.len();
    if i < n {
        proof {
            assert(ts.deep_view()[i as int] == ts@[i as int]@);
        }
        match &ts[i] {
            Tok::Ident(name) => {
                if i + 1 < n {
                    proof {
                        assert(ts.deep_view()[i as int + 1] == ts@[i as int + 1]@);
                    }
                    let next_is_as = matches!(&ts[i + 1], Tok::As);
                    if next_is_as {
                        if i + 2 < n {
                            proof {
                                assert(ts.deep_view()[i as int + 2] == ts@[i as int + 2]@);
                            }
                            match &ts[i + 2] {
                                Tok::Ident(alias) => {
                                    return Ok(
                                        (
                                            Table {
                                                table_name: name.clone(),
                                                alias: Some(alias.clone()),
                                            },
                                            i + 3,
                                        ),
                                    );
                                },
                                _ => {
                                    return Err(ParseError { pos: i + 2 });
                                },
                            }
                        } else {
                            return Err(ParseError { pos: i + 2 });
                        }
                    }
                }
                Ok((Table { table_name: name.clone(), alias: None }, i + 1))
            },
            _ => Err(ParseError { pos: i }),
        }
    } else {
        Err(ParseError { pos: i })
    }
}

/// Reads the table list of a `FROM` clause.
#[verifier::loop_isolation(false)]
fn p_tables(ts: &Vec<Tok>, i: usize) -> (r: Result<(Vec<Table>, usize), ParseError>)
    ensures
        match r {
            Ok((tabs, j)) => {
                &&& spec_p_table(ts.deep_view(), i as int) is Some
                &&& spec_p_tables_rest(
                    ts.deep_view(),
                    spec_p_table(ts.deep_view(), i as int)->Some_0.1,
                    seq![spec_p_table(ts.deep_view(), i as int)->Some_0.0],
                ) == Some((tabs.deep_view(), j as int))
                &&& i <= j <= ts@.len()
            },
            Err(_) => spec_p_table(ts.deep_view(), i as int) is None || spec_p_tables_rest(
                ts.deep_view(),
                spec_p_table(ts.deep_view(), i as int)->Some_0.1,
                seq![spec_p_table(ts.deep_view(), i as int)->Some_0.0],
            ) is None,
        },
{
    let (first, j0) = match p_table(ts, i) {
        Ok(p) => p,
        Err(e) => {
            return Err(e);
        },
    };
    let mut tabs: Vec<Table> = Vec::new();
    tabs.push(first);
    proof {
        assert(tabs.deep_view() =~= seq![tabs@[0]@]);
    }
    let ghost acc0 = tabs.deep_view();
    let mut cur: usize = j0;
    let mut done = false;
    while !done
        invariant
            j0 <= cur <= ts@.len(),
            spec_p_tables_rest(ts.deep_view(), j0 as int, acc0) == spec_p_tables_rest(
                ts.deep_view(),
                cur as int,
                tabs.deep_view(),
            ),
            done ==> spec_p_tables_rest(ts.deep_view(), cur as int, tabs.deep_view()) == Some(
                (tabs.deep_view(), cur as int),
            ),
        decreases
                (if done {
                    0int
                } else {
                    1int
                }),
                ts@.len() - cur,
    {
        let has_comma = cur < ts.len() && matches!(&ts[cur], Tok::Comma);
        proof {
            if cur < ts@.len() {
                assert(ts.deep_view()[cur as int] == ts@[cur as int]@);
            }
        }
        if !has_comma {
            done = true;
        } else {
        match p_table(ts, cur + 1) {
            Ok((t, j)) => {
                let ghost pre = tabs.deep_view();
                let ghost pre_vec = tabs@;
                tabs.push(t);
                proof {
                    assert forall|q: int| 0 <= q < tabs@.len() implies tabs.deep_view()[q]
                        == pre.push(tabs@[tabs@.len() - 1]@)[q] by {
                        assert(tabs.deep_view()[q] == tabs@[q].deep_view());
                        if q < pre_vec.len() {
                            assert(tabs@[q] == pre_vec[q]);
                            assert(pre_vec[q].deep_view() == pre[q]);
                        }
                    }
                    assert(tabs.deep_view() =~= pre.push(t@));
                }
                cur = j;
            },
            Err(e) => {
                proof {
                    assert(spec_p_tables_rest(ts.deep_view(), cur as int, tabs.deep_view())
                        is None);
                }
                return Err(e);
            },
        }
        }
    }
    Ok((tabs, cur))
}

/// Reads a whole query from the token stream, which must be consumed
/// entirely.
fn p_query(ts: &Vec<Tok>) -> (r: Result<Query, ParseError>)
    ensures
        match r {
            Ok(q) => spec_p_query(ts.deep_view(), 0) matches Some((sq, j)) && q@ == sq && j
                == ts.deep_view().len(),
            Err(_) => spec_p_query(ts.deep_view(), 0) is None || spec_p_query(
                ts.deep_view(),
                0,
            )->Some_0.1 != ts.deep_view().len(),
        },
{
    let n = ts.len();
    if n == 0 {
        return Err(ParseError { pos: 0 });
    }
    proof {
        assert(ts.deep_view()[0] == ts@[0]@);
    }
    let starts_select = matches!(&ts[0], Tok::Select);
    if !starts_select {
        return Err(ParseError { pos: 0 });
    }
    let (selection, j1) = match p_selection(ts, 1) {
        Ok(p) => p,
        Err(e) => {
            return Err(e);
        },
    };
    if !(j1 < n) {
        return Err(ParseError { pos: j1 });
    }
    proof {
        assert(ts.deep_view()[j1 as int] == ts@[j1 as int]@);
    }
    let has_from = matches!(&ts[j1], Tok::From);
    if !has_from {
        return Err(ParseError { pos: j1 });
    }
    let (tables, j3) = match p_tables(ts, j1 + 1) {
        Ok(p) => p,
        Err(e) => {
            return Err(e);
        },
    };
    if !(j3 < n) {
        return Err(ParseError { pos: j3 });
    }
    proof {
        assert(ts.deep_view()[j3 as int] == ts@[j3 as int]@);
    }
    let has_where = matches!(&ts[j3], Tok::Where);
    if !has_where {
        return Err(ParseError { pos: j3 });
    }
    let fuel = n - j3;
    let (filter, j4) = match p_expression(ts, j3 + 1, fuel) {
        Ok(p) => p,
        Err(e) => {
            return Err(e);
        },
    };
    if j4 != n {
        return Err(ParseError { pos: j4 });
    }
    Ok(Query { selection, tables, filter })
}

/// Parses query text: lexes it and reads one whole query, demanding that
/// nothing but whitespace follows.
pub fn parse_sql(input: &str) -> (r: Result<Query, ParseError>)
    ensures
        match spec_parse_sql(input@) {
            Some(q) => r matches Ok(query) && query@ == q,
            None => r is Err,
        },
{
    let chars = str_to_chars(input);
    let tokens = match lex_chars(&chars) {
        Ok(ts) => ts,
        Err(e) => {
            return Err(e);
        },
    };
    p_query(&tokens)
}

/// Parses query text as `parse_sql` does; the historical entry point named
/// after the grammar's start symbol.
pub fn query(input: &str) -> (r: Result<Query, ParseError>)
    ensures
        match spec_parse_sql(input@) {
            Some(q) => r matches Ok(query) && query@ == q,
            None => r is Err,
        },
{
    parse_sql(input)
}

/// Parses a whole input as a single filter expression.
pub fn expression(input: &str) -> (r: Result<Filter, ParseError>)
    ensures
        match spec_lex(input@, 0) {
            None => r is Err,
            Some(ts) => match spec_p_expression(ts, 0, ts.len() as nat) {
                Some((f, j)) => if j == ts.len() {
                    r matches Ok(filter) && filter@ == f
                } else {
                    r is Err
                },
                None => r is Err,
            },
        },
{
    let chars = str_to_chars(input);
    let tokens = match lex_chars(&chars) {
        Ok(ts) => ts,
        Err(e) => {
            return Err(e);
        },
    };
    let fuel = tokens.len();
    match p_expression(&tokens, 0, fuel) {
        Ok((f, j)) => {
            if j == tokens.len() {
                Ok(f)
            } else {
                Err(ParseError { pos: j })
            }
        },
        Err(e) => Err(e),
    }
}

/// Parses a whole input as a single string literal, yielding its raw body
/// (escape sequences are kept as written).
pub fn p_string(input: &str) -> (r: Result<String, ParseError>)
    ensures
        match spec_lex(input@, 0) {
            None => r is Err,
            Some(ts) => if ts.len() == 1 && ts[0] is StrLit {
                r matches Ok(body) && body@ == ts[0]->StrLit_0
            } else {
                r is Err
            },
        },
{
    let chars = str_to_chars(input);
    let tokens = match lex_chars(&chars) {
        Ok(ts) => ts,
        Err(e) => {
            return Err(e);
        },
    };
    if tokens.len() != 1 {
        return Err(ParseError { pos: 0 });
    }
    proof {
        assert(tokens.deep_view()[0] == tokens@[0]@);
    }
    let tok = match &tokens[0] {
        Tok::StrLit(s) => Ok(s.clone()),
        _ => Err(ParseError { pos: 0 }),
    };
    tok
}

} // verus!
