//! The round-trip law: rendering a query and parsing the result recovers
//! the same tree. Proved in two halves: the parser inverts the token
//! rendering, and the lexer inverts the token texts.

use vstd::prelude::*;

use crate::ast::{
    SpecColumnSelector, SpecFilter, SpecQuery, SpecSelection, SpecTable, wf_spec_filter,
    wf_spec_query, wf_spec_selection, wf_spec_selector, wf_spec_table,
};
use crate::ast::{is_digit_char, is_keyword, is_letter, usable_ident, wf_string_body};
use crate::lexer::{
    digits_end, digits_val, is_space_char, is_word_char, spec_lex, str_body_end, token_at,
    word_end, SpecTok,
};
use crate::render::{dec_digits, digit_char, spec_text_of, spec_tok_text};
use crate::parser::{
    is_term_op, spec_p_columns_rest, spec_p_expr_rest, spec_p_expression, spec_p_factor,
    spec_p_query, spec_p_selection, spec_p_selector, spec_p_table, spec_p_tables_rest,
    spec_p_term, spec_p_term_rest, term_op_of,
};
use crate::render::{
    spec_tokens_columns, spec_tokens_filter, spec_tokens_query, spec_tokens_selection,
    spec_tokens_selector, spec_tokens_table, spec_tokens_tables, tok_of_bop,
};

verus! {

/// A token that can follow a complete rendered factor without changing how
/// it parses.
pub open spec fn factor_follow_ok(t: SpecTok) -> bool {
    !(t is Dot)
}

/// Parsing a rendered selector recovers it.
pub proof fn lemma_rt_selector(ts: Seq<SpecTok>, i: int, cs: SpecColumnSelector)
    requires
        0 <= i,
        i + spec_tokens_selector(cs).len() <= ts.len(),
        ts.subrange(i, i + spec_tokens_selector(cs).len()) == spec_tokens_selector(cs),
        i + spec_tokens_selector(cs).len() < ts.len() ==> factor_follow_ok(
            ts[i + spec_tokens_selector(cs).len()],
        ),
    ensures
        spec_p_selector(ts, i) == Some((cs, i + spec_tokens_selector(cs).len())),
{
    let toks = spec_tokens_selector(cs);
    let sub = ts.subrange(i, i + toks.len());
    match cs.table {
        Some(t) => {
            assert(ts[i] == sub[0]);
            assert(ts[i + 1] == sub[1]);
            assert(ts[i + 2] == sub[2]);
        },
        None => {
            assert(ts[i] == sub[0]);
        },
    }
}

/// Parsing a rendered factor recovers it: every composite filter renders
/// parenthesized, so any well-formed filter's rendering is one factor.
pub proof fn lemma_rt_factor(ts: Seq<SpecTok>, i: int, fuel: nat, f: SpecFilter)
    requires
        0 <= i,
        i + spec_tokens_filter(f).len() <= ts.len(),
        ts.subrange(i, i + spec_tokens_filter(f).len()) == spec_tokens_filter(f),
        i + spec_tokens_filter(f).len() < ts.len() ==> factor_follow_ok(
            ts[i + spec_tokens_filter(f).len()],
        ),
        fuel >= ts.len() - i,
    ensures
        spec_p_factor(ts, i, fuel) == Some((f, i + spec_tokens_filter(f).len())),
    decreases f,
{
    let toks = spec_tokens_filter(f);
    let ln = toks.len() as int;
    let sub = ts.subrange(i, i + ln);
    match f {
        SpecFilter::Id(cs) => {
            assert(ts[i] == sub[0]);
            lemma_rt_selector(ts, i, cs);
        },
        SpecFilter::LitS(_) => {
            assert(ts[i] == sub[0]);
        },
        SpecFilter::LitB(_) => {
            assert(ts[i] == sub[0]);
        },
        SpecFilter::LitI(_) => {
            assert(ts[i] == sub[0]);
        },
        SpecFilter::UnaryOp(_, f1) => {
            let t1 = spec_tokens_filter(*f1);
            let l1 = t1.len() as int;
            let whole = seq![SpecTok::LParen, SpecTok::Not].add(t1).push(SpecTok::RParen);
            assert(sub == whole);
            assert(whole.len() == 3 + l1);
            assert(whole[0] == SpecTok::LParen);
            assert(whole[1] == SpecTok::Not);
            assert(whole[2 + l1] == SpecTok::RParen);
            assert(ts[i] == sub[0] && ts[i] is LParen);
            assert(ts[i + 1] == sub[1] && ts[i + 1] is Not);
            assert(ts.subrange(i + 2, i + 2 + l1) =~= t1) by {
                assert forall|k: int| 0 <= k < l1 implies ts.subrange(i + 2, i + 2 + l1)[k]
                    == t1[k] by {
                    assert(ts.subrange(i + 2, i + 2 + l1)[k] == ts[i + 2 + k]);
                    assert(ts[i + 2 + k] == sub[2 + k]);
                    assert(sub[2 + k] == whole[2 + k]);
                }
            }
            let j = i + 2 + l1;
            assert(ts[j] == sub[2 + l1] && sub[2 + l1] == whole[2 + l1] && ts[j] is RParen);
            lemma_rt_factor(ts, i + 2, (fuel - 2) as nat, *f1);
            // inside the parentheses: factor(i+1) reads NOT then the operand
            assert(spec_p_factor(ts, i + 1, (fuel - 1) as nat) == Some((f, j)));
            // the term and expression layers pass the factor through
            assert(spec_p_term_rest(ts, j, (fuel - 1) as nat, f) == Some((f, j)));
            assert(spec_p_term(ts, i + 1, (fuel - 1) as nat) == Some((f, j)));
            assert(spec_p_expr_rest(ts, j, (fuel - 1) as nat, f) == Some((f, j)));
            assert(spec_p_expression(ts, i + 1, (fuel - 1) as nat) == Some((f, j)));
            assert(spec_p_factor(ts, i, fuel) == Some((f, j + 1)));
        },
        SpecFilter::BinaryOp(op, l, r) => {
            let tl = spec_tokens_filter(*l);
            let ll = tl.len() as int;
            let tr = spec_tokens_filter(*r);
            let lr = tr.len() as int;
            let whole = seq![SpecTok::LParen].add(tl).push(tok_of_bop(op)).add(tr).push(
                SpecTok::RParen,
            );
            assert(sub == whole);
            assert(whole.len() == 3 + ll + lr);
            assert(whole[0] == SpecTok::LParen);
            assert(whole[1 + ll] == tok_of_bop(op)) by {
                assert(seq![SpecTok::LParen].add(tl).push(tok_of_bop(op))[1 + ll] == tok_of_bop(
                    op,
                ));
            }
            assert(whole[2 + ll + lr] == SpecTok::RParen);
            assert(ts[i] == sub[0] && ts[i] is LParen);
            assert(ts.subrange(i + 1, i + 1 + ll) =~= tl) by {
                assert forall|k: int| 0 <= k < ll implies ts.subrange(i + 1, i + 1 + ll)[k]
                    == tl[k] by {
                    assert(ts.subrange(i + 1, i + 1 + ll)[k] == ts[i + 1 + k]);
                    assert(ts[i + 1 + k] == sub[1 + k]);
                    assert(sub[1 + k] == whole[1 + k]);
                }
            }
            let jl = i + 1 + ll;
            assert(ts[jl] == sub[1 + ll] && ts[jl] == tok_of_bop(op));
            assert(ts.subrange(jl + 1, jl + 1 + lr) =~= tr) by {
                assert forall|k: int| 0 <= k < lr implies ts.subrange(jl + 1, jl + 1 + lr)[k]
                    == tr[k] by {
                    assert(ts.subrange(jl + 1, jl + 1 + lr)[k] == ts[jl + 1 + k]);
                    assert(ts[jl + 1 + k] == sub[2 + ll + k]);
                    assert(sub[2 + ll + k] == whole[2 + ll + k]);
                }
            }
            let jr = jl + 1 + lr;
            assert(ts[jr] == sub[2 + ll + lr] && ts[jr] is RParen);
            lemma_rt_factor(ts, i + 1, (fuel - 1) as nat, *l);
            lemma_rt_factor(ts, jl + 1, (fuel - 2) as nat, *r);
            if op is Or {
                // the left term stops at `||`, the OR chain reads the right
                assert(spec_p_term_rest(ts, jl, (fuel - 1) as nat, *l) == Some((*l, jl)));
                assert(spec_p_term(ts, i + 1, (fuel - 1) as nat) == Some((*l, jl)));
                assert(spec_p_term_rest(ts, jr, (fuel - 2) as nat, *r) == Some((*r, jr)));
                assert(spec_p_term(ts, jl + 1, (fuel - 2) as nat) == Some((*r, jr)));
                assert(spec_p_expr_rest(ts, jr, (fuel - 2) as nat, f) == Some((f, jr)));
                assert(spec_p_expr_rest(ts, jl, (fuel - 1) as nat, *l) == Some((f, jr)));
                assert(spec_p_expression(ts, i + 1, (fuel - 1) as nat) == Some((f, jr)));
            } else {
                // the shared tier reads the operator and the right factor
                assert(is_term_op(ts[jl]) && term_op_of(ts[jl]) == op);
                assert(spec_p_term_rest(ts, jr, (fuel - 2) as nat, f) == Some((f, jr)));
                assert(spec_p_term_rest(ts, jl, (fuel - 1) as nat, *l) == Some((f, jr)));
                assert(spec_p_term(ts, i + 1, (fuel - 1) as nat) == Some((f, jr)));
                assert(spec_p_expr_rest(ts, jr, (fuel - 1) as nat, f) == Some((f, jr)));
                assert(spec_p_expression(ts, i + 1, (fuel - 1) as nat) == Some((f, jr)));
            }
            assert(spec_p_factor(ts, i, fuel) == Some((f, jr + 1)));
        },
    }
}

/// Parsing a rendered filter as an expression recovers it, provided the
/// next token neither extends a selector nor continues an operator chain.
pub proof fn lemma_rt_expression(ts: Seq<SpecTok>, i: int, fuel: nat, f: SpecFilter)
    requires
        0 <= i,
        i + spec_tokens_filter(f).len() <= ts.len(),
        ts.subrange(i, i + spec_tokens_filter(f).len()) == spec_tokens_filter(f),
        i + spec_tokens_filter(f).len() < ts.len() ==> {
            let t = ts[i + spec_tokens_filter(f).len()];
            factor_follow_ok(t) && !is_term_op(t) && !(t is OrOr)
        },
        fuel >= ts.len() - i,
    ensures
        spec_p_expression(ts, i, fuel) == Some((f, i + spec_tokens_filter(f).len())),
{
    let j = i + spec_tokens_filter(f).len();
    lemma_rt_factor(ts, i, fuel, f);
    assert(spec_p_term_rest(ts, j, fuel, f) == Some((f, j)));
    assert(spec_p_term(ts, i, fuel) == Some((f, j)));
    assert(spec_p_expr_rest(ts, j, fuel, f) == Some((f, j)));
}

/// The tokens a column list contributes after its first selector.
pub open spec fn tail_tokens_columns(rest: Seq<SpecColumnSelector>) -> Seq<SpecTok> {
    if rest.len() == 0 {
        Seq::empty()
    } else {
        seq![SpecTok::Comma].add(spec_tokens_columns(rest))
    }
}

/// The tokens a table list contributes after its first table.
pub open spec fn tail_tokens_tables(rest: Seq<SpecTable>) -> Seq<SpecTok> {
    if rest.len() == 0 {
        Seq::empty()
    } else {
        seq![SpecTok::Comma].add(spec_tokens_tables(rest))
    }
}

/// A non-empty column list's tokens split into its head selector and the
/// comma-led tail.
pub proof fn lemma_tokens_columns_head(cols: Seq<SpecColumnSelector>)
    requires
        cols.len() >= 1,
    ensures
        spec_tokens_columns(cols) == spec_tokens_selector(cols[0]).add(
            tail_tokens_columns(cols.drop_first()),
        ),
{
    if cols.len() == 1 {
        assert(spec_tokens_selector(cols[0]).add(Seq::<SpecTok>::empty()) =~= spec_tokens_selector(
            cols[0],
        ));
    } else {
        assert(spec_tokens_selector(cols[0]).push(SpecTok::Comma).add(
            spec_tokens_columns(cols.drop_first()),
        ) =~= spec_tokens_selector(cols[0]).add(
            seq![SpecTok::Comma].add(spec_tokens_columns(cols.drop_first())),
        ));
    }
}

/// A non-empty table list's tokens split into its head table and the
/// comma-led tail.
pub proof fn lemma_tokens_tables_head(tabs: Seq<SpecTable>)
    requires
        tabs.len() >= 1,
    ensures
        spec_tokens_tables(tabs) == spec_tokens_table(tabs[0]).add(
            tail_tokens_tables(tabs.drop_first()),
        ),
{
    if tabs.len() == 1 {
        assert(spec_tokens_table(tabs[0]).add(Seq::<SpecTok>::empty()) =~= spec_tokens_table(
            tabs[0],
        ));
    } else {
        assert(spec_tokens_table(tabs[0]).push(SpecTok::Comma).add(
            spec_tokens_tables(tabs.drop_first()),
        ) =~= spec_tokens_table(tabs[0]).add(
            seq![SpecTok::Comma].add(spec_tokens_tables(tabs.drop_first())),
        ));
    }
}

/// Parsing the comma-led tail of a rendered column list appends exactly the
/// remaining selectors to the accumulator.
pub proof fn lemma_rt_columns_rest(
    ts: Seq<SpecTok>,
    i: int,
    rest: Seq<SpecColumnSelector>,
    acc: Seq<SpecColumnSelector>,
)
    requires
        0 <= i,
        i + tail_tokens_columns(rest).len() <= ts.len(),
        ts.subrange(i, i + tail_tokens_columns(rest).len()) == tail_tokens_columns(rest),
        i + tail_tokens_columns(rest).len() < ts.len() ==> {
            let t = ts[i + tail_tokens_columns(rest).len()];
            !(t is Comma) && !(t is Dot)
        },
    ensures
        spec_p_columns_rest(ts, i, acc) == Some(
            (acc.add(rest), i + tail_tokens_columns(rest).len()),
        ),
    decreases rest.len(),
{
    let tail = tail_tokens_columns(rest);
    let sub = ts.subrange(i, i + tail.len());
    if rest.len() == 0 {
        assert(acc.add(rest) =~= acc);
        if i < ts.len() {
            assert(!(ts[i] is Comma));
        }
    } else {
        lemma_tokens_columns_head(rest);
        let s0 = spec_tokens_selector(rest[0]);
        let l0 = s0.len() as int;
        let tail2 = tail_tokens_columns(rest.drop_first());
        let whole = seq![SpecTok::Comma].add(s0.add(tail2));
        assert(spec_tokens_columns(rest) == s0.add(tail2));
        assert(sub == whole);
        assert(whole.len() == 1 + l0 + tail2.len());
        assert(whole[0] == SpecTok::Comma);
        assert(ts[i] == sub[0] && ts[i] is Comma);
        assert(ts.subrange(i + 1, i + 1 + l0) =~= s0) by {
            assert forall|k: int| 0 <= k < l0 implies ts.subrange(i + 1, i + 1 + l0)[k]
                == s0[k] by {
                assert(ts.subrange(i + 1, i + 1 + l0)[k] == ts[i + 1 + k]);
                assert(ts[i + 1 + k] == sub[1 + k]);
                assert(sub[1 + k] == whole[1 + k]);
                assert(whole[1 + k] == s0.add(tail2)[k]);
            }
        }
        let j = i + 1 + l0;
        assert(ts.subrange(j, j + tail2.len() as int) =~= tail2) by {
            assert forall|k: int| 0 <= k < tail2.len() implies ts.subrange(
                j,
                j + tail2.len() as int,
            )[k] == tail2[k] by {
                assert(ts.subrange(j, j + tail2.len() as int)[k] == ts[j + k]);
                assert(ts[j + k] == sub[1 + l0 + k]);
                assert(sub[1 + l0 + k] == whole[1 + l0 + k]);
                assert(whole[1 + l0 + k] == s0.add(tail2)[l0 + k]);
            }
        }
        // the selector's follow: a comma if more columns remain, else the
        // list's own follow
        if rest.len() >= 2 {
            assert(tail2[0] == SpecTok::Comma);
            assert(ts[j] == tail2[0]);
            assert(factor_follow_ok(ts[j]));
        }
        lemma_rt_selector(ts, i + 1, rest[0]);
        lemma_rt_columns_rest(ts, j, rest.drop_first(), acc.push(rest[0]));
        assert(acc.push(rest[0]).add(rest.drop_first()) =~= acc.add(rest));
    }
}

/// Parsing the comma-led tail of a rendered table list appends exactly the
/// remaining tables to the accumulator.
pub proof fn lemma_rt_tables_rest(
    ts: Seq<SpecTok>,
    i: int,
    rest: Seq<SpecTable>,
    acc: Seq<SpecTable>,
)
    requires
        0 <= i,
        i + tail_tokens_tables(rest).len() <= ts.len(),
        ts.subrange(i, i + tail_tokens_tables(rest).len()) == tail_tokens_tables(rest),
        i + tail_tokens_tables(rest).len() < ts.len() ==> {
            let t = ts[i + tail_tokens_tables(rest).len()];
            !(t is Comma) && !(t is As)
        },
    ensures
        spec_p_tables_rest(ts, i, acc) == Some(
            (acc.add(rest), i + tail_tokens_tables(rest).len()),
        ),
    decreases rest.len(),
{
    let tail = tail_tokens_tables(rest);
    let sub = ts.subrange(i, i + tail.len());
    if rest.len() == 0 {
        assert(acc.add(rest) =~= acc);
        if i < ts.len() {
            assert(!(ts[i] is Comma));
        }
    } else {
        lemma_tokens_tables_head(rest);
        let s0 = spec_tokens_table(rest[0]);
        let l0 = s0.len() as int;
        let tail2 = tail_tokens_tables(rest.drop_first());
        let whole = seq![SpecTok::Comma].add(s0.add(tail2));
        assert(spec_tokens_tables(rest) == s0.add(tail2));
        assert(sub == whole);
        assert(whole[0] == SpecTok::Comma);
        assert(ts[i] == sub[0] && ts[i] is Comma);
        assert(ts.subrange(i + 1, i + 1 + l0) =~= s0) by {
            assert forall|k: int| 0 <= k < l0 implies ts.subrange(i + 1, i + 1 + l0)[k]
                == s0[k] by {
                assert(ts.subrange(i + 1, i + 1 + l0)[k] == ts[i + 1 + k]);
                assert(ts[i + 1 + k] == sub[1 + k]);
                assert(sub[1 + k] == whole[1 + k]);
                assert(whole[1 + k] == s0.add(tail2)[k]);
            }
        }
        let j = i + 1 + l0;
        assert(ts.subrange(j, j + tail2.len() as int) =~= tail2) by {
            assert forall|k: int| 0 <= k < tail2.len() implies ts.subrange(
                j,
                j + tail2.len() as int,
            )[k] == tail2[k] by {
                assert(ts.subrange(j, j + tail2.len() as int)[k] == ts[j + k]);
                assert(ts[j + k] == sub[1 + l0 + k]);
                assert(sub[1 + l0 + k] == whole[1 + l0 + k]);
                assert(whole[1 + l0 + k] == s0.add(tail2)[l0 + k]);
            }
        }
        if rest.len() >= 2 {
            assert(tail2[0] == SpecTok::Comma);
            assert(ts[j] == tail2[0]);
        }
        lemma_rt_table(ts, i + 1, rest[0]);
        lemma_rt_tables_rest(ts, j, rest.drop_first(), acc.push(rest[0]));
        assert(acc.push(rest[0]).add(rest.drop_first()) =~= acc.add(rest));
    }
}

/// Parsing a rendered table reference recovers it.
pub proof fn lemma_rt_table(ts: Seq<SpecTok>, i: int, t: SpecTable)
    requires
        0 <= i,
        i + spec_tokens_table(t).len() <= ts.len(),
        ts.subrange(i, i + spec_tokens_table(t).len()) == spec_tokens_table(t),
        i + spec_tokens_table(t).len() < ts.len() ==> !(ts[i + spec_tokens_table(t).len()] is As),
    ensures
        spec_p_table(ts, i) == Some((t, i + spec_tokens_table(t).len())),
{
    let toks = spec_tokens_table(t);
    let sub = ts.subrange(i, i + toks.len());
    match t.alias {
        Some(_) => {
            assert(ts[i] == sub[0]);
            assert(ts[i + 1] == sub[1]);
            assert(ts[i + 2] == sub[2]);
        },
        None => {
            assert(ts[i] == sub[0]);
        },
    }
}

/// Parsing a rendered selection recovers it.
pub proof fn lemma_rt_selection(ts: Seq<SpecTok>, i: int, sel: SpecSelection)
    requires
        wf_spec_selection(sel),
        0 <= i,
        i + spec_tokens_selection(sel).len() <= ts.len(),
        ts.subrange(i, i + spec_tokens_selection(sel).len()) == spec_tokens_selection(sel),
        i + spec_tokens_selection(sel).len() < ts.len() ==> {
            let t = ts[i + spec_tokens_selection(sel).len()];
            !(t is Comma) && !(t is Dot)
        },
    ensures
        spec_p_selection(ts, i) == Some((sel, i + spec_tokens_selection(sel).len())),
{
    let toks = spec_tokens_selection(sel);
    let sub = ts.subrange(i, i + toks.len());
    match sel {
        SpecSelection::Star => {
            assert(ts[i] == sub[0] && ts[i] is Star);
        },
        SpecSelection::Columns(cols) => {
            lemma_tokens_columns_head(cols);
            let s0 = spec_tokens_selector(cols[0]);
            let l0 = s0.len() as int;
            let tail = tail_tokens_columns(cols.drop_first());
            let whole = s0.add(tail);
            assert(sub == whole);
            assert(ts[i] == sub[0] && sub[0] == s0[0]);
            assert(!(ts[i] is Star));
            assert(ts.subrange(i, i + l0) =~= s0) by {
                assert forall|k: int| 0 <= k < l0 implies ts.subrange(i, i + l0)[k] == s0[k] by {
                    assert(ts.subrange(i, i + l0)[k] == ts[i + k]);
                    assert(ts[i + k] == sub[k]);
                    assert(sub[k] == whole[k]);
                }
            }
            let j = i + l0;
            assert(ts.subrange(j, j + tail.len() as int) =~= tail) by {
                assert forall|k: int| 0 <= k < tail.len() implies ts.subrange(
                    j,
                    j + tail.len() as int,
                )[k] == tail[k] by {
                    assert(ts.subrange(j, j + tail.len() as int)[k] == ts[j + k]);
                    assert(ts[j + k] == sub[l0 + k]);
                    assert(sub[l0 + k] == whole[l0 + k]);
                }
            }
            if cols.len() >= 2 {
                assert(tail[0] == SpecTok::Comma);
                assert(ts[j] == tail[0]);
            }
            lemma_rt_selector(ts, i, cols[0]);
            lemma_rt_columns_rest(ts, j, cols.drop_first(), seq![cols[0]]);
            assert(seq![cols[0]].add(cols.drop_first()) =~= cols);
        },
    }
}

/// Token-level round trip: parsing the token rendering of a well-formed
/// query recovers exactly that query, consuming every token.
pub proof fn lemma_parse_tokens_of_render(q: SpecQuery)
    requires
        wf_spec_query(q),
    ensures
        spec_p_query(spec_tokens_query(q), 0) == Some((q, spec_tokens_query(q).len() as int)),
{
    let ts = spec_tokens_query(q);
    let sel_t = spec_tokens_selection(q.selection);
    let tab_t = spec_tokens_tables(q.tables);
    let fil_t = spec_tokens_filter(q.filter);
    let j1 = 1 + sel_t.len() as int;
    let j2 = j1 + 1;
    let j3 = j2 + tab_t.len() as int;
    let j4 = j3 + 1;
    let end = j4 + fil_t.len() as int;
    assert(ts.len() == end);
    assert(ts[0] == SpecTok::Select);
    assert(ts.subrange(1, j1) =~= sel_t) by {
        assert forall|k: int| 0 <= k < sel_t.len() implies ts.subrange(1, j1)[k] == sel_t[k] by {
            assert(ts.subrange(1, j1)[k] == ts[1 + k]);
            assert(ts[1 + k] == sel_t[k]);
        }
    }
    assert(ts[j1] == SpecTok::From);
    assert(ts.subrange(j2, j3) =~= tab_t) by {
        assert forall|k: int| 0 <= k < tab_t.len() implies ts.subrange(j2, j3)[k] == tab_t[k] by {
            assert(ts.subrange(j2, j3)[k] == ts[j2 + k]);
            assert(ts[j2 + k] == tab_t[k]);
        }
    }
    assert(ts[j3] == SpecTok::Where);
    assert(ts.subrange(j4, end) =~= fil_t) by {
        assert forall|k: int| 0 <= k < fil_t.len() implies ts.subrange(j4, end)[k] == fil_t[k] by {
            assert(ts.subrange(j4, end)[k] == ts[j4 + k]);
            assert(ts[j4 + k] == fil_t[k]);
        }
    }
    lemma_rt_selection(ts, 1, q.selection);
    lemma_tokens_tables_head(q.tables);
    let s0 = spec_tokens_table(q.tables[0]);
    let l0 = s0.len() as int;
    let tail = tail_tokens_tables(q.tables.drop_first());
    assert(ts.subrange(j2, j2 + l0) =~= s0) by {
        assert forall|k: int| 0 <= k < l0 implies ts.subrange(j2, j2 + l0)[k] == s0[k] by {
            assert(ts.subrange(j2, j2 + l0)[k] == ts[j2 + k]);
            assert(ts[j2 + k] == tab_t[k]);
            assert(tab_t[k] == s0.add(tail)[k]);
        }
    }
    let jt = j2 + l0;
    assert(ts.subrange(jt, jt + tail.len() as int) =~= tail) by {
        assert forall|k: int| 0 <= k < tail.len() implies ts.subrange(
            jt,
            jt + tail.len() as int,
        )[k] == tail[k] by {
            assert(ts.subrange(jt, jt + tail.len() as int)[k] == ts[jt + k]);
            assert(ts[jt + k] == tab_t[l0 + k]);
            assert(tab_t[l0 + k] == s0.add(tail)[l0 + k]);
        }
    }
    if q.tables.len() >= 2 {
        assert(tail[0] == SpecTok::Comma);
        assert(ts[jt] == tail[0]);
    }
    lemma_rt_table(ts, j2, q.tables[0]);
    lemma_rt_tables_rest(ts, jt, q.tables.drop_first(), seq![q.tables[0]]);
    assert(seq![q.tables[0]].add(q.tables.drop_first()) =~= q.tables);
    lemma_rt_expression(ts, j4, (ts.len() - j3) as nat, q.filter);
}

// ------------------------------------------------------------------
// The lexer inverts token texts.
// ------------------------------------------------------------------

/// A token whose text lexes back to it: identifiers must be well-formed
/// non-keywords, integers must fit 64 bits, string bodies must be valid.
pub open spec fn tok_wf(t: SpecTok) -> bool {
    match t {
        SpecTok::Ident(s) => usable_ident(s),
        SpecTok::IntLit(v) => i64::MIN <= v <= i64::MAX,
        SpecTok::StrLit(s) => wf_string_body(s),
        _ => true,
    }
}

/// A word run ends exactly where the word characters end.
proof fn lemma_word_end_eq(s: Seq<char>, i: int, e: int)
    requires
        0 <= i <= e <= s.len(),
        forall|j: int| i <= j < e ==> is_word_char(#[trigger] s[j]),
        e < s.len() ==> !is_word_char(s[e]),
        e == s.len() || e < s.len(),
    ensures
        word_end(s, i) == e,
    decreases e - i,
{
    if i < e {
        lemma_word_end_eq(s, i + 1, e);
    }
}

/// A digit run ends exactly where the digits end.
proof fn lemma_digits_end_eq(s: Seq<char>, i: int, e: int)
    requires
        0 <= i <= e <= s.len(),
        forall|j: int| i <= j < e ==> is_digit_char(#[trigger] s[j]),
        e < s.len() ==> !is_digit_char(s[e]),
    ensures
        digits_end(s, i) == e,
    decreases e - i,
{
    if i < e {
        lemma_digits_end_eq(s, i + 1, e);
    }
}

/// The code point of a decimal digit character.
proof fn lemma_digit_char_code(d: int)
    requires
        0 <= d <= 9,
    ensures
        digit_char(d) as u32 == 48 + d,
        is_digit_char(digit_char(d)),
        !is_letter(digit_char(d)),
        is_word_char(digit_char(d)),
{
}

/// The characters of a decimal rendering are digits.
proof fn lemma_dec_digits_are_digits(n: int)
    requires
        n >= 0,
    ensures
        dec_digits(n).len() >= 1,
        forall|j: int| 0 <= j < dec_digits(n).len() ==> is_digit_char(#[trigger] dec_digits(n)[j]),
    decreases n,
{
    if n < 10 {
        lemma_digit_char_code(n);
    } else {
        lemma_dec_digits_are_digits(n / 10);
        lemma_digit_char_code(n % 10);
        assert forall|j: int| 0 <= j < dec_digits(n).len() implies is_digit_char(
            #[trigger] dec_digits(n)[j],
        ) by {
            if j < dec_digits(n / 10).len() {
                assert(dec_digits(n)[j] == dec_digits(n / 10)[j]);
            } else {
                assert(dec_digits(n)[j] == digit_char(n % 10));
            }
        }
    }
}

/// Reading back a decimal rendering recovers the number.
proof fn lemma_digits_val_of_dec(s: Seq<char>, i: int, n: int)
    requires
        n >= 0,
        0 <= i,
        i + dec_digits(n).len() <= s.len(),
        s.subrange(i, i + dec_digits(n).len()) == dec_digits(n),
    ensures
        digits_val(s, i, i + dec_digits(n).len()) == n,
    decreases n,
{
    let ds = dec_digits(n);
    let e = i + ds.len();
    if n < 10 {
        assert(s[i] == s.subrange(i, e)[0]);
        lemma_digit_char_code(n);
        assert(digits_val(s, i, e) == digits_val(s, i, e - 1) * 10 + ((s[e - 1] as u32) as int
            - 48));
        assert(digits_val(s, i, e - 1) == 0);
    } else {
        let prev = dec_digits(n / 10);
        assert(ds == prev.push(digit_char(n % 10)));
        assert(s.subrange(i, e - 1) =~= prev) by {
            assert forall|k: int| 0 <= k < prev.len() implies s.subrange(i, e - 1)[k]
                == prev[k] by {
                assert(s.subrange(i, e - 1)[k] == s[i + k]);
                assert(s[i + k] == s.subrange(i, e)[k]);
                assert(s.subrange(i, e)[k] == ds[k]);
                assert(ds[k] == prev[k]);
            }
        }
        lemma_digits_val_of_dec(s, i, n / 10);
        assert(s[e - 1] == s.subrange(i, e)[ds.len() - 1]);
        assert(s[e - 1] == digit_char(n % 10));
        lemma_digit_char_code(n % 10);
        assert(digits_val(s, i, e) == (n / 10) * 10 + (n % 10));
        assert((n / 10) * 10 + (n % 10) == n) by (nonlinear_arith)
            requires
                n >= 0,
        ;
    }
}

/// A well-formed string body scans to the closing quote that follows it.
proof fn lemma_str_body_end_eq(s: Seq<char>, i: int, body: Seq<char>)
    requires
        0 <= i,
        i + body.len() < s.len(),
        s.subrange(i, i + body.len()) == body,
        s[i + body.len()] == '"',
        wf_string_body(body),
    ensures
        str_body_end(s, i) == Some(i + body.len() as int),
    decreases body.len(),
{
    if body.len() == 0 {
        assert(s[i] == '"');
    } else {
        let c = body[0];
        assert(s[i] == s.subrange(i, i + body.len())[0]);
        assert(c != '"');
        if c == '\\' {
            assert(body.len() >= 2 && (body[1] == 'n' || body[1] == '\\'));
            assert(s[i + 1] == s.subrange(i, i + body.len())[1]);
            let rest = body.skip(2);
            assert(wf_string_body(rest)) by {
                assert forall|j: int| 0 <= j < rest.len() implies #[trigger] rest[j] != '"' by {
                    assert(rest[j] == body[j + 2]);
                }
                assert forall|j: int| 0 <= j < rest.len() && #[trigger] rest[j] == '\\' implies j
                    + 1 < rest.len() && (rest[j + 1] == 'n' || rest[j + 1] == '\\') by {
                    assert(rest[j] == body[j + 2]);
                    assert(body[j + 2] == '\\');
                    assert(j + 3 < body.len() && (body[j + 3] == 'n' || body[j + 3] == '\\'));
                    assert(rest[j + 1] == body[j + 3]);
                }
            }
            assert(s.subrange(i + 2, i + 2 + rest.len() as int) =~= rest) by {
                assert forall|k: int| 0 <= k < rest.len() implies s.subrange(
                    i + 2,
                    i + 2 + rest.len() as int,
                )[k] == rest[k] by {
                    assert(s.subrange(i + 2, i + 2 + rest.len() as int)[k] == s[i + 2 + k]);
                    assert(s[i + 2 + k] == s.subrange(i, i + body.len())[2 + k]);
                }
            }
            lemma_str_body_end_eq(s, i + 2, rest);
        } else {
            let rest = body.skip(1);
            assert(wf_string_body(rest)) by {
                assert forall|j: int| 0 <= j < rest.len() implies #[trigger] rest[j] != '"' by {
                    assert(rest[j] == body[j + 1]);
                }
                assert forall|j: int| 0 <= j < rest.len() && #[trigger] rest[j] == '\\' implies j
                    + 1 < rest.len() && (rest[j + 1] == 'n' || rest[j + 1] == '\\') by {
                    assert(rest[j] == body[j + 1]);
                    assert(body[j + 1] == '\\');
                    assert(j + 2 < body.len() && (body[j + 2] == 'n' || body[j + 2] == '\\'));
                    assert(rest[j + 1] == body[j + 2]);
                }
            }
            assert(s.subrange(i + 1, i + 1 + rest.len() as int) =~= rest) by {
                assert forall|k: int| 0 <= k < rest.len() implies s.subrange(
                    i + 1,
                    i + 1 + rest.len() as int,
                )[k] == rest[k] by {
                    assert(s.subrange(i + 1, i + 1 + rest.len() as int)[k] == s[i + 1 + k]);
                    assert(s[i + 1 + k] == s.subrange(i, i + body.len())[1 + k]);
                }
            }
            lemma_str_body_end_eq(s, i + 1, rest);
        }
    }
}

/// The characters of a token's text, named for ground reasoning.
proof fn lemma_text_chars(s: Seq<char>, i: int, txt: Seq<char>)
    requires
        0 <= i,
        i + txt.len() <= s.len(),
        s.subrange(i, i + txt.len()) == txt,
    ensures
        forall|k: int| 0 <= k < txt.len() ==> s[i + k] == #[trigger] txt[k],
{
    assert forall|k: int| 0 <= k < txt.len() implies s[i + k] == #[trigger] txt[k] by {
        assert(s.subrange(i, i + txt.len())[k] == s[i + k]);
    }
}

/// A keyword's text (all letters) lexes as one word ending at the space.
proof fn lemma_keyword_word_end(s: Seq<char>, i: int, txt: Seq<char>)
    requires
        0 <= i,
        i + txt.len() < s.len(),
        s.subrange(i, i + txt.len()) == txt,
        s[i + txt.len()] == ' ',
        forall|k: int| 0 <= k < txt.len() ==> is_word_char(#[trigger] txt[k]),
    ensures
        word_end(s, i) == i + txt.len(),
{
    lemma_text_chars(s, i, txt);
    assert forall|j: int| i <= j < i + txt.len() implies is_word_char(#[trigger] s[j]) by {
        assert(s[j] == txt[j - i]);
    }
    lemma_word_end_eq(s, i, i + txt.len());
}

/// Reading the single token at the start of its rendered text (which is
/// always followed by a space) recovers exactly that token.
proof fn lemma_token_at_text(s: Seq<char>, i: int, t: SpecTok)
    requires
        tok_wf(t),
        0 <= i,
        i + spec_tok_text(t).len() < s.len(),
        s.subrange(i, i + spec_tok_text(t).len()) == spec_tok_text(t),
        s[i + spec_tok_text(t).len()] == ' ',
    ensures
        !is_space_char(s[i]),
        token_at(s, i) == Some((t, i + spec_tok_text(t).len())),
{
    let txt = spec_tok_text(t);
    let ln = txt.len() as int;
    lemma_text_chars(s, i, txt);
    match t {
        SpecTok::Select => {
            lemma_keyword_word_end(s, i, txt);
            assert(s.subrange(i, word_end(s, i)) == txt);
            assert(crate::lexer::spec_word_token(txt) == SpecTok::Select) by {
                assert forall|k: int| 0 <= k < 6 implies crate::ast::lower_code(txt[k])
                    == crate::ast::lower_code(seq!['s', 'e', 'l', 'e', 'c', 't'][k]) by {
                    if k == 0 {
                    } else if k == 1 {
                    } else if k == 2 {
                    } else if k == 3 {
                    } else if k == 4 {
                    } else {
                        assert(k == 5);
                    }
                }
            }
        },
        SpecTok::From => {
            lemma_keyword_word_end(s, i, txt);
            assert(s.subrange(i, word_end(s, i)) == txt);
            assert(crate::lexer::spec_word_token(txt) == SpecTok::From) by {
                assert forall|k: int| 0 <= k < 4 implies crate::ast::lower_code(txt[k])
                    == crate::ast::lower_code(seq!['f', 'r', 'o', 'm'][k]) by {
                    if k == 0 {
                    } else if k == 1 {
                    } else if k == 2 {
                    } else {
                        assert(k == 3);
                    }
                }
            }
        },
        SpecTok::Where => {
            lemma_keyword_word_end(s, i, txt);
            assert(s.subrange(i, word_end(s, i)) == txt);
            assert(crate::lexer::spec_word_token(txt) == SpecTok::Where) by {
                assert forall|k: int| 0 <= k < 5 implies crate::ast::lower_code(txt[k])
                    == crate::ast::lower_code(seq!['w', 'h', 'e', 'r', 'e'][k]) by {
                    if k == 0 {
                    } else if k == 1 {
                    } else if k == 2 {
                    } else if k == 3 {
                    } else {
                        assert(k == 4);
                    }
                }
            }
        },
        SpecTok::As => {
            lemma_keyword_word_end(s, i, txt);
            assert(s.subrange(i, word_end(s, i)) == txt);
            assert(crate::lexer::spec_word_token(txt) == SpecTok::As) by {
                assert forall|k: int| 0 <= k < 2 implies crate::ast::lower_code(txt[k])
                    == crate::ast::lower_code(seq!['a', 's'][k]) by {
                    if k == 0 {
                    } else {
                        assert(k == 1);
                    }
                }
            }
        },
        SpecTok::Not => {
            lemma_keyword_word_end(s, i, txt);
            assert(s.subrange(i, word_end(s, i)) == txt);
            assert(crate::lexer::spec_word_token(txt) == SpecTok::Not) by {
                assert forall|k: int| 0 <= k < 3 implies crate::ast::lower_code(txt[k])
                    == crate::ast::lower_code(seq!['n', 'o', 't'][k]) by {
                    if k == 0 {
                    } else if k == 1 {
                    } else {
                        assert(k == 2);
                    }
                }
            }
        },
        SpecTok::Like => {
            lemma_keyword_word_end(s, i, txt);
            assert(s.subrange(i, word_end(s, i)) == txt);
            assert(crate::lexer::spec_word_token(txt) == SpecTok::Like) by {
                assert(crate::ast::lower_code(txt[0]) != crate::ast::lower_code(
                    seq!['f', 'r', 'o', 'm'][0],
                ));
                assert forall|k: int| 0 <= k < 4 implies crate::ast::lower_code(txt[k])
                    == crate::ast::lower_code(seq!['l', 'i', 'k', 'e'][k]) by {
                    if k == 0 {
                    } else if k == 1 {
                    } else if k == 2 {
                    } else {
                        assert(k == 3);
                    }
                }
            }
        },
        SpecTok::True => {
            lemma_keyword_word_end(s, i, txt);
            assert(s.subrange(i, word_end(s, i)) == txt);
            assert(crate::lexer::spec_word_token(txt) == SpecTok::True) by {
                assert(crate::ast::lower_code(txt[0]) != crate::ast::lower_code(
                    seq!['f', 'r', 'o', 'm'][0],
                ));
                assert(crate::ast::lower_code(txt[0]) != crate::ast::lower_code(
                    seq!['l', 'i', 'k', 'e'][0],
                ));
                assert forall|k: int| 0 <= k < 4 implies crate::ast::lower_code(txt[k])
                    == crate::ast::lower_code(seq!['t', 'r', 'u', 'e'][k]) by {
                    if k == 0 {
                    } else if k == 1 {
                    } else if k == 2 {
                    } else {
                        assert(k == 3);
                    }
                }
            }
        },
        SpecTok::False => {
            lemma_keyword_word_end(s, i, txt);
            assert(s.subrange(i, word_end(s, i)) == txt);
            assert(crate::lexer::spec_word_token(txt) == SpecTok::False) by {
                assert(crate::ast::lower_code(txt[0]) != crate::ast::lower_code(
                    seq!['w', 'h', 'e', 'r', 'e'][0],
                ));
                assert forall|k: int| 0 <= k < 5 implies crate::ast::lower_code(txt[k])
                    == crate::ast::lower_code(seq!['f', 'a', 'l', 's', 'e'][k]) by {
                    if k == 0 {
                    } else if k == 1 {
                    } else if k == 2 {
                    } else if k == 3 {
                    } else {
                        assert(k == 4);
                    }
                }
            }
        },
        SpecTok::Ident(w) => {
            assert(txt == w);
            assert(is_letter(s[i])) by {
                assert(s[i] == w[0]);
            }
            assert forall|k: int| 0 <= k < w.len() implies is_word_char(#[trigger] w[k]) by {
                if k > 0 {
                    assert(is_letter(w[k]) || is_digit_char(w[k]));
                }
            }
            lemma_keyword_word_end(s, i, txt);
            assert(s.subrange(i, word_end(s, i)) == w);
            assert(crate::lexer::spec_word_token(w) == SpecTok::Ident(w)) by {
                assert(!is_keyword(w));
            }
        },
        SpecTok::IntLit(v) => {
            if v >= 0 {
                let ds = dec_digits(v);
                assert(txt == ds);
                lemma_dec_digits_are_digits(v);
                assert(is_digit_char(s[i])) by {
                    assert(s[i] == ds[0]);
                }
                assert(!is_letter(s[i])) by {
                    assert(s[i] == ds[0]);
                    assert((s[i] as u32) < 58);
                }
                assert forall|j: int| i <= j < i + ln implies is_digit_char(#[trigger] s[j]) by {
                    assert(s[j] == ds[j - i]);
                }
                lemma_digits_end_eq(s, i, i + ln);
                lemma_digits_val_of_dec(s, i, v);
            } else {
                let ds = dec_digits(-v);
                assert(txt == seq!['-'].add(ds));
                assert(seq!['-'].add(ds)[0] == '-');
                assert(s[i] == txt[0] && s[i] == '-');
                lemma_dec_digits_are_digits(-v);
                assert(s.subrange(i + 1, i + ln) =~= ds) by {
                    assert forall|k: int| 0 <= k < ds.len() implies s.subrange(i + 1, i + ln)[k]
                        == ds[k] by {
                        assert(s.subrange(i + 1, i + ln)[k] == s[i + 1 + k]);
                        assert(s[i + 1 + k] == txt[1 + k]);
                        assert(txt[1 + k] == ds[k]);
                    }
                }
                lemma_text_chars(s, i + 1, ds);
                assert(is_digit_char(s[i + 1])) by {
                    assert(s[i + 1] == ds[0]);
                }
                assert forall|j: int| i + 1 <= j < i + ln implies is_digit_char(
                    #[trigger] s[j],
                ) by {
                    assert(s[j] == ds[j - i - 1]);
                }
                lemma_digits_end_eq(s, i + 1, i + ln);
                lemma_digits_val_of_dec(s, i + 1, -v);
                assert(digits_val(s, i + 1, i + ln) == -v);
                assert(-v <= 0x8000_0000_0000_0000);
            }
        },
        SpecTok::StrLit(body) => {
            let bl = body.len() as int;
            assert(txt == seq!['"'].add(body).push('"'));
            assert(seq!['"'].add(body).push('"')[0] == '"');
            assert(s[i] == txt[0] && s[i] == '"');
            assert(s.subrange(i + 1, i + 1 + bl) =~= body) by {
                assert forall|k: int| 0 <= k < bl implies s.subrange(i + 1, i + 1 + bl)[k]
                    == body[k] by {
                    assert(s.subrange(i + 1, i + 1 + bl)[k] == s[i + 1 + k]);
                    assert(s[i + 1 + k] == txt[1 + k]);
                    assert(txt[1 + k] == seq!['"'].add(body)[1 + k]);
                }
            }
            assert(s[i + 1 + bl] == txt[1 + bl] && txt[1 + bl] == '"');
            lemma_str_body_end_eq(s, i + 1, body);
            assert(token_at(s, i) == Some((SpecTok::StrLit(s.subrange(i + 1, i + 1 + bl)), i + 2
                + bl)));
        },
        SpecTok::AndAnd => {
            assert(s[i] == txt[0] && s[i + 1] == txt[1]);
        },
        SpecTok::OrOr => {
            assert(s[i] == txt[0] && s[i + 1] == txt[1]);
        },
        SpecTok::EqEq => {
            assert(s[i] == txt[0] && s[i + 1] == txt[1]);
        },
        SpecTok::Less => {
            assert(s[i] == txt[0]);
        },
        SpecTok::Star => {
            assert(s[i] == txt[0]);
        },
        SpecTok::Dot => {
            assert(s[i] == txt[0]);
        },
        SpecTok::Comma => {
            assert(s[i] == txt[0]);
        },
        SpecTok::LParen => {
            assert(s[i] == txt[0]);
        },
        SpecTok::RParen => {
            assert(s[i] == txt[0]);
        },
    }
}

/// Lexing the rendered text of well-formed tokens, from any position whose
/// suffix is exactly that text, recovers the tokens.
proof fn lemma_lex_from(s: Seq<char>, i: int, ts: Seq<SpecTok>)
    requires
        0 <= i <= s.len(),
        s.len() - i == spec_text_of(ts).len(),
        s.subrange(i, s.len() as int) == spec_text_of(ts),
        forall|k: int| 0 <= k < ts.len() ==> tok_wf(#[trigger] ts[k]),
    ensures
        spec_lex(s, i) == Some(ts),
    decreases ts.len(),
{
    if ts.len() == 0 {
        assert(i == s.len());
    } else {
        let t0 = ts[0];
        let txt = spec_tok_text(t0);
        let tl = txt.len() as int;
        let rest_text = spec_text_of(ts.drop_first());
        let whole = txt.push(' ').add(rest_text);
        assert(spec_text_of(ts) == whole);
        let sub = s.subrange(i, s.len() as int);
        assert(s.subrange(i, i + tl) =~= txt) by {
            assert forall|k: int| 0 <= k < tl implies s.subrange(i, i + tl)[k] == txt[k] by {
                assert(s.subrange(i, i + tl)[k] == s[i + k]);
                assert(s[i + k] == sub[k]);
                assert(sub[k] == whole[k]);
                assert(whole[k] == txt.push(' ')[k]);
            }
        }
        assert(s[i + tl] == sub[tl] && sub[tl] == whole[tl] && whole[tl] == txt.push(' ')[tl]);
        assert(s[i + tl] == ' ');
        lemma_token_at_text(s, i, t0);
        assert(s.subrange(i + tl + 1, s.len() as int) =~= rest_text) by {
            assert forall|k: int| 0 <= k < rest_text.len() implies s.subrange(
                i + tl + 1,
                s.len() as int,
            )[k] == rest_text[k] by {
                assert(s.subrange(i + tl + 1, s.len() as int)[k] == s[i + tl + 1 + k]);
                assert(s[i + tl + 1 + k] == sub[tl + 1 + k]);
                assert(sub[tl + 1 + k] == whole[tl + 1 + k]);
            }
        }
        assert forall|k: int| 0 <= k < ts.drop_first().len() implies tok_wf(
            #[trigger] ts.drop_first()[k],
        ) by {
            assert(ts.drop_first()[k] == ts[k + 1]);
        }
        lemma_lex_from(s, i + tl + 1, ts.drop_first());
        assert(is_space_char(s[i + tl]));
        assert(spec_lex(s, i + tl) == spec_lex(s, i + tl + 1));
        assert(seq![t0].add(ts.drop_first()) =~= ts);
    }
}

/// The tokens of a well-formed selector are well-formed.
proof fn lemma_tokens_selector_wf(cs: SpecColumnSelector)
    requires
        wf_spec_selector(cs),
    ensures
        forall|k: int|
            0 <= k < spec_tokens_selector(cs).len() ==> tok_wf(
                #[trigger] spec_tokens_selector(cs)[k],
            ),
{
}

/// The tokens of a well-formed filter are well-formed.
proof fn lemma_tokens_filter_wf(f: SpecFilter)
    requires
        wf_spec_filter(f),
    ensures
        forall|k: int|
            0 <= k < spec_tokens_filter(f).len() ==> tok_wf(#[trigger] spec_tokens_filter(f)[k]),
    decreases f,
{
    let toks = spec_tokens_filter(f);
    match f {
        SpecFilter::Id(cs) => {
            lemma_tokens_selector_wf(cs);
        },
        SpecFilter::LitS(_) => {
        },
        SpecFilter::LitB(_) => {
        },
        SpecFilter::LitI(_) => {
        },
        SpecFilter::UnaryOp(_, f1) => {
            lemma_tokens_filter_wf(*f1);
            let t1 = spec_tokens_filter(*f1);
            assert forall|k: int| 0 <= k < toks.len() implies tok_wf(#[trigger] toks[k]) by {
                if 2 <= k < 2 + t1.len() {
                    assert(toks[k] == t1[k - 2]);
                }
            }
        },
        SpecFilter::BinaryOp(op, l, r) => {
            lemma_tokens_filter_wf(*l);
            lemma_tokens_filter_wf(*r);
            let tl = spec_tokens_filter(*l);
            let ll = tl.len() as int;
            let tr = spec_tokens_filter(*r);
            assert forall|k: int| 0 <= k < toks.len() implies tok_wf(#[trigger] toks[k]) by {
                if 1 <= k < 1 + ll {
                    assert(toks[k] == tl[k - 1]);
                } else if k == 1 + ll {
                    assert(toks[k] == tok_of_bop(op));
                } else if 2 + ll <= k < 2 + ll + tr.len() {
                    assert(toks[k] == tr[k - 2 - ll]);
                }
            }
        },
    }
}

/// The tokens of a well-formed column list are well-formed.
proof fn lemma_tokens_columns_wf(cols: Seq<SpecColumnSelector>)
    requires
        forall|j: int| 0 <= j < cols.len() ==> wf_spec_selector(#[trigger] cols[j]),
    ensures
        forall|k: int|
            0 <= k < spec_tokens_columns(cols).len() ==> tok_wf(
                #[trigger] spec_tokens_columns(cols)[k],
            ),
    decreases cols.len(),
{
    let toks = spec_tokens_columns(cols);
    if cols.len() == 0 {
    } else if cols.len() == 1 {
        lemma_tokens_selector_wf(cols[0]);
    } else {
        lemma_tokens_selector_wf(cols[0]);
        assert(forall|j: int|
            0 <= j < cols.drop_first().len() ==> wf_spec_selector(
                #[trigger] cols.drop_first()[j],
            ));
        lemma_tokens_columns_wf(cols.drop_first());
        let s0 = spec_tokens_selector(cols[0]);
        let l0 = s0.len() as int;
        let rest = spec_tokens_columns(cols.drop_first());
        assert forall|k: int| 0 <= k < toks.len() implies tok_wf(#[trigger] toks[k]) by {
            if k < l0 {
                assert(toks[k] == s0[k]);
            } else if k == l0 {
                assert(toks[k] == SpecTok::Comma);
            } else {
                assert(toks[k] == rest[k - l0 - 1]);
            }
        }
    }
}

/// The tokens of a well-formed table reference are well-formed.
proof fn lemma_tokens_table_wf(t: SpecTable)
    requires
        wf_spec_table(t),
    ensures
        forall|k: int|
            0 <= k < spec_tokens_table(t).len() ==> tok_wf(#[trigger] spec_tokens_table(t)[k]),
{
}

/// The tokens of a well-formed table list are well-formed.
proof fn lemma_tokens_tables_wf(tabs: Seq<SpecTable>)
    requires
        forall|j: int| 0 <= j < tabs.len() ==> wf_spec_table(#[trigger] tabs[j]),
    ensures
        forall|k: int|
            0 <= k < spec_tokens_tables(tabs).len() ==> tok_wf(
                #[trigger] spec_tokens_tables(tabs)[k],
            ),
    decreases tabs.len(),
{
    let toks = spec_tokens_tables(tabs);
    if tabs.len() == 0 {
    } else if tabs.len() == 1 {
        lemma_tokens_table_wf(tabs[0]);
    } else {
        lemma_tokens_table_wf(tabs[0]);
        assert(forall|j: int|
            0 <= j < tabs.drop_first().len() ==> wf_spec_table(#[trigger] tabs.drop_first()[j]));
        lemma_tokens_tables_wf(tabs.drop_first());
        let s0 = spec_tokens_table(tabs[0]);
        let l0 = s0.len() as int;
        let rest = spec_tokens_tables(tabs.drop_first());
        assert forall|k: int| 0 <= k < toks.len() implies tok_wf(#[trigger] toks[k]) by {
            if k < l0 {
                assert(toks[k] == s0[k]);
            } else if k == l0 {
                assert(toks[k] == SpecTok::Comma);
            } else {
                assert(toks[k] == rest[k - l0 - 1]);
            }
        }
    }
}

/// The tokens of a well-formed query are well-formed.
proof fn lemma_tokens_query_wf(q: SpecQuery)
    requires
        wf_spec_query(q),
    ensures
        forall|k: int|
            0 <= k < spec_tokens_query(q).len() ==> tok_wf(#[trigger] spec_tokens_query(q)[k]),
{
    let toks = spec_tokens_query(q);
    let sel_t = spec_tokens_selection(q.selection);
    let tab_t = spec_tokens_tables(q.tables);
    let fil_t = spec_tokens_filter(q.filter);
    match q.selection {
        SpecSelection::Star => {
        },
        SpecSelection::Columns(cols) => {
            lemma_tokens_columns_wf(cols);
        },
    }
    lemma_tokens_tables_wf(q.tables);
    lemma_tokens_filter_wf(q.filter);
    let j1 = 1 + sel_t.len() as int;
    let j2 = j1 + 1;
    let j3 = j2 + tab_t.len() as int;
    let j4 = j3 + 1;
    assert forall|k: int| 0 <= k < toks.len() implies tok_wf(#[trigger] toks[k]) by {
        if k == 0 {
            assert(toks[k] == SpecTok::Select);
        } else if k < j1 {
            assert(toks[k] == sel_t[k - 1]);
        } else if k == j1 {
            assert(toks[k] == SpecTok::From);
        } else if k < j3 {
            assert(toks[k] == tab_t[k - j2]);
        } else if k == j3 {
            assert(toks[k] == SpecTok::Where);
        } else {
            assert(toks[k] == fil_t[k - j4]);
        }
    }
}

/// The round-trip law: for every well-formed query value, rendering it as
/// text and parsing that text recovers exactly the same query. Well-formed
/// means: every identifier matches `[A-Za-z][A-Za-z0-9]*` and is not a
/// reserved word, every string literal body contains no unescaped quote and
/// only valid escapes, every integer literal fits 64 bits, and the selection
/// and table lists are non-empty.
pub proof fn lemma_parse_render_round_trip(q: SpecQuery)
    requires
        wf_spec_query(q),
    ensures
        crate::parser::spec_parse_sql(crate::render::spec_render_query(q)) == Some(q),
{
    let ts = spec_tokens_query(q);
    let s = spec_text_of(ts);
    lemma_tokens_query_wf(q);
    assert(s.subrange(0, s.len() as int) =~= s);
    lemma_lex_from(s, 0, ts);
    lemma_parse_tokens_of_render(q);
}

} // verus!
