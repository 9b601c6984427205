//! Rendering: turns syntax trees back into query text and result tables
//! into their textual surface. Rendered text consists of the tree's tokens,
//! each followed by a single space, so that rendering and parsing are
//! inverse to one another.

use vstd::prelude::*;

use crate::ast::{
    BinaryOp, ColumnSelector, Filter, Query, Selection, SpecColumnSelector, SpecFilter, SpecQuery,
    SpecSelection, SpecTable, Table, UnaryOp,
};
use crate::lexer::{SpecTok, Tok};
use crate::strutil::push_char;
use crate::tables::{SpecCell, SpecTableData, TableCell, TableData};

verus! {

/// The decimal digit character for `d` (0 to 9).
pub open spec fn digit_char(d: int) -> char {
    if d == 0 {
        '0'
    } else if d == 1 {
        '1'
    } else if d == 2 {
        '2'
    } else if d == 3 {
        '3'
    } else if d == 4 {
        '4'
    } else if d == 5 {
        '5'
    } else if d == 6 {
        '6'
    } else if d == 7 {
        '7'
    } else if d == 8 {
        '8'
    } else {
        '9'
    }
}

/// The decimal digits of a non-negative number, most significant first.
pub open spec fn dec_digits(n: int) -> Seq<char>
    decreases n,
{
    if n < 10 {
        seq![digit_char(n)]
    } else {
        dec_digits(n / 10).push(digit_char(n % 10))
    }
}

/// The decimal rendering of an integer, with a leading `-` when negative.
pub open spec fn spec_render_int(v: int) -> Seq<char> {
    if v < 0 {
        seq!['-'].add(dec_digits(-v))
    } else {
        dec_digits(v)
    }
}

/// The text of a single token.
pub open spec fn spec_tok_text(t: SpecTok) -> Seq<char> {
    match t {
        SpecTok::Select => seq!['S', 'E', 'L', 'E', 'C', 'T'],
        SpecTok::From => seq!['F', 'R', 'O', 'M'],
        SpecTok::Where => seq!['W', 'H', 'E', 'R', 'E'],
        SpecTok::As => seq!['A', 'S'],
        SpecTok::Not => seq!['N', 'O', 'T'],
        SpecTok::Like => seq!['L', 'I', 'K', 'E'],
        SpecTok::True => seq!['t', 'r', 'u', 'e'],
        SpecTok::False => seq!['f', 'a', 'l', 's', 'e'],
        SpecTok::Ident(s) => s,
        SpecTok::IntLit(v) => spec_render_int(v),
        SpecTok::StrLit(s) => seq!['"'].add(s).push('"'),
        SpecTok::AndAnd => seq!['&', '&'],
        SpecTok::OrOr => seq!['|', '|'],
        SpecTok::EqEq => seq!['=', '='],
        SpecTok::Less => seq!['<'],
        SpecTok::Star => seq!['*'],
        SpecTok::Dot => seq!['.'],
        SpecTok::Comma => seq![','],
        SpecTok::LParen => seq!['('],
        SpecTok::RParen => seq![')'],
    }
}

/// The text of a token sequence: each token followed by one space.
pub open spec fn spec_text_of(ts: Seq<SpecTok>) -> Seq<char>
    decreases ts.len(),
{
    if ts.len() == 0 {
        Seq::empty()
    } else {
        spec_tok_text(ts[0]).push(' ').add(spec_text_of(ts.drop_first()))
    }
}

/// Token text distributes over concatenation.
pub proof fn lemma_text_of_app(a: Seq<SpecTok>, b: Seq<SpecTok>)
    ensures
        spec_text_of(a.add(b)) == spec_text_of(a).add(spec_text_of(b)),
    decreases a.len(),
{
    if a.len() == 0 {
        assert(a.add(b) =~= b);
        assert(spec_text_of(a).add(spec_text_of(b)) =~= spec_text_of(b));
    } else {
        assert(a.add(b).drop_first() =~= a.drop_first().add(b));
        lemma_text_of_app(a.drop_first(), b);
        assert(spec_tok_text(a[0]).push(' ').add(
            spec_text_of(a.drop_first()).add(spec_text_of(b)),
        ) =~= spec_tok_text(a[0]).push(' ').add(spec_text_of(a.drop_first())).add(
            spec_text_of(b),
        ));
    }
}

/// The token for a binary operator.
pub open spec fn tok_of_bop(op: BinaryOp) -> SpecTok {
    match op {
        BinaryOp::And => SpecTok::AndAnd,
        BinaryOp::Or => SpecTok::OrOr,
        BinaryOp::Eq => SpecTok::EqEq,
        BinaryOp::Lt => SpecTok::Less,
        BinaryOp::Like => SpecTok::Like,
    }
}

/// The tokens of a column selector.
pub open spec fn spec_tokens_selector(s: SpecColumnSelector) -> Seq<SpecTok> {
    match s.table {
        Some(t) => seq![SpecTok::Ident(t), SpecTok::Dot, SpecTok::Ident(s.field)],
        None => seq![SpecTok::Ident(s.field)],
    }
}

/// The tokens of a filter: every composite is parenthesized.
pub open spec fn spec_tokens_filter(f: SpecFilter) -> Seq<SpecTok>
    decreases f,
{
    match f {
        SpecFilter::Id(cs) => spec_tokens_selector(cs),
        SpecFilter::LitS(s) => seq![SpecTok::StrLit(s)],
        SpecFilter::LitB(b) => if b {
            seq![SpecTok::True]
        } else {
            seq![SpecTok::False]
        },
        SpecFilter::LitI(v) => seq![SpecTok::IntLit(v)],
        SpecFilter::UnaryOp(_, f1) => seq![SpecTok::LParen, SpecTok::Not].add(
            spec_tokens_filter(*f1),
        ).push(SpecTok::RParen),
        SpecFilter::BinaryOp(op, l, r) => seq![SpecTok::LParen].add(spec_tokens_filter(*l)).push(
            tok_of_bop(op),
        ).add(spec_tokens_filter(*r)).push(SpecTok::RParen),
    }
}

/// The tokens of a selection.
pub open spec fn spec_tokens_selection(s: SpecSelection) -> Seq<SpecTok> {
    match s {
        SpecSelection::Star => seq![SpecTok::Star],
        SpecSelection::Columns(cols) => spec_tokens_columns(cols),
    }
}

/// The tokens of a column list, comma-separated.
pub open spec fn spec_tokens_columns(cols: Seq<SpecColumnSelector>) -> Seq<SpecTok>
    decreases cols.len(),
{
    if cols.len() == 0 {
        Seq::empty()
    } else if cols.len() == 1 {
        spec_tokens_selector(cols[0])
    } else {
        spec_tokens_selector(cols[0]).push(SpecTok::Comma).add(
            spec_tokens_columns(cols.drop_first()),
        )
    }
}

/// The tokens of a table reference.
pub open spec fn spec_tokens_table(t: SpecTable) -> Seq<SpecTok> {
    match t.alias {
        Some(a) => seq![SpecTok::Ident(t.table_name), SpecTok::As, SpecTok::Ident(a)],
        None => seq![SpecTok::Ident(t.table_name)],
    }
}

/// The tokens of a table list, comma-separated.
pub open spec fn spec_tokens_tables(tabs: Seq<SpecTable>) -> Seq<SpecTok>
    decreases tabs.len(),
{
    if tabs.len() == 0 {
        Seq::empty()
    } else if tabs.len() == 1 {
        spec_tokens_table(tabs[0])
    } else {
        spec_tokens_table(tabs[0]).push(SpecTok::Comma).add(spec_tokens_tables(tabs.drop_first()))
    }
}

/// The tokens of a whole query.
pub open spec fn spec_tokens_query(q: SpecQuery) -> Seq<SpecTok> {
    seq![SpecTok::Select].add(spec_tokens_selection(q.selection)).push(SpecTok::From).add(
        spec_tokens_tables(q.tables),
    ).push(SpecTok::Where).add(spec_tokens_filter(q.filter))
}

/// The text of a rendered filter.
pub open spec fn spec_render_filter(f: SpecFilter) -> Seq<char> {
    spec_text_of(spec_tokens_filter(f))
}

/// The text of a rendered query.
pub open spec fn spec_render_query(q: SpecQuery) -> Seq<char> {
    spec_text_of(spec_tokens_query(q))
}

/// Appends one token to a token vector.
fn push_tok(out: &mut Vec<Tok>, t: Tok)
    ensures
        final(out).deep_view() == old(out).deep_view().push(t@),
{
    let ghost pre = out.deep_view();
    let ghost pre_vec = out@;
    out.push(t);
    proof {
        assert forall|q: int| 0 <= q < out@.len() implies out.deep_view()[q] == pre.push(
            out@[out@.len() - 1]@,
        )[q] by {
            assert(out.deep_view()[q] == out@[q].deep_view());
            if q < pre_vec.len() {
                assert(out@[q] == pre_vec[q]);
                assert(pre_vec[q].deep_view() == pre[q]);
            }
        }
        assert(out.deep_view() =~= pre.push(out@[out@.len() - 1]@));
    }
}

/// Appends the tokens of a selector.
fn push_selector_tokens(s: &ColumnSelector, out: &mut Vec<Tok>)
    ensures
        final(out).deep_view() == old(out).deep_view().add(spec_tokens_selector(s@)),
{
    let ghost pre = out.deep_view();
    match &s.table {
        Some(t) => {
            push_tok(out, Tok::Ident(t.clone()));
            push_tok(out, Tok::Dot);
            push_tok(out, Tok::Ident(s.field.clone()));
            proof {
                assert(out.deep_view() =~= pre.add(spec_tokens_selector(s@)));
            }
        },
        None => {
            push_tok(out, Tok::Ident(s.field.clone()));
            proof {
                assert(out.deep_view() =~= pre.add(spec_tokens_selector(s@)));
            }
        },
    }
}

/// Appends the tokens of a filter.
fn push_filter_tokens(f: &Filter, out: &mut Vec<Tok>)
    ensures
        final(out).deep_view() == old(out).deep_view().add(spec_tokens_filter(f@)),
    decreases *f,
{
    let ghost pre = out.deep_view();
    match f {
        Filter::Id(cs) => {
            push_selector_tokens(cs, out);
        },
        Filter::LitS(s) => {
            push_tok(out, Tok::StrLit(s.clone()));
            proof {
                assert(out.deep_view() =~= pre.add(spec_tokens_filter(f@)));
            }
        },
        Filter::LitB(b) => {
            if *b {
                push_tok(out, Tok::True);
            } else {
                push_tok(out, Tok::False);
            }
            proof {
                assert(out.deep_view() =~= pre.add(spec_tokens_filter(f@)));
            }
        },
        Filter::LitI(v) => {
            push_tok(out, Tok::IntLit(*v));
            proof {
                assert(out.deep_view() =~= pre.add(spec_tokens_filter(f@)));
            }
        },
        Filter::UnaryOp(_, f1) => {
            push_tok(out, Tok::LParen);
            push_tok(out, Tok::Not);
            push_filter_tokens(f1, out);
            push_tok(out, Tok::RParen);
            proof {
                assert(out.deep_view() =~= pre.add(spec_tokens_filter(f@)));
            }
        },
        Filter::BinaryOp(op, l, r) => {
            push_tok(out, Tok::LParen);
            push_filter_tokens(l, out);
            let op_tok = match op {
                BinaryOp::And => Tok::AndAnd,
                BinaryOp::Or => Tok::OrOr,
                BinaryOp::Eq => Tok::EqEq,
                BinaryOp::Lt => Tok::Less,
                BinaryOp::Like => Tok::Like,
            };
            push_tok(out, op_tok);
            push_filter_tokens(r, out);
            push_tok(out, Tok::RParen);
            proof {
                assert(out.deep_view() =~= pre.add(spec_tokens_filter(f@)));
            }
        },
    }
}

/// Appends the tokens of a table reference.
fn push_table_tokens(t: &Table, out: &mut Vec<Tok>)
    ensures
        final(out).deep_view() == old(out).deep_view().add(spec_tokens_table(t@)),
{
    let ghost pre = out.deep_view();
    match &t.alias {
        Some(a) => {
            push_tok(out, Tok::Ident(t.table_name.clone()));
            push_tok(out, Tok::As);
            push_tok(out, Tok::Ident(a.clone()));
            proof {
                assert(out.deep_view() =~= pre.add(spec_tokens_table(t@)));
            }
        },
        None => {
            push_tok(out, Tok::Ident(t.table_name.clone()));
            proof {
                assert(out.deep_view() =~= pre.add(spec_tokens_table(t@)));
            }
        },
    }
}

/// A comma-separated list's tokens, read off one element at a time.
proof fn lemma_tokens_columns_split(cols: Seq<SpecColumnSelector>, k: int)
    requires
        0 <= k < cols.len(),
    ensures
        spec_tokens_columns(cols.skip(k)) == if k + 1 == cols.len() {
            spec_tokens_selector(cols[k])
        } else {
            spec_tokens_selector(cols[k]).push(SpecTok::Comma).add(
                spec_tokens_columns(cols.skip(k + 1)),
            )
        },
{
    assert(cols.skip(k)[0] == cols[k]);
    assert(cols.skip(k).drop_first() =~= cols.skip(k + 1));
}

/// A comma-separated table list's tokens, read off one element at a time.
proof fn lemma_tokens_tables_split(tabs: Seq<SpecTable>, k: int)
    requires
        0 <= k < tabs.len(),
    ensures
        spec_tokens_tables(tabs.skip(k)) == if k + 1 == tabs.len() {
            spec_tokens_table(tabs[k])
        } else {
            spec_tokens_table(tabs[k]).push(SpecTok::Comma).add(
                spec_tokens_tables(tabs.skip(k + 1)),
            )
        },
{
    assert(tabs.skip(k)[0] == tabs[k]);
    assert(tabs.skip(k).drop_first() =~= tabs.skip(k + 1));
}

/// Appends the tokens of a selection.
#[verifier::loop_isolation(false)]
fn push_selection_tokens(s: &Selection, out: &mut Vec<Tok>)
    ensures
        final(out).deep_view() == old(out).deep_view().add(spec_tokens_selection(s@)),
{
    let ghost pre = out.deep_view();
    match s {
        Selection::Star => {
            push_tok(out, Tok::Star);
            proof {
                assert(out.deep_view() =~= pre.add(spec_tokens_selection(s@)));
            }
        },
        Selection::Columns(cols) => {
            let ghost cv = cols.deep_view();
            let n = cols.len();
            let mut k: usize = 0;
            proof {
                assert(cv.skip(0) =~= cv);
            }
            while k < n
                invariant
                    k <= n,
                    k < n ==> out.deep_view().add(spec_tokens_columns(cv.skip(k as int)))
                        == pre.add(spec_tokens_columns(cv)),
                    k == n ==> out.deep_view() == pre.add(spec_tokens_columns(cv)),
                decreases n - k,
            {
                proof {
                    assert(cv[k as int] == cols@[k as int]@);
                    lemma_tokens_columns_split(cv, k as int);
                }
                push_selector_tokens(&cols[k], out);
                if k + 1 < n {
                    push_tok(out, Tok::Comma);
                }
                proof {
                    if k as int + 1 < cv.len() {
                        assert(out.deep_view().add(spec_tokens_columns(cv.skip(k as int + 1)))
                            =~= pre.add(spec_tokens_columns(cv)));
                    } else {
                        assert(out.deep_view() =~= pre.add(spec_tokens_columns(cv)));
                    }
                }
                k += 1;
            }
            proof {
                if n == 0 {
                    assert(spec_tokens_columns(cv) =~= Seq::<SpecTok>::empty());
                    assert(pre.add(spec_tokens_columns(cv)) =~= pre);
                }
                assert(out.deep_view() == pre.add(spec_tokens_selection(s@)));
            }
        },
    }
}

/// Appends the tokens of a `FROM` table list.
#[verifier::loop_isolation(false)]
fn push_tables_tokens(tabs: &Vec<Table>, out: &mut Vec<Tok>)
    ensures
        final(out).deep_view() == old(out).deep_view().add(
            spec_tokens_tables(tabs.deep_view()),
        ),
{
    let ghost pre = out.deep_view();
    let ghost tv = tabs.deep_view();
    let n = tabs.len();
    let mut k: usize = 0;
    proof {
        assert(tv.skip(0) =~= tv);
    }
    while k < n
        invariant
            k <= n,
            k < n ==> out.deep_view().add(spec_tokens_tables(tv.skip(k as int))) == pre.add(
                spec_tokens_tables(tv),
            ),
            k == n ==> out.deep_view() == pre.add(spec_tokens_tables(tv)),
        decreases n - k,
    {
        proof {
            assert(tv[k as int] == tabs@[k as int]@);
            lemma_tokens_tables_split(tv, k as int);
        }
        push_table_tokens(&tabs[k], out);
        if k + 1 < n {
            push_tok(out, Tok::Comma);
        }
        proof {
            if k as int + 1 < tv.len() {
                assert(out.deep_view().add(spec_tokens_tables(tv.skip(k as int + 1))) =~= pre.add(
                    spec_tokens_tables(tv),
                ));
            } else {
                assert(out.deep_view() =~= pre.add(spec_tokens_tables(tv)));
            }
        }
        k += 1;
    }
    proof {
        if n == 0 {
            assert(spec_tokens_tables(tv) =~= Seq::<SpecTok>::empty());
            assert(pre.add(spec_tokens_tables(tv)) =~= pre);
        }
    }
}

/// Renders a non-negative number in decimal.
pub fn render_u64(n: u64, out: &mut String)
    ensures
        final(out)@ == old(out)@.add(dec_digits(n as int)),
    decreases n,
{
    let ghost pre = out@;
    if n < 10 {
        push_char(out, digit_char_exec(n));
        proof {
            assert(out@ =~= pre.add(seq![digit_char(n as int)]));
        }
    } else {
        render_u64(n / 10, out);
        push_char(out, digit_char_exec(n % 10));
        proof {
            assert(out@ =~= pre.add(dec_digits(n as int / 10).push(digit_char(n as int % 10))));
        }
    }
}

/// The decimal digit character for `d` (0 to 9; larger values render as 9).
fn digit_char_exec(d: u64) -> (r: char)
    ensures
        r == digit_char(d as int),
{
    if d == 0 {
        '0'
    } else if d == 1 {
        '1'
    } else if d == 2 {
        '2'
    } else if d == 3 {
        '3'
    } else if d == 4 {
        '4'
    } else if d == 5 {
        '5'
    } else if d == 6 {
        '6'
    } else if d == 7 {
        '7'
    } else if d == 8 {
        '8'
    } else {
        '9'
    }
}

/// Renders a signed 64-bit integer in decimal.
pub fn render_i64(v: i64, out: &mut String)
    ensures
        final(out)@ == old(out)@.add(spec_render_int(v as int)),
{
    if v < 0 {
        push_char(out, '-');
        let mag: u64 = if v == i64::MIN {
            9_223_372_036_854_775_808u64
        } else {
            (-v) as u64
        };
        render_u64(mag, out);
        proof {
            assert(old(out)@.push('-').add(dec_digits(mag as int)) =~= old(out)@.add(
                seq!['-'].add(dec_digits(mag as int)),
            ));
        }
    } else {
        render_u64(v as u64, out);
    }
}

/// Appends the text of one token and a trailing space.
fn push_tok_text(t: &Tok, out: &mut String)
    ensures
        final(out)@ == old(out)@.add(spec_tok_text(t@)).push(' '),
{
    let ghost pre = out@;
    match t {
        Tok::Select => {
            out.append("SELECT");
            proof {
                reveal_strlit("SELECT");
                assert("SELECT"@ =~= spec_tok_text(t@));
            }
        },
        Tok::From => {
            out.append("FROM");
            proof {
                reveal_strlit("FROM");
                assert("FROM"@ =~= spec_tok_text(t@));
            }
        },
        Tok::Where => {
            out.append("WHERE");
            proof {
                reveal_strlit("WHERE");
                assert("WHERE"@ =~= spec_tok_text(t@));
            }
        },
        Tok::As => {
            out.append("AS");
            proof {
                reveal_strlit("AS");
                assert("AS"@ =~= spec_tok_text(t@));
            }
        },
        Tok::Not => {
            out.append("NOT");
            proof {
                reveal_strlit("NOT");
                assert("NOT"@ =~= spec_tok_text(t@));
            }
        },
        Tok::Like => {
            out.append("LIKE");
            proof {
                reveal_strlit("LIKE");
                assert("LIKE"@ =~= spec_tok_text(t@));
            }
        },
        Tok::True => {
            out.append("true");
            proof {
                reveal_strlit("true");
                assert("true"@ =~= spec_tok_text(t@));
            }
        },
        Tok::False => {
            out.append("false");
            proof {
                reveal_strlit("false");
                assert("false"@ =~= spec_tok_text(t@));
            }
        },
        Tok::Ident(s) => {
            out.append(s.as_str());
        },
        Tok::IntLit(v) => {
            render_i64(*v, out);
        },
        Tok::StrLit(s) => {
            push_char(out, '"');
            out.append(s.as_str());
            push_char(out, '"');
            proof {
                assert(out@ =~= pre.add(spec_tok_text(t@)));
            }
        },
        Tok::AndAnd => {
            out.append("&&");
            proof {
                reveal_strlit("&&");
                assert("&&"@ =~= spec_tok_text(t@));
            }
        },
        Tok::OrOr => {
            out.append("||");
            proof {
                reveal_strlit("||");
                assert("||"@ =~= spec_tok_text(t@));
            }
        },
        Tok::EqEq => {
            out.append("==");
            proof {
                reveal_strlit("==");
                assert("=="@ =~= spec_tok_text(t@));
            }
        },
        Tok::Less => {
            out.append("<");
            proof {
                reveal_strlit("<");
                assert("<"@ =~= spec_tok_text(t@));
            }
        },
        Tok::Star => {
            out.append("*");
            proof {
                reveal_strlit("*");
                assert("*"@ =~= spec_tok_text(t@));
            }
        },
        Tok::Dot => {
            out.append(".");
            proof {
                reveal_strlit(".");
                assert("."@ =~= spec_tok_text(t@));
            }
        },
        Tok::Comma => {
            out.append(",");
            proof {
                reveal_strlit(",");
                assert(","@ =~= spec_tok_text(t@));
            }
        },
        Tok::LParen => {
            out.append("(");
            proof {
                reveal_strlit("(");
                assert("("@ =~= spec_tok_text(t@));
            }
        },
        Tok::RParen => {
            out.append(")");
            proof {
                reveal_strlit(")");
                assert(")"@ =~= spec_tok_text(t@));
            }
        },
    }
    push_char(out, ' ');
}

/// Renders a token sequence as text.
#[verifier::loop_isolation(false)]
fn text_of_tokens(ts: &Vec<Tok>) -> (r: String)
    ensures
        r@ == spec_text_of(ts.deep_view()),
{
    let ghost tv = ts.deep_view();
    let mut out = String::new();
    let n = ts.len();
    let mut k: usize = 0;
    proof {
        assert(tv.skip(0) =~= tv);
    }
    while k < n
        invariant
            k <= n,
            out@.add(spec_text_of(tv.skip(k as int))) == spec_text_of(tv),
        decreases n - k,
    {
        proof {
            assert(tv[k as int] == ts@[k as int]@);
            assert(tv.skip(k as int)[0] == tv[k as int]);
            assert(tv.skip(k as int).drop_first() =~= tv.skip(k as int + 1));
        }
        push_tok_text(&ts[k], &mut out);
        proof {
            assert(out@.add(spec_text_of(tv.skip(k as int + 1))) =~= spec_text_of(tv));
        }
        k += 1;
    }
    proof {
        assert(spec_text_of(tv.skip(n as int)) =~= Seq::<char>::empty());
        assert(out@ =~= spec_text_of(tv));
    }
    out
}

impl UnaryOp {
    /// Renders this operator as its keyword.
    pub fn render(&self) -> (r: String)
        ensures
            r@ == spec_tok_text(SpecTok::Not),
    {
        let mut out = String::new();
        out.append("NOT");
        proof {
            reveal_strlit("NOT");
            assert("NOT"@ =~= spec_tok_text(SpecTok::Not));
        }
        out
    }
}

impl BinaryOp {
    /// Renders this operator as its symbol or keyword.
    pub fn render(&self) -> (r: String)
        ensures
            r@ == spec_tok_text(tok_of_bop(*self)),
    {
        let mut out = String::new();
        match self {
            BinaryOp::And => {
                out.append("&&");
                proof {
                    reveal_strlit("&&");
                    assert("&&"@ =~= spec_tok_text(tok_of_bop(*self)));
                }
            },
            BinaryOp::Or => {
                out.append("||");
                proof {
                    reveal_strlit("||");
                    assert("||"@ =~= spec_tok_text(tok_of_bop(*self)));
                }
            },
            BinaryOp::Eq => {
                out.append("==");
                proof {
                    reveal_strlit("==");
                    assert("=="@ =~= spec_tok_text(tok_of_bop(*self)));
                }
            },
            BinaryOp::Lt => {
                out.append("<");
                proof {
                    reveal_strlit("<");
                    assert("<"@ =~= spec_tok_text(tok_of_bop(*self)));
                }
            },
            BinaryOp::Like => {
                out.append("LIKE");
                proof {
                    reveal_strlit("LIKE");
                    assert("LIKE"@ =~= spec_tok_text(tok_of_bop(*self)));
                }
            },
        }
        out
    }
}

impl ColumnSelector {
    /// Renders this selector as `field` or `table . field`.
    pub fn render(&self) -> (r: String)
        ensures
            r@ == spec_text_of(spec_tokens_selector(self@)),
    {
        let mut toks: Vec<Tok> = Vec::new();
        proof {
            assert(toks.deep_view() =~= Seq::<SpecTok>::empty());
        }
        push_selector_tokens(self, &mut toks);
        proof {
            assert(Seq::<SpecTok>::empty().add(spec_tokens_selector(self@))
                =~= spec_tokens_selector(self@));
        }
        text_of_tokens(&toks)
    }
}

impl Table {
    /// Renders this table reference, with its alias if it has one.
    pub fn render(&self) -> (r: String)
        ensures
            r@ == spec_text_of(spec_tokens_table(self@)),
    {
        let mut toks: Vec<Tok> = Vec::new();
        proof {
            assert(toks.deep_view() =~= Seq::<SpecTok>::empty());
        }
        push_table_tokens(self, &mut toks);
        proof {
            assert(Seq::<SpecTok>::empty().add(spec_tokens_table(self@)) =~= spec_tokens_table(
                self@,
            ));
        }
        text_of_tokens(&toks)
    }
}

impl Selection {
    /// Renders this selection: `*` or the comma-separated column list.
    pub fn render(&self) -> (r: String)
        ensures
            r@ == spec_text_of(spec_tokens_selection(self@)),
    {
        let mut toks: Vec<Tok> = Vec::new();
        proof {
            assert(toks.deep_view() =~= Seq::<SpecTok>::empty());
        }
        push_selection_tokens(self, &mut toks);
        proof {
            assert(Seq::<SpecTok>::empty().add(spec_tokens_selection(self@))
                =~= spec_tokens_selection(self@));
        }
        text_of_tokens(&toks)
    }
}

impl Filter {
    /// Renders this filter as query text; composites are parenthesized.
    pub fn render(&self) -> (r: String)
        ensures
            r@ == spec_render_filter(self@),
    {
        let mut toks: Vec<Tok> = Vec::new();
        proof {
            assert(toks.deep_view() =~= Seq::<SpecTok>::empty());
        }
        push_filter_tokens(self, &mut toks);
        proof {
            assert(Seq::<SpecTok>::empty().add(spec_tokens_filter(self@)) =~= spec_tokens_filter(
                self@,
            ));
        }
        text_of_tokens(&toks)
    }
}

impl Query {
    /// Renders this query as `SELECT … FROM … WHERE …` text that parses back
    /// to it.
    pub fn render(&self) -> (r: String)
        ensures
            r@ == spec_render_query(self@),
    {
        let mut toks: Vec<Tok> = Vec::new();
        proof {
            assert(toks.deep_view() =~= Seq::<SpecTok>::empty());
        }
        push_tok(&mut toks, Tok::Select);
        push_selection_tokens(&self.selection, &mut toks);
        push_tok(&mut toks, Tok::From);
        push_tables_tokens(&self.tables, &mut toks);
        push_tok(&mut toks, Tok::Where);
        push_filter_tokens(&self.filter, &mut toks);
        proof {
            assert(toks.deep_view() =~= spec_tokens_query(self@));
        }
        text_of_tokens(&toks)
    }
}

// ------------------------------------------------------------------
// The result surface: rendering tables.
// ------------------------------------------------------------------

/// The rendering of one cell: integers in decimal, strings double-quoted.
pub open spec fn spec_render_cell(c: SpecCell) -> Seq<char> {
    match c {
        SpecCell::Int(i) => spec_render_int(i),
        SpecCell::Str(s) => seq!['"'].add(s).push('"'),
    }
}

/// The rendering of an optional cell: a missing cell renders as nothing.
pub open spec fn spec_render_cell_opt(c: Option<SpecCell>) -> Seq<char> {
    match c {
        Some(c) => spec_render_cell(c),
        None => Seq::empty(),
    }
}

/// Pieces joined by a separator character.
pub open spec fn spec_join(items: Seq<Seq<char>>, sep: char) -> Seq<char>
    decreases items.len(),
{
    if items.len() == 0 {
        Seq::empty()
    } else if items.len() == 1 {
        items[0]
    } else {
        items[0].push(sep).add(spec_join(items.drop_first(), sep))
    }
}

/// The rendering of one row: its cells comma-joined.
pub open spec fn spec_render_row(row: Seq<Option<SpecCell>>) -> Seq<char> {
    spec_join(Seq::new(row.len(), |i: int| spec_render_cell_opt(row[i])), ',')
}

/// The rendering of a whole table: the comma-joined header, a newline, and
/// the newline-joined rows.
pub open spec fn spec_render_table(t: SpecTableData) -> Seq<char> {
    spec_join(t.header, ',').push('\n').add(
        spec_join(Seq::new(t.rows.len(), |i: int| spec_render_row(t.rows[i])), '\n'),
    )
}

impl TableCell {
    /// Renders this cell: an integer in decimal, a string double-quoted.
    pub fn render(&self) -> (r: String)
        ensures
            r@ == spec_render_cell(self@),
    {
        let mut out = String::new();
        match self {
            TableCell::CellInt(i) => {
                render_i64(*i, &mut out);
            },
            TableCell::CellString(s) => {
                push_char(&mut out, '"');
                out.append(s.as_str());
                push_char(&mut out, '"');
                proof {
                    assert(out@ =~= spec_render_cell(self@));
                }
            },
        }
        out
    }
}

/// Joins rendered pieces with a separator.
#[verifier::loop_isolation(false)]
fn join_pieces(items: &Vec<String>, sep: char) -> (r: String)
    ensures
        r@ == spec_join(items.deep_view(), sep),
{
    let ghost iv = items.deep_view();
    let mut out = String::new();
    let n = items.len();
    let mut k: usize = 0;
    while k < n
        invariant
            k <= n,
            k == 0 ==> out@ == Seq::<char>::empty(),
            0 < k < n ==> out@.add(seq![sep]).add(spec_join(iv.skip(k as int), sep)) == spec_join(
                iv,
                sep,
            ),
            0 < k == n ==> out@ == spec_join(iv, sep),
        decreases n - k,
    {
        proof {
            assert(iv[k as int] == items@[k as int]@);
            if k > 0 {
                assert(iv.skip(k as int)[0] == iv[k as int]);
                assert(iv.skip(k as int).drop_first() =~= iv.skip(k as int + 1));
            } else {
                assert(iv.skip(0) =~= iv);
            }
        }
        if k > 0 {
            push_char(&mut out, sep);
        }
        out.append(items[k].as_str());
        proof {
            if k as int + 1 < iv.len() {
                assert(out@.add(seq![sep]).add(spec_join(iv.skip(k as int + 1), sep)) =~= spec_join(
                    iv,
                    sep,
                ));
            } else {
                assert(out@ =~= spec_join(iv, sep));
            }
        }
        k += 1;
    }
    proof {
        if n == 0 {
            assert(out@ =~= spec_join(iv, sep));
        }
    }
    out
}

impl TableData {
    /// Renders this table: the comma-joined header line, then one line per
    /// row with comma-joined cell renderings; a missing cell renders as an
    /// empty field.
    pub fn render(&self) -> (r: String)
        ensures
            r@ == spec_render_table(self@),
    {
        let header = join_pieces(&self.header, ',');
        let mut row_texts: Vec<String> = Vec::new();
        let n = self.rows.len();
        let mut k: usize = 0;
        while k < n
            invariant
                k <= n,
                n == self.rows@.len(),
                row_texts@.len() == k,
                forall|j: int|
                    0 <= j < k ==> row_texts.deep_view()[j] == spec_render_row(
                        self@.rows[j],
                    ),
            decreases n - k,
        {
            let row = &self.rows[k];
            let m = row.len();
            let mut cell_texts: Vec<String> = Vec::new();
            let mut c: usize = 0;
            while c < m
                invariant
                    c <= m,
                    m == row@.len(),
                    cell_texts@.len() == c,
                    forall|j: int|
                        0 <= j < c ==> cell_texts.deep_view()[j] == spec_render_cell_opt(
                            row.deep_view()[j],
                        ),
                decreases m - c,
            {
                let piece = match &row[c] {
                    Some(cell) => cell.render(),
                    None => String::new(),
                };
                let ghost pre = cell_texts.deep_view();
                let ghost pre_vec = cell_texts@;
                cell_texts.push(piece);
                proof {
                    assert(row.deep_view()[c as int] == row@[c as int].deep_view());
                    assert forall|q: int| 0 <= q <= c as int implies cell_texts.deep_view()[q]
                        == spec_render_cell_opt(row.deep_view()[q]) by {
                        assert(cell_texts.deep_view()[q] == cell_texts@[q].deep_view());
                        if q < c as int {
                            assert(cell_texts@[q] == pre_vec[q]);
                            assert(pre_vec[q].deep_view() == pre[q]);
                        }
                    }
                }
                c += 1;
            }
            let text = join_pieces(&cell_texts, ',');
            proof {
                assert(cell_texts.deep_view() =~= Seq::new(
                    row.deep_view().len(),
                    |i: int| spec_render_cell_opt(row.deep_view()[i]),
                ));
                assert(self@.rows[k as int] == self.rows@[k as int].deep_view());
            }
            let ghost pre = row_texts.deep_view();
            let ghost pre_vec = row_texts@;
            row_texts.push(text);
            proof {
                assert forall|q: int| 0 <= q <= k as int implies row_texts.deep_view()[q]
                    == spec_render_row(self@.rows[q]) by {
                    assert(row_texts.deep_view()[q] == row_texts@[q].deep_view());
                    if q < k as int {
                        assert(row_texts@[q] == pre_vec[q]);
                        assert(pre_vec[q].deep_view() == pre[q]);
                    }
                }
            }
            k += 1;
        }
        let body = join_pieces(&row_texts, '\n');
        let mut out = header;
        push_char(&mut out, '\n');
        out.append(body.as_str());
        proof {
            assert(row_texts.deep_view() =~= Seq::new(
                self@.rows.len(),
                |i: int| spec_render_row(self@.rows[i]),
            ));
            assert(self@.header == self.header.deep_view());
            assert(out@ =~= spec_render_table(self@));
        }
        out
    }
}

} // verus!
