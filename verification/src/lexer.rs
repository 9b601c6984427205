//! The lexer: turns query text into a token stream. Keywords match
//! case-insensitively; identifiers are case-sensitive; whitespace separates
//! tokens and is otherwise insignificant.

use vstd::prelude::*;

use crate::ast::{eq_ignore_case, is_digit_char, is_letter};
use crate::strutil::chars_to_string;

verus! {

/// A token of the query language.
#[derive(Debug, PartialEq, Eq)]
pub enum Tok {
    Select,
    From,
    Where,
    As,
    Not,
    Like,
    True,
    False,
    Ident(String),
    IntLit(i64),
    StrLit(String),
    AndAnd,
    OrOr,
    EqEq,
    Less,
    Star,
    Dot,
    Comma,
    LParen,
    RParen,
}

/// Model of a token.
pub enum SpecTok {
    Select,
    From,
    Where,
    As,
    Not,
    Like,
    True,
    False,
    Ident(Seq<char>),
    IntLit(int),
    StrLit(Seq<char>),
    AndAnd,
    OrOr,
    EqEq,
    Less,
    Star,
    Dot,
    Comma,
    LParen,
    RParen,
}

impl View for Tok {
    type V = SpecTok;

    open spec fn view(&self) -> SpecTok {
        match self {
            Tok::Select => SpecTok::Select,
            Tok::From => SpecTok::From,
            Tok::Where => SpecTok::Where,
            Tok::As => SpecTok::As,
            Tok::Not => SpecTok::Not,
            Tok::Like => SpecTok::Like,
            Tok::True => SpecTok::True,
            Tok::False => SpecTok::False,
            Tok::Ident(s) => SpecTok::Ident(s@),
            Tok::IntLit(i) => SpecTok::IntLit(*i as int),
            Tok::StrLit(s) => SpecTok::StrLit(s@),
            Tok::AndAnd => SpecTok::AndAnd,
            Tok::OrOr => SpecTok::OrOr,
            Tok::EqEq => SpecTok::EqEq,
            Tok::Less => SpecTok::Less,
            Tok::Star => SpecTok::Star,
            Tok::Dot => SpecTok::Dot,
            Tok::Comma => SpecTok::Comma,
            Tok::LParen => SpecTok::LParen,
            Tok::RParen => SpecTok::RParen,
        }
    }
}

impl DeepView for Tok {
    type V = SpecTok;

    open spec fn deep_view(&self) -> SpecTok {
        self.view()
    }
}

/// A failure to read the query text, with the position (character index for
/// lexical errors, token index for grammar errors) where reading stopped.
#[derive(Debug, PartialEq, Eq, Clone, Copy)]
pub struct ParseError {
    pub pos: usize,
}

impl ParseError {
    /// A human-readable description of the failure, naming the position
    /// where reading stopped.
    pub fn message(&self) -> (r: String)
        ensures
            r@ == "failed to read the query at position "@.add(
                crate::render::dec_digits(self.pos as int),
            ),
    {
        let mut out = String::new();
        out.append("failed to read the query at position ");
        crate::render::render_u64(self.pos as u64, &mut out);
        out
    }
}

/// Whitespace separates tokens.
pub open spec fn is_space_char(c: char) -> bool {
    c == ' ' || c == '\n' || c == '\t' || c == '\r'
}

/// A character that may continue an identifier.
pub open spec fn is_word_char(c: char) -> bool {
    is_letter(c) || is_digit_char(c)
}

/// The end of the identifier run beginning at `i`.
pub open spec fn word_end(s: Seq<char>, i: int) -> int
    decreases s.len() - i when 0 <= i <= s.len()
{
    if i >= s.len() || !is_word_char(s[i]) {
        i
    } else {
        word_end(s, i + 1)
    }
}

/// The end of the digit run beginning at `i`.
pub open spec fn digits_end(s: Seq<char>, i: int) -> int
    decreases s.len() - i when 0 <= i <= s.len()
{
    if i >= s.len() || !is_digit_char(s[i]) {
        i
    } else {
        digits_end(s, i + 1)
    }
}

/// `word_end` stays within the text and moves forward over word characters.
pub proof fn lemma_word_end(s: Seq<char>, i: int)
    requires
        0 <= i <= s.len(),
    ensures
        i <= word_end(s, i) <= s.len(),
        i < s.len() && is_word_char(s[i]) ==> word_end(s, i) > i,
    decreases s.len() - i,
{
    if i < s.len() && is_word_char(s[i]) {
        lemma_word_end(s, i + 1);
    }
}

/// `digits_end` stays within the text and moves forward over digits.
pub proof fn lemma_digits_end(s: Seq<char>, i: int)
    requires
        0 <= i <= s.len(),
    ensures
        i <= digits_end(s, i) <= s.len(),
        i < s.len() && is_digit_char(s[i]) ==> digits_end(s, i) > i,
    decreases s.len() - i,
{
    if i < s.len() && is_digit_char(s[i]) {
        lemma_digits_end(s, i + 1);
    }
}

/// The position of the closing quote of a string body beginning at `i`, or
/// `None` if the string is unterminated or an escape is invalid. The escape
/// set is exactly `\"`, `\n` and `\\`.
pub open spec fn str_body_end(s: Seq<char>, i: int) -> Option<int>
    decreases s.len() - i when 0 <= i
{
    if i >= s.len() {
        None
    } else if s[i] == '"' {
        Some(i)
    } else if s[i] == '\\' {
        if i + 1 < s.len() && (s[i + 1] == '"' || s[i + 1] == 'n' || s[i + 1] == '\\') {
            str_body_end(s, i + 2)
        } else {
            None
        }
    } else {
        str_body_end(s, i + 1)
    }
}

/// A found closing quote lies within the text, at or after the start.
pub proof fn lemma_str_body_end(s: Seq<char>, i: int)
    requires
        0 <= i,
    ensures
        match str_body_end(s, i) {
            Some(e) => i <= e < s.len() && s[e] == '"',
            None => true,
        },
    decreases s.len() - i,
{
    if i < s.len() && s[i] != '"' {
        if s[i] == '\\' {
            if i + 1 < s.len() && (s[i + 1] == '"' || s[i + 1] == 'n' || s[i + 1] == '\\') {
                lemma_str_body_end(s, i + 2);
            }
        } else {
            lemma_str_body_end(s, i + 1);
        }
    }
}

/// The value of the digit run `[i, e)` read as a decimal number.
pub open spec fn digits_val(s: Seq<char>, i: int, e: int) -> int
    decreases e - i,
{
    if i >= e {
        0
    } else {
        digits_val(s, i, e - 1) * 10 + ((s[e - 1] as u32) as int - 48)
    }
}

/// A digit run's value is never negative.
pub proof fn lemma_digits_val_nonneg(s: Seq<char>, i: int, e: int)
    requires
        i <= e,
        forall|j: int| i <= j < e ==> is_digit_char(#[trigger] s[j]),
    ensures
        digits_val(s, i, e) >= 0,
    decreases e - i,
{
    if e > i {
        lemma_digits_val_nonneg(s, i, e - 1);
        assert(is_digit_char(s[e - 1]));
        assert(digits_val(s, i, e - 1) * 10 >= 0) by (nonlinear_arith)
            requires
                digits_val(s, i, e - 1) >= 0,
        ;
    }
}

/// Reading further digits never shrinks the value.
pub proof fn lemma_digits_val_grows(s: Seq<char>, i: int, e1: int, e2: int)
    requires
        i <= e1 <= e2,
        forall|j: int| i <= j < e2 ==> is_digit_char(#[trigger] s[j]),
    ensures
        digits_val(s, i, e1) <= digits_val(s, i, e2),
    decreases e2 - e1,
{
    if e1 < e2 {
        lemma_digits_val_grows(s, i, e1, e2 - 1);
        lemma_digits_val_nonneg(s, i, e2 - 1);
        assert(is_digit_char(s[e2 - 1]));
        assert(digits_val(s, i, e2 - 1) * 10 >= digits_val(s, i, e2 - 1)) by (nonlinear_arith)
            requires
                digits_val(s, i, e2 - 1) >= 0,
        ;
    }
}

/// The token the word `w` stands for: a keyword, matched case-insensitively,
/// or an identifier.
pub open spec fn spec_word_token(w: Seq<char>) -> SpecTok {
    if eq_ignore_case(w, seq!['s', 'e', 'l', 'e', 'c', 't']) {
        SpecTok::Select
    } else if eq_ignore_case(w, seq!['f', 'r', 'o', 'm']) {
        SpecTok::From
    } else if eq_ignore_case(w, seq!['w', 'h', 'e', 'r', 'e']) {
        SpecTok::Where
    } else if eq_ignore_case(w, seq!['a', 's']) {
        SpecTok::As
    } else if eq_ignore_case(w, seq!['n', 'o', 't']) {
        SpecTok::Not
    } else if eq_ignore_case(w, seq!['l', 'i', 'k', 'e']) {
        SpecTok::Like
    } else if eq_ignore_case(w, seq!['t', 'r', 'u', 'e']) {
        SpecTok::True
    } else if eq_ignore_case(w, seq!['f', 'a', 'l', 's', 'e']) {
        SpecTok::False
    } else {
        SpecTok::Ident(w)
    }
}

/// The token beginning at position `i` (not a space), with the position just
/// after it; `None` marks a lexical error at `i`.
pub open spec fn token_at(s: Seq<char>, i: int) -> Option<(SpecTok, int)> {
    let c = s[i];
    if is_letter(c) {
        let e = word_end(s, i);
        Some((spec_word_token(s.subrange(i, e)), e))
    } else if is_digit_char(c) {
        let e = digits_end(s, i);
        let v = digits_val(s, i, e);
        if v <= i64::MAX {
            Some((SpecTok::IntLit(v), e))
        } else {
            None
        }
    } else if c == '-' {
        if i + 1 < s.len() && is_digit_char(s[i + 1]) {
            let e = digits_end(s, i + 1);
            let v = digits_val(s, i + 1, e);
            if v <= 0x8000_0000_0000_0000 {
                Some((SpecTok::IntLit(-v), e))
            } else {
                None
            }
        } else {
            None
        }
    } else if c == '"' {
        match str_body_end(s, i + 1) {
            Some(e) => Some((SpecTok::StrLit(s.subrange(i + 1, e)), e + 1)),
            None => None,
        }
    } else if c == '&' {
        if i + 1 < s.len() && s[i + 1] == '&' {
            Some((SpecTok::AndAnd, i + 2))
        } else {
            None
        }
    } else if c == '|' {
        if i + 1 < s.len() && s[i + 1] == '|' {
            Some((SpecTok::OrOr, i + 2))
        } else {
            None
        }
    } else if c == '=' {
        if i + 1 < s.len() && s[i + 1] == '=' {
            Some((SpecTok::EqEq, i + 2))
        } else {
            None
        }
    } else if c == '<' {
        Some((SpecTok::Less, i + 1))
    } else if c == '*' {
        Some((SpecTok::Star, i + 1))
    } else if c == '.' {
        Some((SpecTok::Dot, i + 1))
    } else if c == ',' {
        Some((SpecTok::Comma, i + 1))
    } else if c == '(' {
        Some((SpecTok::LParen, i + 1))
    } else if c == ')' {
        Some((SpecTok::RParen, i + 1))
    } else {
        None
    }
}

/// A found token always ends after its start and within the text.
pub proof fn lemma_token_at(s: Seq<char>, i: int)
    requires
        0 <= i < s.len(),
    ensures
        match token_at(s, i) {
            Some((t, j)) => i < j <= s.len(),
            None => true,
        },
{
    lemma_word_end(s, i);
    lemma_digits_end(s, i);
    if i + 1 <= s.len() {
        lemma_digits_end(s, i + 1);
        lemma_str_body_end(s, i + 1);
    }
}

/// The token sequence of the text from position `i` on: spaces are skipped,
/// tokens are read greedily; `None` marks a lexical error.
pub open spec fn spec_lex(s: Seq<char>, i: int) -> Option<Seq<SpecTok>>
    decreases s.len() - i when 0 <= i via spec_lex_dec
{
    if i >= s.len() {
        Some(Seq::empty())
    } else if is_space_char(s[i]) {
        spec_lex(s, i + 1)
    } else {
        match token_at(s, i) {
            None => None,
            Some((t, j)) => match spec_lex(s, j) {
                None => None,
                Some(ts) => Some(seq![t].add(ts)),
            },
        }
    }
}

#[via_fn]
proof fn spec_lex_dec(s: Seq<char>, i: int) {
    if 0 <= i && i < s.len() && !is_space_char(s[i]) {
        lemma_token_at(s, i);
    }
}

/// Whether `c` is a whitespace separator.
fn is_space_exec(c: char) -> (r: bool)
    ensures
        r == is_space_char(c),
{
    c == ' ' || c == '\n' || c == '\t' || c == '\r'
}

/// Whether `c` is an ASCII letter.
fn is_letter_exec(c: char) -> (r: bool)
    ensures
        r == is_letter(c),
{
    let u = c as u32;
    (65 <= u && u <= 90) || (97 <= u && u <= 122)
}

/// Whether `c` is an ASCII digit.
fn is_digit_exec(c: char) -> (r: bool)
    ensures
        r == is_digit_char(c),
{
    let u = c as u32;
    48 <= u && u <= 57
}

/// Whether the character at `idx` may continue an identifier.
fn word_char_at(s: &Vec<char>, idx: usize) -> (r: bool)
    requires
        idx < s@.len(),
    ensures
        r == is_word_char(s@[idx as int]),
{
    let c = s[idx];
    is_letter_exec(c) || is_digit_exec(c)
}

/// Whether `c` is `lo` or its upper-case form `up`, compared as code
/// points.
fn ci(c: char, lo: char, up: char) -> (r: bool)
    ensures
        r == (c as u32 == lo as u32 || c as u32 == up as u32),
{
    let cu = c as u32;
    cu == lo as u32 || cu == up as u32
}

/// Classifies the word `[i, e)` as a keyword or an identifier.
#[verifier::loop_isolation(false)]
fn word_token(s: &Vec<char>, i: usize, e: usize) -> (r: Tok)
    requires
        i < e <= s@.len(),
    ensures
        r@ == spec_word_token(s@.subrange(i as int, e as int)),
{
    let ghost w = s@.subrange(i as int, e as int);
    let n = e - i;
    if n == 2 {
        let a0 = ci(s[i], 'a', 'A');
        let a1 = ci(s[i + 1], 's', 'S');
        proof {
            assert(w[0] == s@[i as int]);
            assert(w[1] == s@[i as int + 1]);
        }
        if a0 && a1 {
            proof {
                assert forall|k: int| 0 <= k < 2 implies crate::ast::lower_code(w[k])
                    == crate::ast::lower_code(seq!['a', 's'][k]) by {
                    if k == 0 {
                    } else {
                        assert(k == 1);
                    }
                }
                assert(eq_ignore_case(w, seq!['a', 's']));
            }
            return Tok::As;
        }
        proof {
            assert(!eq_ignore_case(w, seq!['a', 's']));
        }
    } else if n == 3 {
        let a0 = ci(s[i], 'n', 'N');
        let a1 = ci(s[i + 1], 'o', 'O');
        let a2 = ci(s[i + 2], 't', 'T');
        proof {
            assert(w[0] == s@[i as int]);
            assert(w[1] == s@[i as int + 1]);
            assert(w[2] == s@[i as int + 2]);
        }
        if a0 && a1 && a2 {
            proof {
                assert forall|k: int| 0 <= k < 3 implies crate::ast::lower_code(w[k])
                    == crate::ast::lower_code(seq!['n', 'o', 't'][k]) by {
                    if k == 0 {
                    } else if k == 1 {
                    } else {
                        assert(k == 2);
                    }
                }
                assert(eq_ignore_case(w, seq!['n', 'o', 't']));
            }
            return Tok::Not;
        }
        proof {
            assert(!eq_ignore_case(w, seq!['n', 'o', 't']));
        }
    } else if n == 4 {
        let f0 = ci(s[i], 'f', 'F');
        let f1 = ci(s[i + 1], 'r', 'R');
        let f2 = ci(s[i + 2], 'o', 'O');
        let f3 = ci(s[i + 3], 'm', 'M');
        let l0 = ci(s[i], 'l', 'L');
        let l1 = ci(s[i + 1], 'i', 'I');
        let l2 = ci(s[i + 2], 'k', 'K');
        let l3 = ci(s[i + 3], 'e', 'E');
        let t0 = ci(s[i], 't', 'T');
        let t1 = ci(s[i + 1], 'r', 'R');
        let t2 = ci(s[i + 2], 'u', 'U');
        let t3 = ci(s[i + 3], 'e', 'E');
        proof {
            assert(w[0] == s@[i as int]);
            assert(w[1] == s@[i as int + 1]);
            assert(w[2] == s@[i as int + 2]);
            assert(w[3] == s@[i as int + 3]);
        }
        if f0 && f1 && f2 && f3 {
            proof {
                assert forall|k: int| 0 <= k < 4 implies crate::ast::lower_code(w[k])
                    == crate::ast::lower_code(seq!['f', 'r', 'o', 'm'][k]) by {
                    if k == 0 {
                    } else if k == 1 {
                    } else if k == 2 {
                    } else {
                        assert(k == 3);
                    }
                }
                assert(eq_ignore_case(w, seq!['f', 'r', 'o', 'm']));
            }
            return Tok::From;
        }
        if l0 && l1 && l2 && l3 {
            proof {
                assert forall|k: int| 0 <= k < 4 implies crate::ast::lower_code(w[k])
                    == crate::ast::lower_code(seq!['l', 'i', 'k', 'e'][k]) by {
                    if k == 0 {
                    } else if k == 1 {
                    } else if k == 2 {
                    } else {
                        assert(k == 3);
                    }
                }
                assert(eq_ignore_case(w, seq!['l', 'i', 'k', 'e']));
                assert(!eq_ignore_case(w, seq!['f', 'r', 'o', 'm']));
            }
            return Tok::Like;
        }
        if t0 && t1 && t2 && t3 {
            proof {
                assert forall|k: int| 0 <= k < 4 implies crate::ast::lower_code(w[k])
                    == crate::ast::lower_code(seq!['t', 'r', 'u', 'e'][k]) by {
                    if k == 0 {
                    } else if k == 1 {
                    } else if k == 2 {
                    } else {
                        assert(k == 3);
                    }
                }
                assert(eq_ignore_case(w, seq!['t', 'r', 'u', 'e']));
                assert(!eq_ignore_case(w, seq!['f', 'r', 'o', 'm']));
                assert(!eq_ignore_case(w, seq!['l', 'i', 'k', 'e']));
            }
            return Tok::True;
        }
        proof {
            assert(!eq_ignore_case(w, seq!['f', 'r', 'o', 'm']));
            assert(!eq_ignore_case(w, seq!['l', 'i', 'k', 'e']));
            assert(!eq_ignore_case(w, seq!['t', 'r', 'u', 'e']));
        }
    } else if n == 5 {
        let h0 = ci(s[i], 'w', 'W');
        let h1 = ci(s[i + 1], 'h', 'H');
        let h2 = ci(s[i + 2], 'e', 'E');
        let h3 = ci(s[i + 3], 'r', 'R');
        let h4 = ci(s[i + 4], 'e', 'E');
        let g0 = ci(s[i], 'f', 'F');
        let g1 = ci(s[i + 1], 'a', 'A');
        let g2 = ci(s[i + 2], 'l', 'L');
        let g3 = ci(s[i + 3], 's', 'S');
        let g4 = ci(s[i + 4], 'e', 'E');
        proof {
            assert(w[0] == s@[i as int]);
            assert(w[1] == s@[i as int + 1]);
            assert(w[2] == s@[i as int + 2]);
            assert(w[3] == s@[i as int + 3]);
            assert(w[4] == s@[i as int + 4]);
        }
        if h0 && h1 && h2 && h3 && h4 {
            proof {
                assert forall|k: int| 0 <= k < 5 implies crate::ast::lower_code(w[k])
                    == crate::ast::lower_code(seq!['w', 'h', 'e', 'r', 'e'][k]) by {
                    if k == 0 {
                    } else if k == 1 {
                    } else if k == 2 {
                    } else if k == 3 {
                    } else {
                        assert(k == 4);
                    }
                }
                assert(eq_ignore_case(w, seq!['w', 'h', 'e', 'r', 'e']));
            }
            return Tok::Where;
        }
        if g0 && g1 && g2 && g3 && g4 {
            proof {
                assert forall|k: int| 0 <= k < 5 implies crate::ast::lower_code(w[k])
                    == crate::ast::lower_code(seq!['f', 'a', 'l', 's', 'e'][k]) by {
                    if k == 0 {
                    } else if k == 1 {
                    } else if k == 2 {
                    } else if k == 3 {
                    } else {
                        assert(k == 4);
                    }
                }
                assert(eq_ignore_case(w, seq!['f', 'a', 'l', 's', 'e']));
                assert(!eq_ignore_case(w, seq!['w', 'h', 'e', 'r', 'e']));
            }
            return Tok::False;
        }
        proof {
            assert(!eq_ignore_case(w, seq!['w', 'h', 'e', 'r', 'e']));
            assert(!eq_ignore_case(w, seq!['f', 'a', 'l', 's', 'e']));
        }
    } else if n == 6 {
        let a0 = ci(s[i], 's', 'S');
        let a1 = ci(s[i + 1], 'e', 'E');
        let a2 = ci(s[i + 2], 'l', 'L');
        let a3 = ci(s[i + 3], 'e', 'E');
        let a4 = ci(s[i + 4], 'c', 'C');
        let a5 = ci(s[i + 5], 't', 'T');
        proof {
            assert(w[0] == s@[i as int]);
            assert(w[1] == s@[i as int + 1]);
            assert(w[2] == s@[i as int + 2]);
            assert(w[3] == s@[i as int + 3]);
            assert(w[4] == s@[i as int + 4]);
            assert(w[5] == s@[i as int + 5]);
        }
        if a0 && a1 && a2 && a3 && a4 && a5 {
            proof {
                assert forall|k: int| 0 <= k < 6 implies crate::ast::lower_code(w[k])
                    == crate::ast::lower_code(seq!['s', 'e', 'l', 'e', 'c', 't'][k]) by {
                    if k == 0 {
                    } else if k == 1 {
                    } else if k == 2 {
                    } else if k == 3 {
                    } else if k == 4 {
                    } else {
                        assert(k == 5);
                    }
                }
                assert(eq_ignore_case(w, seq!['s', 'e', 'l', 'e', 'c', 't']));
            }
            return Tok::Select;
        }
        proof {
            assert(!eq_ignore_case(w, seq!['s', 'e', 'l', 'e', 'c', 't']));
        }
    }
    let name = chars_to_string(s, i, e);
    proof {
        assert(spec_word_token(w) == SpecTok::Ident(w));
    }
    Tok::Ident(name)
}

/// Reads a digit run starting at `d0` and returns its end and value, or an
/// error when the value cannot fit a 64-bit integer even as `i64::MIN`.
#[verifier::loop_isolation(false)]
fn scan_digits(s: &Vec<char>, d0: usize) -> (r: Result<(usize, u64), ParseError>)
    requires
        d0 < s@.len(),
        is_digit_char(s@[d0 as int]),
    ensures
        match r {
            Ok((e, v)) => e as int == digits_end(s@, d0 as int) && v as int == digits_val(
                s@,
                d0 as int,
                e as int,
            ) && v <= 0x8000_0000_0000_0000u64,
            Err(_) => digits_val(s@, d0 as int, digits_end(s@, d0 as int))
                > 0x8000_0000_0000_0000u64,
        },
{
    let n = s.len();
    let mut cur: usize = d0;
    let mut acc: u64 = 0;
    while cur < n && is_digit_exec(s[cur])
        invariant
            d0 <= cur <= n,
            digits_end(s@, d0 as int) == digits_end(s@, cur as int),
            forall|j: int| d0 <= j < cur ==> is_digit_char(#[trigger] s@[j]),
            acc as int == digits_val(s@, d0 as int, cur as int),
            acc <= 0x8000_0000_0000_0000u64,
        decreases n - cur,
    {
        let d = (s[cur] as u32) - 48;
        if acc > 922_337_203_685_477_580u64 {
            proof {
                lemma_digits_end(s@, cur as int);
                assert(digits_val(s@, d0 as int, cur as int + 1) == acc as int * 10 + d as int);
                assert(acc as int * 10 > 0x8000_0000_0000_0000) by (nonlinear_arith)
                    requires
                        acc as int > 922_337_203_685_477_580,
                ;
                assert forall|j: int| d0 <= j < digits_end(s@, d0 as int) implies is_digit_char(
                    #[trigger] s@[j],
                ) by {
                    lemma_digits_end_digits(s@, d0 as int, j);
                }
                lemma_digits_val_grows(s@, d0 as int, cur as int + 1, digits_end(s@, d0 as int));
            }
            return Err(ParseError { pos: d0 });
        }
        proof {
            assert(acc as int * 10 + d as int <= 9223372036854775809int) by (nonlinear_arith)
                requires
                    acc as int <= 922_337_203_685_477_580,
                    d as int <= 9,
            ;
        }
        acc = acc * 10 + (d as u64);
        let new_acc_big = acc > 9_223_372_036_854_775_808u64;
        if new_acc_big {
            proof {
                lemma_digits_end(s@, cur as int);
                assert forall|j: int| d0 <= j < digits_end(s@, d0 as int) implies is_digit_char(
                    #[trigger] s@[j],
                ) by {
                    lemma_digits_end_digits(s@, d0 as int, j);
                }
                lemma_digits_val_grows(s@, d0 as int, cur as int + 1, digits_end(s@, d0 as int));
            }
            return Err(ParseError { pos: d0 });
        }
        cur += 1;
    }
    proof {
        assert(digits_end(s@, cur as int) == cur as int);
    }
    Ok((cur, acc))
}

/// Every position of a digit run up to its end holds a digit.
proof fn lemma_digits_end_digits(s: Seq<char>, i: int, j: int)
    requires
        0 <= i <= s.len(),
        i <= j < digits_end(s, i),
    ensures
        is_digit_char(s[j]),
    decreases j - i,
{
    lemma_digits_end(s, i);
    if j > i {
        lemma_digits_end_digits(s, i + 1, j);
    }
}

/// Reads the single token beginning at `i`, which must not be whitespace.
#[verifier::loop_isolation(false)]
fn token_at_exec(s: &Vec<char>, i: usize) -> (r: Result<(Tok, usize), ParseError>)
    requires
        i < s@.len(),
        !is_space_char(s@[i as int]),
    ensures
        match r {
            Ok((t, j)) => token_at(s@, i as int) == Some((t@, j as int)) && i < j <= s@.len(),
            Err(_) => token_at(s@, i as int) is None,
        },
{
    let n = s.len();
    let c = s[i];
    if is_letter_exec(c) {
        let mut cur: usize = i + 1;
        while cur < n && word_char_at(s, cur)
            invariant
                i < cur <= n,
                word_end(s@, i as int) == word_end(s@, cur as int),
            decreases n - cur,
        {
            cur += 1;
        }
        proof {
            assert(word_end(s@, cur as int) == cur as int);
        }
        let t = word_token(s, i, cur);
        Ok((t, cur))
    } else if is_digit_exec(c) {
        let (e, v) = match scan_digits(s, i) {
            Ok(p) => p,
            Err(err) => {
                return Err(err);
            },
        };
        if v > 0x7FFF_FFFF_FFFF_FFFFu64 {
            return Err(ParseError { pos: i });
        }
        proof {
            lemma_digits_end(s@, i as int);
        }
        Ok((Tok::IntLit(v as i64), e))
    } else if c == '-' {
        if i + 1 < n && is_digit_exec(s[i + 1]) {
            let (e, v) = match scan_digits(s, i + 1) {
                Ok(p) => p,
                Err(err) => {
                    return Err(err);
                },
            };
            proof {
                lemma_digits_end(s@, i as int + 1);
            }
            let value: i64 = if v == 0x8000_0000_0000_0000u64 {
                i64::MIN
            } else {
                -(v as i64)
            };
            Ok((Tok::IntLit(value), e))
        } else {
            Err(ParseError { pos: i })
        }
    } else if c == '"' {
        let mut p: usize = i + 1;
        let mut found = false;
        while !found
            invariant
                i + 1 <= p <= n,
                !found ==> str_body_end(s@, i as int + 1) == str_body_end(s@, p as int),
                found ==> str_body_end(s@, i as int + 1) == Some(p as int) && p < n && s@[
                    p as int
                ] == '"',
            decreases
                    (if found {
                        0int
                    } else {
                        1int
                    }),
                    n - p,
        {
            if p >= n {
                proof {
                    assert(str_body_end(s@, p as int) is None);
                }
                return Err(ParseError { pos: i });
            }
            let ch = s[p];
            if ch == '"' {
                found = true;
            } else if ch == '\\' {
                if p + 1 < n {
                    let esc = s[p + 1];
                    if esc == '"' || esc == 'n' || esc == '\\' {
                        p += 2;
                    } else {
                        return Err(ParseError { pos: i });
                    }
                } else {
                    return Err(ParseError { pos: i });
                }
            } else {
                p += 1;
            }
        }
        let body = chars_to_string(s, i + 1, p);
        Ok((Tok::StrLit(body), p + 1))
    } else if c == '&' {
        if i + 1 < n && s[i + 1] == '&' {
            Ok((Tok::AndAnd, i + 2))
        } else {
            Err(ParseError { pos: i })
        }
    } else if c == '|' {
        if i + 1 < n && s[i + 1] == '|' {
            Ok((Tok::OrOr, i + 2))
        } else {
            Err(ParseError { pos: i })
        }
    } else if c == '=' {
        if i + 1 < n && s[i + 1] == '=' {
            Ok((Tok::EqEq, i + 2))
        } else {
            Err(ParseError { pos: i })
        }
    } else if c == '<' {
        Ok((Tok::Less, i + 1))
    } else if c == '*' {
        Ok((Tok::Star, i + 1))
    } else if c == '.' {
        Ok((Tok::Dot, i + 1))
    } else if c == ',' {
        Ok((Tok::Comma, i + 1))
    } else if c == '(' {
        Ok((Tok::LParen, i + 1))
    } else if c == ')' {
        Ok((Tok::RParen, i + 1))
    } else {
        Err(ParseError { pos: i })
    }
}

/// Relates a finished prefix of the lexing to the whole: whatever the rest
/// of the text lexes to, the whole text lexes to the tokens already read
/// followed by it.
pub open spec fn lex_glue(s: Seq<char>, out: Seq<SpecTok>, i: int) -> bool {
    match spec_lex(s, i) {
        None => spec_lex(s, 0) is None,
        Some(ts) => spec_lex(s, 0) == Some(out.add(ts)),
    }
}

/// Lexes the whole character sequence into tokens.
#[verifier::loop_isolation(false)]
pub fn lex_chars(s: &Vec<char>) -> (r: Result<Vec<Tok>, ParseError>)
    ensures
        match r {
            Ok(ts) => spec_lex(s@, 0) == Some(ts.deep_view()),
            Err(_) => spec_lex(s@, 0) is None,
        },
{
    let n = s.len();
    let mut out: Vec<Tok> = Vec::new();
    proof {
        assert(out.deep_view() =~= Seq::<SpecTok>::empty());
        if spec_lex(s@, 0) is Some {
            assert(Seq::<SpecTok>::empty().add(spec_lex(s@, 0)->Some_0) =~= spec_lex(
                s@,
                0,
            )->Some_0);
        }
    }
    let mut i: usize = 0;
    while i < n
        invariant
            i <= n,
            lex_glue(s@, out.deep_view(), i as int),
        decreases n - i,
    {
        let c = s[i];
        if is_space_exec(c) {
            proof {
                assert(spec_lex(s@, i as int) == spec_lex(s@, i as int + 1));
            }
            i += 1;
        } else {
            match token_at_exec(s, i) {
                Err(e) => {
                    proof {
                        assert(spec_lex(s@, i as int) is None);
                    }
                    return Err(e);
                },
                Ok((t, j)) => {
                    let ghost pre = out.deep_view();
                    let ghost pre_vec = out@;
                    out.push(t);
                    proof {
                        assert forall|q: int| 0 <= q < out@.len() implies out.deep_view()[q]
                            == pre.push(out@[out@.len() - 1]@)[q] by {
                            assert(out.deep_view()[q] == out@[q].deep_view());
                            if q < pre_vec.len() {
                                assert(out@[q] == pre_vec[q]);
                                assert(pre_vec[q].deep_view() == pre[q]);
                            }
                        }
                        assert(out.deep_view() =~= pre.push(t@));
                        match spec_lex(s@, j as int) {
                            None => {
                                assert(spec_lex(s@, i as int) is None);
                            },
                            Some(ts) => {
                                assert(spec_lex(s@, i as int) == Some(seq![t@].add(ts)));
                                assert(pre.add(seq![t@].add(ts)) =~= pre.push(t@).add(ts));
                            },
                        }
                    }
                    i = j;
                },
            }
        }
    }
    proof {
        assert(spec_lex(s@, n as int) == Some(Seq::<SpecTok>::empty()));
        assert(out.deep_view().add(Seq::<SpecTok>::empty()) =~= out.deep_view());
    }
    Ok(out)
}

} // verus!
