//! The lexical grammar as mathematical functions over character sequences.
//!
//! `lex(s)` is the token sequence that scanning `s` produces, end-of-input
//! excluded. The executable scanner in `lexer` is proved to produce it.
use vstd::prelude::*;

use crate::token::TokenView;

verus! {

/// Space, tab, newline or carriage return: characters that separate tokens.
pub open spec fn is_space(c: char) -> bool {
    c == ' ' || c == '\t' || c == '\n' || c == '\r'
}

/// An ASCII letter or underscore: the characters of an identifier-shaped lexeme.
pub open spec fn is_letter(c: char) -> bool {
    ('a' <= c && c <= 'z') || ('A' <= c && c <= 'Z') || c == '_'
}

/// An ASCII decimal digit.
pub open spec fn is_digit(c: char) -> bool {
    '0' <= c && c <= '9'
}

/// One of the four operators that merge with a following `=`.
pub open spec fn is_compound(c: char) -> bool {
    c == '=' || c == '>' || c == '<' || c == '!'
}

/// The kinds of character run that form a multi-character lexeme.
pub enum RunKind {
    Space,
    Word,
    Number,
}

pub open spec fn in_run(c: char, k: RunKind) -> bool {
    match k {
        RunKind::Space => is_space(c),
        RunKind::Word => is_letter(c),
        RunKind::Number => is_digit(c),
    }
}

/// The first index at or after `i` whose character does not belong to a run
/// of kind `k` (or the length of `s`).
pub open spec fn run_end(s: Seq<char>, i: int, k: RunKind) -> int
    decreases s.len() - i,
{
    if 0 <= i < s.len() && in_run(s[i], k) {
        run_end(s, i + 1, k)
    } else {
        i
    }
}

/// Where the lexeme of the next token starts, scanning from `i`: the first
/// index at or after `i` that does not hold a space (or the length of `s`).
pub open spec fn token_start(s: Seq<char>, i: int) -> int {
    run_end(s, i, RunKind::Space)
}

/// The value of a decimal digit.
pub open spec fn digit_value(c: char) -> int {
    c as int - '0' as int
}

/// The value of a sequence of decimal digits, most significant first.
pub open spec fn digits_value(d: Seq<char>) -> int
    decreases d.len(),
{
    if d.len() == 0 {
        0
    } else {
        digits_value(d.drop_last()) * 10 + digit_value(d.last())
    }
}

/// The token for a run of digits: its value, or an overflow token holding the
/// digits when the value exceeds `i32::MAX`.
pub open spec fn number_token(d: Seq<char>) -> TokenView {
    if digits_value(d) <= i32::MAX {
        TokenView::Int(digits_value(d) as i32)
    } else {
        TokenView::IntOverflow(d)
    }
}

/// The fixed keyword table.
pub open spec fn keyword(w: Seq<char>) -> Option<TokenView> {
    if w == seq!['f', 'n'] {
        Some(TokenView::Function)
    } else if w == seq!['l', 'e', 't'] {
        Some(TokenView::Let)
    } else if w == seq!['t', 'r', 'u', 'e'] {
        Some(TokenView::True)
    } else if w == seq!['f', 'a', 'l', 's', 'e'] {
        Some(TokenView::False)
    } else if w == seq!['i', 'f'] {
        Some(TokenView::If)
    } else if w == seq!['e', 'l', 's', 'e'] {
        Some(TokenView::Else)
    } else if w == seq!['r', 'e', 't', 'u', 'r', 'n'] {
        Some(TokenView::Return)
    } else {
        None
    }
}

/// The token for an identifier-shaped lexeme: its keyword, or an identifier.
pub open spec fn word_token(w: Seq<char>) -> TokenView {
    match keyword(w) {
        Some(t) => t,
        None => TokenView::Ident(w),
    }
}

/// The token of a character that forms a lexeme on its own.
pub open spec fn single_token(c: char) -> TokenView {
    if c == '=' {
        TokenView::Assign
    } else if c == '+' {
        TokenView::Plus
    } else if c == '-' {
        TokenView::Minus
    } else if c == '>' {
        TokenView::Gt
    } else if c == '<' {
        TokenView::Lt
    } else if c == '!' {
        TokenView::Bang
    } else if c == '*' {
        TokenView::Asterisk
    } else if c == '/' {
        TokenView::Slash
    } else if c == '(' {
        TokenView::Lparen
    } else if c == ')' {
        TokenView::Rparen
    } else if c == '{' {
        TokenView::Lbrace
    } else if c == '}' {
        TokenView::Rbrace
    } else if c == ',' {
        TokenView::Comma
    } else if c == ';' {
        TokenView::Semicolon
    } else {
        TokenView::Illegal
    }
}

/// The token of a compound-aware operator followed by `=`.
pub open spec fn double_token(c: char) -> TokenView {
    if c == '=' {
        TokenView::Eq
    } else if c == '>' {
        TokenView::Geq
    } else if c == '<' {
        TokenView::Leq
    } else {
        TokenView::Neq
    }
}

/// The token whose lexeme starts at `p` (a character that is not a space),
/// and the index just past that lexeme.
pub open spec fn scan_at(s: Seq<char>, p: int) -> (TokenView, int) {
    let c = s[p];
    if is_compound(c) && p + 1 < s.len() && s[p + 1] == '=' {
        (double_token(c), p + 2)
    } else if is_digit(c) {
        let e = run_end(s, p, RunKind::Number);
        (number_token(s.subrange(p, e)), e)
    } else if is_letter(c) {
        let e = run_end(s, p, RunKind::Word);
        (word_token(s.subrange(p, e)), e)
    } else {
        (single_token(c), p + 1)
    }
}

/// The tokens of `s` from index `i` on.
pub open spec fn lex_from(s: Seq<char>, i: int) -> Seq<TokenView>
    decreases s.len() - i,
{
    if i < 0 || i >= s.len() {
        Seq::empty()
    } else if is_space(s[i]) {
        lex_from(s, i + 1)
    } else {
        proof {
            lemma_scan_advances(s, i);
        }
        seq![scan_at(s, i).0] + lex_from(s, scan_at(s, i).1)
    }
}

/// The tokens of `s`, end-of-input excluded.
pub open spec fn lex(s: Seq<char>) -> Seq<TokenView> {
    lex_from(s, 0)
}

/// A run ends at or after where it starts, and within the sequence.
pub proof fn lemma_run_end_bounds(s: Seq<char>, i: int, k: RunKind)
    requires
        0 <= i <= s.len(),
    ensures
        i <= run_end(s, i, k) <= s.len(),
    decreases s.len() - i,
{
    if i < s.len() && in_run(s[i], k) {
        lemma_run_end_bounds(s, i + 1, k);
    }
}

/// Every lexeme holds at least one character.
pub proof fn lemma_scan_advances(s: Seq<char>, p: int)
    requires
        0 <= p < s.len(),
    ensures
        p < scan_at(s, p).1 <= s.len(),
{
    lemma_run_end_bounds(s, p + 1, RunKind::Number);
    lemma_run_end_bounds(s, p + 1, RunKind::Word);
}

/// A run that covers `[i, j)` and stops at `j` ends at `j`.
pub proof fn lemma_run_end_at(s: Seq<char>, i: int, j: int, k: RunKind)
    requires
        0 <= i <= j <= s.len(),
        forall|m: int| i <= m < j ==> in_run(#[trigger] s[m], k),
        j == s.len() || !in_run(s[j], k),
    ensures
        run_end(s, i, k) == j,
    decreases j - i,
{
    if i < j {
        lemma_run_end_at(s, i + 1, j, k);
    }
}

/// Spaces produce no tokens.
pub proof fn lemma_lex_skips_spaces(s: Seq<char>, i: int, j: int)
    requires
        0 <= i <= j <= s.len(),
        forall|m: int| i <= m < j ==> is_space(#[trigger] s[m]),
    ensures
        lex_from(s, i) == lex_from(s, j),
    decreases j - i,
{
    if i < j {
        lemma_lex_skips_spaces(s, i + 1, j);
    }
}

/// End-of-input never stands among the scanned tokens.
pub proof fn lemma_lex_has_no_eof(s: Seq<char>, i: int)
    ensures
        forall|k: int| 0 <= k < lex_from(s, i).len() ==> lex_from(s, i)[k] != TokenView::Eof,
    decreases s.len() - i,
{
    if 0 <= i < s.len() {
        if is_space(s[i]) {
            lemma_lex_has_no_eof(s, i + 1);
        } else {
            lemma_scan_advances(s, i);
            lemma_lex_has_no_eof(s, scan_at(s, i).1);
            let (t, e) = scan_at(s, i);
            assert forall|k: int| 0 <= k < lex_from(s, i).len() implies lex_from(s, i)[k]
                != TokenView::Eof by {
                if k > 0 {
                    assert(lex_from(s, i)[k] == lex_from(s, e)[k - 1]);
                }
            }
        }
    }
}

/// The tokens from `i` on are those from where the next lexeme starts: none
/// when only spaces are left, else the token of that lexeme and those after it.
pub proof fn lemma_lex_from_token_start(s: Seq<char>, i: int)
    requires
        0 <= i <= s.len(),
    ensures
        i <= token_start(s, i) <= s.len(),
        lex_from(s, i) == lex_from(s, token_start(s, i)),
        token_start(s, i) == s.len() <==> lex_from(s, i).len() == 0,
        token_start(s, i) < s.len() ==> lex_from(s, i) == seq![
            scan_at(s, token_start(s, i)).0,
        ] + lex_from(s, scan_at(s, token_start(s, i)).1),
    decreases s.len() - i,
{
    if i < s.len() && is_space(s[i]) {
        lemma_lex_from_token_start(s, i + 1);
    } else if i < s.len() {
        lemma_scan_advances(s, i);
    }
}

} // verus!
