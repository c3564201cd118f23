//! Laws of the scanner, stated over the lexical grammar and proved.
use vstd::prelude::*;

use crate::lexer::Lexer;
use crate::lexical::{
    RunKind, double_token, in_run, is_compound, is_digit, is_letter, is_space, keyword,
    lemma_lex_skips_spaces, lemma_run_end_at, lemma_run_end_bounds, lemma_scan_advances, lex, lex_from, run_end, scan_at,
    single_token, word_token,
};
use crate::token::TokenView;

verus! {

/// A character that ends whatever lexeme stands before it: no run goes on
/// through it and no operator merges with it.
pub open spec fn is_breaker(c: char) -> bool {
    !is_letter(c) && !is_digit(c) && c != '='
}

/// A character that forms no token but the illegal one.
pub open spec fn is_illegal(c: char) -> bool {
    !is_space(c) && !is_letter(c) && !is_digit(c) && single_token(c) == TokenView::Illegal
}

proof fn lemma_run_end_shift(t: Seq<char>, j: int, k: int, kind: RunKind)
    requires
        0 <= j <= t.len(),
        0 <= k <= t.len() - j,
    ensures
        run_end(t, j + k, kind) == j + run_end(t.subrange(j, t.len() as int), k, kind),
    decreases t.len() - j - k,
{
    if k < t.len() - j && in_run(t[j + k], kind) {
        lemma_run_end_shift(t, j, k + 1, kind);
    }
}

/// What follows an index scans as the text that starts there.
pub proof fn lemma_lex_shift(t: Seq<char>, j: int, k: int)
    requires
        0 <= j <= t.len(),
        0 <= k <= t.len() - j,
    ensures
        lex_from(t, j + k) == lex_from(t.subrange(j, t.len() as int), k),
    decreases t.len() - j - k,
{
    let b = t.subrange(j, t.len() as int);
    if k < b.len() {
        assert(b[k] == t[j + k]);
        if is_space(b[k]) {
            lemma_lex_shift(t, j, k + 1);
        } else {
            lemma_run_end_shift(t, j, k, RunKind::Word);
            lemma_run_end_shift(t, j, k, RunKind::Number);
            lemma_scan_advances(b, k);
            let e = scan_at(b, k).1;
            if k + 1 < b.len() {
                assert(b[k + 1] == t[j + k + 1]);
            }
            assert(t.subrange(j + k, j + e) =~= b.subrange(k, e));
            assert(scan_at(t, j + k) == (scan_at(b, k).0, j + e));
            lemma_lex_shift(t, j, e);
        }
    }
}

proof fn lemma_run_end_prefix(a: Seq<char>, t: Seq<char>, i: int, kind: RunKind)
    requires
        a.len() < t.len(),
        a == t.subrange(0, a.len() as int),
        !in_run(t[a.len() as int], kind),
        0 <= i <= a.len(),
    ensures
        run_end(t, i, kind) == run_end(a, i, kind),
    decreases a.len() - i,
{
    if i < a.len() {
        assert(a[i] == t[i]);
        if in_run(a[i], kind) {
            lemma_run_end_prefix(a, t, i + 1, kind);
        }
    }
}

/// A breaker after `a` splits the scan of `t` there.
proof fn lemma_lex_split(a: Seq<char>, t: Seq<char>, i: int)
    requires
        a.len() < t.len(),
        a == t.subrange(0, a.len() as int),
        is_breaker(t[a.len() as int]),
        0 <= i <= a.len(),
    ensures
        lex_from(t, i) == lex_from(a, i) + lex_from(t, a.len() as int),
    decreases a.len() - i,
{
    let rest = lex_from(t, a.len() as int);
    if i < a.len() {
        assert(a[i] == t[i]);
        if is_space(a[i]) {
            lemma_lex_split(a, t, i + 1);
        } else {
            lemma_run_end_prefix(a, t, i, RunKind::Word);
            lemma_run_end_prefix(a, t, i, RunKind::Number);
            lemma_scan_advances(a, i);
            let e = scan_at(a, i).1;
            if i + 1 < a.len() {
                assert(a[i + 1] == t[i + 1]);
            }
            assert(t.subrange(i, e) =~= a.subrange(i, e));
            assert(scan_at(t, i) == scan_at(a, i));
            lemma_lex_split(a, t, e);
            assert(lex_from(t, i) =~= lex_from(a, i) + rest);
        }
    } else {
        assert(lex_from(t, i) =~= lex_from(a, i) + rest);
    }
}

/// Scanning depends on the text alone: two scanners over the same text, at
/// the same place, have the same tokens to come.
pub proof fn lemma_scan_is_deterministic(l1: Lexer, l2: Lexer)
    requires
        l1.source() == l2.source(),
        l1.cursor() == l2.cursor(),
    ensures
        l1.pending() == l2.pending(),
{
}

/// Each of `=`, `>`, `<`, `!` followed by `=` scans as one two-character
/// operator; followed by anything else (or nothing) it scans on its own.
pub proof fn lemma_compound_munch(c: char, b: Seq<char>)
    requires
        is_compound(c),
    ensures
        lex(seq![c, '='] + b) == seq![double_token(c)] + lex(b),
        b.len() == 0 || b[0] != '=' ==> lex(seq![c] + b) == seq![single_token(c)] + lex(b),
{
    let t = seq![c, '='] + b;
    assert(t[0] == c && t[1] == '=');
    lemma_lex_shift(t, 2, 0);
    assert(t.subrange(2, t.len() as int) =~= b);
    let u = seq![c] + b;
    assert(u[0] == c);
    if b.len() > 0 {
        assert(u[1] == b[0]);
    }
    lemma_lex_shift(u, 1, 0);
    assert(u.subrange(1, u.len() as int) =~= b);
}

/// A run of spaces between two texts separates their tokens: whatever the
/// run, the scan is that of the first text followed by that of the second.
/// So where the texts already split apart on their own, the run may be
/// inserted or removed without changing the scan.
pub proof fn lemma_spaces_separate(a: Seq<char>, w: Seq<char>, b: Seq<char>)
    requires
        w.len() > 0,
        forall|m: int| 0 <= m < w.len() ==> is_space(#[trigger] w[m]),
    ensures
        lex(a + w + b) == lex(a) + lex(b),
        lex(a + b) == lex(a) + lex(b) ==> lex(a + w + b) == lex(a + b),
{
    let t = a + w + b;
    let n = a.len() as int;
    let m = n + w.len();
    assert(t[n] == w[0]);
    assert(a =~= t.subrange(0, n));
    lemma_lex_split(a, t, 0);
    assert forall|k: int| n <= k < m implies is_space(#[trigger] t[k]) by {
        assert(t[k] == w[k - n]);
    }
    lemma_lex_skips_spaces(t, n, m);
    lemma_lex_shift(t, m, 0);
    assert(t.subrange(m, t.len() as int) =~= b);
}

/// An illegal character between two texts gives exactly one illegal token,
/// in its place, and scanning goes on past it.
pub proof fn lemma_illegal_char_in_place(a: Seq<char>, c: char, b: Seq<char>)
    requires
        is_illegal(c),
    ensures
        lex(a + seq![c] + b) == lex(a) + seq![TokenView::Illegal] + lex(b),
{
    let t = a + seq![c] + b;
    let n = a.len() as int;
    assert(t[n] == c);
    assert(a =~= t.subrange(0, n));
    lemma_lex_split(a, t, 0);
    assert(scan_at(t, n) == (TokenView::Illegal, n + 1));
    lemma_lex_shift(t, n + 1, 0);
    assert(t.subrange(n + 1, t.len() as int) =~= b);
    assert(lex(t) =~= lex(a) + seq![TokenView::Illegal] + lex(b));
}

/// An identifier-shaped text scans as one token: its keyword when the fixed
/// table holds it, never an identifier then; an identifier with exactly its
/// text otherwise.
pub proof fn lemma_keyword_closure(w: Seq<char>)
    requires
        w.len() > 0,
        forall|m: int| 0 <= m < w.len() ==> is_letter(#[trigger] w[m]),
    ensures
        lex(w) == seq![word_token(w)],
        keyword(w) matches Some(k) ==> lex(w)[0] == k && !(k is Ident),
        keyword(w) is None ==> lex(w)[0] == TokenView::Ident(w),
{
    lemma_run_end_at(w, 0, w.len() as int, RunKind::Word);
    assert(w.subrange(0, w.len() as int) =~= w);
    assert(lex_from(w, w.len() as int) == Seq::<TokenView>::empty());
    assert(lex(w) =~= seq![word_token(w)]);
}

/// Scanning from `j` passes through index `i`: stepping over one space or
/// one whole lexeme at a time, the scan stands at `i` at some point.
pub open spec fn scan_passes(s: Seq<char>, j: int, i: int) -> bool
    decreases s.len() - j,
{
    if j == i {
        true
    } else if j < 0 || j >= s.len() || j > i {
        false
    } else if is_space(s[j]) {
        scan_passes(s, j + 1, i)
    } else {
        proof {
            lemma_scan_advances(s, j);
        }
        scan_passes(s, scan_at(s, j).1, i)
    }
}

/// Index `i` lies between lexemes of `s`: where the scan from the start
/// stands at some point. Among these are the start, the end, both sides of
/// every space (`lemma_boundaries`) and the end of every token's lexeme.
pub open spec fn is_lexeme_boundary(s: Seq<char>, i: int) -> bool {
    scan_passes(s, 0, i)
}

proof fn lemma_run_end_within(a: Seq<char>, s: Seq<char>, j: int, k: RunKind)
    requires
        a.len() <= s.len(),
        a == s.subrange(0, a.len() as int),
        0 <= j <= a.len(),
        run_end(s, j, k) <= a.len(),
    ensures
        run_end(a, j, k) == run_end(s, j, k),
    decreases a.len() - j,
{
    if j < a.len() {
        assert(a[j] == s[j]);
        if in_run(s[j], k) {
            lemma_run_end_within(a, s, j + 1, k);
        }
    } else if j < s.len() && in_run(s[j], k) {
        lemma_run_end_bounds(s, j + 1, k);
    }
}

proof fn lemma_boundary_split(s: Seq<char>, i: int, j: int)
    requires
        0 <= j,
        i <= s.len(),
        scan_passes(s, j, i),
    ensures
        j <= i,
        lex_from(s, j) == lex_from(s.subrange(0, i), j) + lex_from(s, i),
    decreases s.len() - j,
{
    let a = s.subrange(0, i);
    if j == i {
        assert(lex_from(s, j) =~= lex_from(a, j) + lex_from(s, i));
    } else {
        assert(a[j] == s[j]);
        if is_space(s[j]) {
            lemma_boundary_split(s, i, j + 1);
        } else {
            lemma_scan_advances(s, j);
            let e = scan_at(s, j).1;
            lemma_boundary_split(s, i, e);
            lemma_run_end_within(a, s, j, RunKind::Word);
            lemma_run_end_within(a, s, j, RunKind::Number);
            if j + 1 < a.len() {
                assert(a[j + 1] == s[j + 1]);
            }
            assert(a.subrange(j, e) =~= s.subrange(j, e));
            assert(scan_at(a, j) == scan_at(s, j));
            assert(lex_from(s, j) =~= lex_from(a, j) + lex_from(s, i));
        }
    }
}

/// At a boundary between lexemes the scan splits: the text scans as its part
/// before the boundary followed by its part after it. A run of spaces
/// inserted there therefore changes nothing, and one removed from where it
/// leaves such a boundary changes nothing either.
pub proof fn lemma_spaces_at_boundary(s: Seq<char>, i: int, w: Seq<char>)
    requires
        0 <= i <= s.len(),
        is_lexeme_boundary(s, i),
        w.len() > 0,
        forall|m: int| 0 <= m < w.len() ==> is_space(#[trigger] w[m]),
    ensures
        lex(s) == lex(s.subrange(0, i)) + lex(s.subrange(i, s.len() as int)),
        lex(s.subrange(0, i) + w + s.subrange(i, s.len() as int)) == lex(s),
{
    lemma_boundary_split(s, i, 0);
    lemma_lex_shift(s, i, 0);
    lemma_spaces_separate(s.subrange(0, i), w, s.subrange(i, s.len() as int));
}

proof fn lemma_run_end_covers(s: Seq<char>, j: int, m: int, k: RunKind)
    requires
        0 <= j <= m < run_end(s, j, k),
    ensures
        in_run(s[m], k),
    decreases m - j,
{
    if j < m {
        lemma_run_end_covers(s, j + 1, m, k);
    }
}

proof fn lemma_lexeme_has_no_space(s: Seq<char>, j: int, m: int)
    requires
        0 <= j < s.len(),
        !is_space(s[j]),
        j <= m < scan_at(s, j).1,
    ensures
        !is_space(s[m]),
{
    if is_digit(s[j]) {
        lemma_run_end_covers(s, j, m, RunKind::Number);
    }
    if is_letter(s[j]) {
        lemma_run_end_covers(s, j, m, RunKind::Word);
    }
}

proof fn lemma_passes_space(s: Seq<char>, j: int, i: int)
    requires
        0 <= j <= i < s.len(),
        is_space(s[i]),
    ensures
        scan_passes(s, j, i),
        scan_passes(s, j, i + 1),
    decreases i - j,
{
    if j < i {
        if is_space(s[j]) {
            lemma_passes_space(s, j + 1, i);
        } else {
            lemma_scan_advances(s, j);
            let e = scan_at(s, j).1;
            if e > i {
                lemma_lexeme_has_no_space(s, j, i);
            }
            lemma_passes_space(s, e, i);
        }
    } else {
        assert(scan_passes(s, i + 1, i + 1));
    }
}

proof fn lemma_passes_end(s: Seq<char>, j: int)
    requires
        0 <= j <= s.len(),
    ensures
        scan_passes(s, j, s.len() as int),
    decreases s.len() - j,
{
    if j < s.len() {
        if is_space(s[j]) {
            lemma_passes_end(s, j + 1);
        } else {
            lemma_scan_advances(s, j);
            lemma_passes_end(s, scan_at(s, j).1);
        }
    }
}

/// The start and the end of a text are boundaries between lexemes, and so
/// are both sides of every space.
pub proof fn lemma_boundaries(s: Seq<char>)
    ensures
        is_lexeme_boundary(s, 0),
        is_lexeme_boundary(s, s.len() as int),
        forall|i: int|
            0 <= i < s.len() && is_space(#[trigger] s[i]) ==> is_lexeme_boundary(s, i)
                && is_lexeme_boundary(s, i + 1),
{
    lemma_passes_end(s, 0);
    assert forall|i: int| 0 <= i < s.len() && is_space(#[trigger] s[i]) implies is_lexeme_boundary(
        s,
        i,
    ) && is_lexeme_boundary(s, i + 1) by {
        lemma_passes_space(s, 0, i);
    }
}

} // verus!
