//! The scanner: a cursor over the decoded characters of one input text.
use vstd::prelude::*;

use crate::lexical::{
    RunKind, digit_value, digits_value, is_digit, is_letter, is_space, keyword,
    lemma_lex_from_token_start, lemma_lex_has_no_eof, lemma_run_end_at, token_start, lex, lex_from, number_token,
    run_end, scan_at,
};
use crate::token::{Token, TokenView, views};

verus! {

/// The character at `i`, or the null sentinel outside the text.
pub open spec fn char_at(s: Seq<char>, i: int) -> char {
    if 0 <= i < s.len() {
        s[i]
    } else {
        '\0'
    }
}

/// Scans one text into tokens, one token per request.
pub struct Lexer {
    input: Vec<char>,
    position: usize,
    ch: char,
}

/// Relies on `String::push`: appends one character to the end of the string.
#[verifier::external_body]
fn push_char(s: &mut String, c: char)
    ensures
        final(s)@ == old(s)@.push(c),
{
    s.push(c);
}

fn char_is_space(c: char) -> (r: bool)
    ensures
        r == is_space(c),
{
    c == ' ' || c == '\t' || c == '\n' || c == '\r'
}

fn char_is_letter(c: char) -> (r: bool)
    ensures
        r == is_letter(c),
{
    ('a' <= c && c <= 'z') || ('A' <= c && c <= 'Z') || c == '_'
}

fn char_is_digit(c: char) -> (r: bool)
    ensures
        r == is_digit(c),
{
    '0' <= c && c <= '9'
}

impl Lexer {
    /// The text being scanned, as characters.
    pub closed spec fn source(&self) -> Seq<char> {
        self.input@
    }

    /// The index of the character under the cursor.
    pub closed spec fn cursor(&self) -> int {
        self.position as int
    }

    /// The cursor lies within the text (or just past it) and `ch` is the
    /// character under it.
    pub closed spec fn wf(&self) -> bool {
        &&& self.position <= self.input.len()
        &&& self.ch == char_at(self.input@, self.position as int)
    }

    /// The tokens still to come, end-of-input excluded.
    pub open spec fn pending(&self) -> Seq<TokenView> {
        lex_from(self.source(), self.cursor())
    }

    /// A scanner over `input`, with its first character loaded.
    pub fn new(input: String) -> (l: Lexer)
        ensures
            l.wf(),
            l.source() == input@,
            l.cursor() == 0,
            l.pending() == lex(input@),
    {
        let mut chars: Vec<char> = Vec::new();
        for c in it: input.as_str().chars()
            invariant
                chars@ == it.seq().take(it.index()),
        {
            chars.push(c);
        }
        let mut lexer = Lexer { input: chars, position: 0, ch: '\0' };
        lexer.ch = if lexer.input.len() > 0 { lexer.input[0] } else { '\0' };
        lexer
    }

    /// Moves the cursor one character on, stopping just past the text.
    fn read_char(&mut self)
        requires
            old(self).wf(),
        ensures
            final(self).wf(),
            final(self).input == old(self).input,
            final(self).position == if old(self).position < old(self).input.len() {
                old(self).position + 1
            } else {
                old(self).position as int
            },
    {
        if self.position < self.input.len() {
            self.position = self.position + 1;
        }
        self.ch = if self.position < self.input.len() { self.input[self.position] } else { '\0' };
    }

    /// The character after the cursor, or the null sentinel.
    fn peak_char(&self) -> (c: char)
        requires
            self.wf(),
        ensures
            c == char_at(self.input@, self.position + 1),
    {
        if self.position < self.input.len() && self.position + 1 < self.input.len() {
            self.input[self.position + 1]
        } else {
            '\0'
        }
    }

    /// Moves the cursor past a maximal run of spaces.
    fn skip_whitespace(&mut self)
        requires
            old(self).wf(),
        ensures
            final(self).wf(),
            final(self).input == old(self).input,
            old(self).position <= final(self).position,
            forall|m: int|
                old(self).position <= m < final(self).position ==> is_space(
                    #[trigger] final(self).input@[m],
                ),
            final(self).position == final(self).input.len() || !is_space(
                final(self).input@[final(self).position as int],
            ),
    {
        let ghost start = self.position;
        while char_is_space(self.ch)
            invariant
                self.wf(),
                self.input == old(self).input,
                start <= self.position,
                forall|m: int| start <= m < self.position ==> is_space(#[trigger] self.input@[m]),
            decreases self.input.len() - self.position,
        {
            self.read_char();
        }
    }

    /// Emits `double`, consuming the next character, when that character is
    /// `second`; emits `single`, changing nothing, otherwise. At the end of
    /// the text the next character is the null sentinel, and the cursor stays.
    fn double_token(&mut self, second: char, single: Token, double: Token) -> (t: Token)
        requires
            old(self).wf(),
        ensures
            final(self).wf(),
            final(self).input == old(self).input,
            if char_at(old(self).input@, old(self).position + 1) == second {
                &&& t == double
                &&& final(self).position == if old(self).position < old(self).input.len() {
                    old(self).position + 1
                } else {
                    old(self).position as int
                }
                &&& final(self).ch == char_at(old(self).input@, final(self).position as int)
            } else {
                &&& t == single
                &&& *final(self) == *old(self)
            },
    {
        if second == self.peak_char() {
            self.read_char();
            double
        } else {
            single
        }
    }

    /// The characters of the text in `[start, end)`, as a string.
    fn lexeme(&self, start: usize, end: usize) -> (r: String)
        requires
            start <= end <= self.input.len(),
        ensures
            r@ == self.input@.subrange(start as int, end as int),
    {
        let mut r = String::new();
        let mut i: usize = start;
        while i < end
            invariant
                start <= i <= end <= self.input.len(),
                r@ == self.input@.subrange(start as int, i as int),
            decreases end - i,
        {
            push_char(&mut r, self.input[i]);
            i = i + 1;
            assert(r@ =~= self.input@.subrange(start as int, i as int));
        }
        r
    }

    /// Whether the text in `[start, end)` is exactly `word`.
    fn lexeme_is(&self, start: usize, end: usize, word: &[char]) -> (r: bool)
        requires
            start <= end <= self.input.len(),
        ensures
            r == (self.input@.subrange(start as int, end as int) == word@),
    {
        if end - start != word.len() {
            assert(self.input@.subrange(start as int, end as int).len() != word@.len());
            return false;
        }
        let mut i: usize = 0;
        while i < word.len()
            invariant
                start <= end <= self.input.len(),
                end - start == word@.len(),
                i <= word@.len(),
                forall|m: int| 0 <= m < i ==> self.input@[start + m] == word@[m],
            decreases word.len() - i,
        {
            if self.input[start + i] != word[i] {
                assert(self.input@.subrange(start as int, end as int)[i as int] != word@[i as int]);
                return false;
            }
            i = i + 1;
        }
        assert(self.input@.subrange(start as int, end as int) =~= word@);
        true
    }

    /// The keyword whose text is `[start, end)`, if any.
    fn keyword_at(&self, start: usize, end: usize) -> (r: Option<Token>)
        requires
            start <= end <= self.input.len(),
        ensures
            match r {
                Some(t) => keyword(self.input@.subrange(start as int, end as int)) == Some(t@),
                None => keyword(self.input@.subrange(start as int, end as int)) is None,
            },
    {
        let f = ['f', 'n'];
        assert(f@ =~= seq!['f', 'n']);
        if self.lexeme_is(start, end, &f) {
            return Some(Token::Function);
        }
        let l = ['l', 'e', 't'];
        assert(l@ =~= seq!['l', 'e', 't']);
        if self.lexeme_is(start, end, &l) {
            return Some(Token::Let);
        }
        let t = ['t', 'r', 'u', 'e'];
        assert(t@ =~= seq!['t', 'r', 'u', 'e']);
        if self.lexeme_is(start, end, &t) {
            return Some(Token::True);
        }
        let fa = ['f', 'a', 'l', 's', 'e'];
        assert(fa@ =~= seq!['f', 'a', 'l', 's', 'e']);
        if self.lexeme_is(start, end, &fa) {
            return Some(Token::False);
        }
        let i = ['i', 'f'];
        assert(i@ =~= seq!['i', 'f']);
        if self.lexeme_is(start, end, &i) {
            return Some(Token::If);
        }
        let e = ['e', 'l', 's', 'e'];
        assert(e@ =~= seq!['e', 'l', 's', 'e']);
        if self.lexeme_is(start, end, &e) {
            return Some(Token::Else);
        }
        let re = ['r', 'e', 't', 'u', 'r', 'n'];
        assert(re@ =~= seq!['r', 'e', 't', 'u', 'r', 'n']);
        if self.lexeme_is(start, end, &re) {
            return Some(Token::Return);
        }
        None
    }

    /// Reads the identifier-shaped lexeme under the cursor, leaving the
    /// cursor on its last character.
    fn read_ident(&mut self) -> (r: String)
        requires
            old(self).wf(),
            old(self).position < old(self).input.len(),
            is_letter(old(self).input@[old(self).position as int]),
        ensures
            final(self).wf(),
            final(self).input == old(self).input,
            old(self).position <= final(self).position < final(self).input.len(),
            final(self).position + 1 == run_end(
                old(self).input@,
                old(self).position as int,
                RunKind::Word,
            ),
            r@ == old(self).input@.subrange(
                old(self).position as int,
                final(self).position + 1,
            ),
    {
        let start = self.position;
        while char_is_letter(self.peak_char())
            invariant
                self.wf(),
                self.input == old(self).input,
                start <= self.position < self.input.len(),
                forall|m: int| start <= m <= self.position ==> is_letter(#[trigger] self.input@[m]),
            decreases self.input.len() - self.position,
        {
            self.read_char();
        }
        proof {
            lemma_run_end_at(self.input@, start as int, self.position + 1, RunKind::Word);
        }
        self.lexeme(start, self.position + 1)
    }

    /// Reads the run of digits under the cursor, leaving the cursor on its
    /// last digit; a value past `i32::MAX` gives an overflow token.
    fn read_int(&mut self) -> (t: Token)
        requires
            old(self).wf(),
            old(self).position < old(self).input.len(),
            is_digit(old(self).input@[old(self).position as int]),
        ensures
            final(self).wf(),
            final(self).input == old(self).input,
            old(self).position <= final(self).position < final(self).input.len(),
            final(self).position + 1 == run_end(
                old(self).input@,
                old(self).position as int,
                RunKind::Number,
            ),
            t@ == number_token(
                old(self).input@.subrange(old(self).position as int, final(self).position + 1),
            ),
    {
        let start = self.position;
        let ghost s = self.input@;
        let mut value: i32 = (self.ch as u32 - '0' as u32) as i32;
        let mut overflow = false;
        proof {
            let d1 = s.subrange(start as int, start + 1);
            assert(d1.drop_last() =~= Seq::<char>::empty());
            assert(digits_value(d1.drop_last()) == 0);
            assert(d1.last() == s[start as int]);
            assert(value == digit_value(s[start as int]));
        }
        while char_is_digit(self.peak_char())
            invariant
                self.wf(),
                self.input == old(self).input,
                s == self.input@,
                start <= self.position < self.input.len(),
                forall|m: int| start <= m <= self.position ==> is_digit(#[trigger] s[m]),
                overflow == (digits_value(s.subrange(start as int, self.position + 1)) > i32::MAX),
                !overflow ==> value == digits_value(s.subrange(start as int, self.position + 1)),
                0 <= value,
            decreases self.input.len() - self.position,
        {
            let ghost before = digits_value(s.subrange(start as int, self.position + 1));
            self.read_char();
            let d = (self.ch as u32 - '0' as u32) as i32;
            assert(s.subrange(start as int, self.position + 1).drop_last() =~= s.subrange(
                start as int,
                self.position as int,
            ));
            assert(digits_value(s.subrange(start as int, self.position + 1)) == before * 10 + d);
            if !overflow {
                if value <= (i32::MAX - d) / 10 {
                    assert(value * 10 + d <= i32::MAX) by (nonlinear_arith)
                        requires
                            0 <= d <= 9,
                            0 <= value <= (i32::MAX - d) / 10,
                    ;
                    value = value * 10 + d;
                } else {
                    assert(value * 10 + d > i32::MAX) by (nonlinear_arith)
                        requires
                            0 <= d <= 9,
                            value > (i32::MAX - d) / 10,
                    ;
                    overflow = true;
                }
            } else {
                assert(before * 10 + d > i32::MAX) by (nonlinear_arith)
                    requires
                        0 <= d <= 9,
                        before > i32::MAX,
                ;
            }
        }
        proof {
            lemma_run_end_at(s, start as int, self.position + 1, RunKind::Number);
        }
        if overflow {
            Token::IntOverflow(self.lexeme(start, self.position + 1))
        } else {
            Token::Int(value)
        }
    }

    /// Produces the next token: the first pending one, or end-of-input when
    /// none is left.
    pub fn next_token(&mut self) -> (t: Token)
        requires
            old(self).wf(),
        ensures
            final(self).wf(),
            final(self).source() == old(self).source(),
            0 <= final(self).cursor() <= final(self).source().len(),
            old(self).cursor() <= final(self).cursor(),
            old(self).pending().len() == 0 ==> {
                &&& t@ == TokenView::Eof
                &&& final(self).cursor() == final(self).source().len()
                &&& final(self).pending().len() == 0
            },
            old(self).pending().len() > 0 ==> {
                &&& t@ == old(self).pending()[0]
                &&& t@ == scan_at(old(self).source(), token_start(old(self).source(), old(self).cursor())).0
                &&& final(self).cursor() == scan_at(
                    old(self).source(),
                    token_start(old(self).source(), old(self).cursor()),
                ).1
                &&& final(self).pending() == old(self).pending().drop_first()
            },
    {
        self.skip_whitespace();
        let ghost s = self.input@;
        let ghost p = self.position as int;
        proof {
            lemma_run_end_at(s, old(self).position as int, p, RunKind::Space);
            lemma_lex_from_token_start(s, old(self).position as int);
        }
        if self.position >= self.input.len() {
            self.read_char();
            return Token::Eof;
        }
        let tok = match self.ch {
            '=' => self.double_token('=', Token::Assign, Token::Eq),
            '+' => Token::Plus,
            '-' => Token::Minus,
            '>' => self.double_token('=', Token::Gt, Token::Geq),
            '<' => self.double_token('=', Token::Lt, Token::Leq),
            '!' => self.double_token('=', Token::Bang, Token::Neq),
            '*' => Token::Asterisk,
            '/' => Token::Slash,
            '(' => Token::Lparen,
            ')' => Token::Rparen,
            '{' => Token::Lbrace,
            '}' => Token::Rbrace,
            ',' => Token::Comma,
            ';' => Token::Semicolon,
            c => {
                if char_is_digit(c) {
                    self.read_int()
                } else if char_is_letter(c) {
                    let start = self.position;
                    let ident = self.read_ident();
                    match self.keyword_at(start, self.position + 1) {
                        Some(k) => k,
                        None => Token::Ident(ident),
                    }
                } else {
                    Token::Illegal
                }
            },
        };
        assert(tok@ == scan_at(s, p).0);
        assert(self.position + 1 == scan_at(s, p).1);
        self.read_char();
        assert(lex_from(s, p).drop_first() =~= lex_from(s, scan_at(s, p).1));
        tok
    }

    /// The next token of the sequence, or `None` once end-of-input is reached;
    /// every request after that gives `None` again.
    pub fn next(&mut self) -> (r: Option<Token>)
        requires
            old(self).wf(),
        ensures
            final(self).wf(),
            final(self).source() == old(self).source(),
            0 <= final(self).cursor() <= final(self).source().len(),
            old(self).cursor() <= final(self).cursor(),
            r is None <==> token_start(old(self).source(), old(self).cursor())
                == old(self).source().len(),
            old(self).pending().len() == 0 ==> {
                &&& r is None
                &&& final(self).cursor() == final(self).source().len()
                &&& final(self).pending().len() == 0
            },
            old(self).pending().len() > 0 ==> {
                &&& r matches Some(t) && t@ == old(self).pending()[0]
                &&& final(self).cursor() == scan_at(
                    old(self).source(),
                    token_start(old(self).source(), old(self).cursor()),
                ).1
                &&& final(self).pending() == old(self).pending().drop_first()
            },
    {
        proof {
            lemma_lex_has_no_eof(self.source(), self.cursor());
            lemma_lex_from_token_start(self.source(), self.cursor());
        }
        match self.next_token() {
            Token::Eof => None,
            t => Some(t),
        }
    }

    /// Drains the scanner: all pending tokens, in order.
    pub fn into_tokens(self) -> (r: Vec<Token>)
        requires
            self.wf(),
        ensures
            views(r@) == self.pending(),
    {
        let mut lexer = self;
        let mut r: Vec<Token> = Vec::new();
        loop
            invariant
                lexer.wf(),
                views(r@) + lexer.pending() == self.pending(),
            decreases lexer.pending().len(),
        {
            let ghost before = lexer.pending();
            match lexer.next() {
                Some(t) => {
                    r.push(t);
                    assert(views(r@) + lexer.pending() =~= self.pending()) by {
                        assert(views(r@) =~= views(r@.drop_last()).push(t@));
                        assert(before =~= seq![t@] + lexer.pending());
                    }
                },
                None => {
                    assert(views(r@) =~= self.pending());
                    return r;
                },
            }
        }
    }
}

} // verus!
