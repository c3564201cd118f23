use std::iter::zip;

use toy_lexer::{Lexer, Token};

fn scan(input: &str) -> Vec<Token> {
    Lexer::new(String::from(input)).into_tokens()
}

fn ident(s: &str) -> Token {
    Token::Ident(String::from(s))
}

#[test]
fn single_next_token() {
    let input = String::from("=+-><!*/(){},;");
    let lexer = Lexer::new(input);

    let tokens = vec![
        Token::Assign,
        Token::Plus,
        Token::Minus,
        Token::Gt,
        Token::Lt,
        Token::Bang,
        Token::Asterisk,
        Token::Slash,
        Token::Lparen,
        Token::Rparen,
        Token::Lbrace,
        Token::Rbrace,
        Token::Comma,
        Token::Semicolon,
    ];

    for (expected, actual) in zip(tokens, lexer.into_tokens()) {
        println!("expected: {:?} recieved: {:?}", expected, actual);
        assert_eq!(expected, actual);
    }
}

#[test]
fn double_next_token() {
    let input = String::from("== != >= <=");
    let lexer = Lexer::new(input);

    let tokens = vec![Token::Eq, Token::Neq, Token::Geq, Token::Leq];

    for (expected, actual) in zip(tokens, lexer.into_tokens()) {
        println!("expected: {:?} recieved: {:?}", expected, actual);
        assert_eq!(expected, actual);
    }
}

#[test]
fn simple_next_token() {
    let input = String::from(
        "
            let five = 5;
            let ten = 10;
            let add = fn(x, y) {
                x + y;
            };
            let max = fn(x, y) {
                if (x > y) {
                    return x;
                } else {
                    return y;
                }
            };
            let result = add(five, ten);
        ",
    );
    let lexer = Lexer::new(input);

    let tokens = vec![
        Token::Let,
        Token::Ident(String::from("five")),
        Token::Assign,
        Token::Int(5),
        Token::Semicolon,
        Token::Let,
        Token::Ident(String::from("ten")),
        Token::Assign,
        Token::Int(10),
        Token::Semicolon,
        Token::Let,
        Token::Ident(String::from("add")),
        Token::Assign,
        Token::Function,
        Token::Lparen,
        Token::Ident(String::from("x")),
        Token::Comma,
        Token::Ident(String::from("y")),
        Token::Rparen,
        Token::Lbrace,
        Token::Ident(String::from("x")),
        Token::Plus,
        Token::Ident(String::from("y")),
        Token::Semicolon,
        Token::Rbrace,
        Token::Semicolon,
        Token::Let,
        Token::Ident(String::from("max")),
        Token::Assign,
        Token::Function,
        Token::Lparen,
        Token::Ident(String::from("x")),
        Token::Comma,
        Token::Ident(String::from("y")),
        Token::Rparen,
        Token::Lbrace,
        Token::If,
        Token::Lparen,
        Token::Ident(String::from("x")),
        Token::Gt,
        Token::Ident(String::from("y")),
        Token::Rparen,
        Token::Lbrace,
        Token::Return,
        Token::Ident(String::from("x")),
        Token::Semicolon,
        Token::Rbrace,
        Token::Else,
        Token::Lbrace,
        Token::Return,
        Token::Ident(String::from("y")),
        Token::Semicolon,
        Token::Rbrace,
        Token::Rbrace,
        Token::Semicolon,
        Token::Let,
        Token::Ident(String::from("result")),
        Token::Assign,
        Token::Ident(String::from("add")),
        Token::Lparen,
        Token::Ident(String::from("five")),
        Token::Comma,
        Token::Ident(String::from("ten")),
        Token::Rparen,
        Token::Semicolon,
        Token::Eof,
    ];

    for (expected, actual) in zip(tokens, lexer.into_tokens()) {
        println!("expected: {:?} recieved: {:?}", expected, actual);
        assert_eq!(expected, actual);
    }
}

#[test]
fn every_single_character_operator_and_delimiter() {
    assert_eq!(
        scan("=+-><!*/(){},;"),
        vec![
            Token::Assign,
            Token::Plus,
            Token::Minus,
            Token::Gt,
            Token::Lt,
            Token::Bang,
            Token::Asterisk,
            Token::Slash,
            Token::Lparen,
            Token::Rparen,
            Token::Lbrace,
            Token::Rbrace,
            Token::Comma,
            Token::Semicolon,
        ]
    );
}

#[test]
fn operators_and_delimiters_without_spaces() {
    assert_eq!(
        scan("=+(){},;"),
        vec![
            Token::Assign,
            Token::Plus,
            Token::Lparen,
            Token::Rparen,
            Token::Lbrace,
            Token::Rbrace,
            Token::Comma,
            Token::Semicolon,
        ]
    );
}

#[test]
fn two_character_operators() {
    assert_eq!(scan("== != >= <="), vec![Token::Eq, Token::Neq, Token::Geq, Token::Leq]);
}

#[test]
fn let_statement() {
    assert_eq!(
        scan("let five = 5;"),
        vec![Token::Let, ident("five"), Token::Assign, Token::Int(5), Token::Semicolon]
    );
}

#[test]
fn empty_input_gives_no_tokens() {
    assert_eq!(scan(""), vec![]);
    let mut lexer = Lexer::new(String::new());
    assert_eq!(lexer.next(), None);
}

#[test]
fn only_spaces_give_no_tokens() {
    assert_eq!(scan(" \t\r\n  "), vec![]);
}

#[test]
fn scanning_twice_gives_the_same_tokens() {
    let input = "let add = fn(x, y) { x + y; }; @ 99999999999";
    assert_eq!(scan(input), scan(input));
}

#[test]
fn doubled_equals_is_one_token() {
    assert_eq!(scan("=="), vec![Token::Eq]);
    assert_eq!(scan(">="), vec![Token::Geq]);
    assert_eq!(scan("<="), vec![Token::Leq]);
    assert_eq!(scan("!="), vec![Token::Neq]);
}

#[test]
fn separated_equals_are_two_tokens() {
    assert_eq!(scan("= ="), vec![Token::Assign, Token::Assign]);
    assert_eq!(scan("! ="), vec![Token::Bang, Token::Assign]);
}

#[test]
fn compound_operator_munches_locally() {
    assert_eq!(scan("==="), vec![Token::Eq, Token::Assign]);
    assert_eq!(scan("!x"), vec![Token::Bang, ident("x")]);
    assert_eq!(scan("<"), vec![Token::Lt]);
    assert_eq!(scan(">=="), vec![Token::Geq, Token::Assign]);
}

#[test]
fn whitespace_between_tokens_is_transparent() {
    let tight = scan("let x=5;if(x>y){return x;}");
    let loose = scan("  let \t x\n=\r\n5 ;\n\n if ( x > y ) { return   x ; }  ");
    assert_eq!(tight, loose);
    assert_eq!(scan("a b"), scan("a \t\n\r b"));
}

#[test]
fn every_keyword_is_recognised() {
    assert_eq!(scan("fn"), vec![Token::Function]);
    assert_eq!(scan("let"), vec![Token::Let]);
    assert_eq!(scan("true"), vec![Token::True]);
    assert_eq!(scan("false"), vec![Token::False]);
    assert_eq!(scan("if"), vec![Token::If]);
    assert_eq!(scan("else"), vec![Token::Else]);
    assert_eq!(scan("return"), vec![Token::Return]);
}

#[test]
fn near_keywords_are_identifiers() {
    assert_eq!(scan("lets"), vec![ident("lets")]);
    assert_eq!(scan("Fn"), vec![ident("Fn")]);
    assert_eq!(scan("_if"), vec![ident("_if")]);
    assert_eq!(scan("el"), vec![ident("el")]);
    assert_eq!(scan("returns"), vec![ident("returns")]);
}

#[test]
fn identifier_keeps_its_exact_text() {
    assert_eq!(scan("foo_Bar baz"), vec![ident("foo_Bar"), ident("baz")]);
}

#[test]
fn digits_end_an_identifier() {
    assert_eq!(scan("x1"), vec![ident("x"), Token::Int(1)]);
    assert_eq!(scan("12ab"), vec![Token::Int(12), ident("ab")]);
}

#[test]
fn requests_after_exhaustion_give_nothing() {
    let mut lexer = Lexer::new(String::from("x ;  "));
    assert_eq!(lexer.next(), Some(ident("x")));
    assert_eq!(lexer.next(), Some(Token::Semicolon));
    assert_eq!(lexer.next(), None);
    assert_eq!(lexer.next(), None);
    assert_eq!(lexer.next_token(), Token::Eof);
    assert_eq!(lexer.next_token(), Token::Eof);
}

#[test]
fn next_token_reports_end_of_input() {
    let mut lexer = Lexer::new(String::from("+"));
    assert_eq!(lexer.next_token(), Token::Plus);
    assert_eq!(lexer.next_token(), Token::Eof);
}

#[test]
fn illegal_character_does_not_stop_the_scan() {
    assert_eq!(
        scan("let x = 5 @ 6;"),
        vec![
            Token::Let,
            ident("x"),
            Token::Assign,
            Token::Int(5),
            Token::Illegal,
            Token::Int(6),
            Token::Semicolon,
        ]
    );
    assert_eq!(scan("a#b"), vec![ident("a"), Token::Illegal, ident("b")]);
    assert_eq!(scan("=$="), vec![Token::Assign, Token::Illegal, Token::Assign]);
}

#[test]
fn each_illegal_character_gives_one_token() {
    assert_eq!(scan("@@"), vec![Token::Illegal, Token::Illegal]);
}

#[test]
fn non_ascii_character_is_one_illegal_token() {
    assert_eq!(scan("aé b"), vec![ident("a"), Token::Illegal, ident("b")]);
    assert_eq!(scan("ü→1"), vec![Token::Illegal, Token::Illegal, Token::Int(1)]);
}

#[test]
fn embedded_null_character_is_illegal() {
    assert_eq!(scan("a\0b"), vec![ident("a"), Token::Illegal, ident("b")]);
}

#[test]
fn integer_values() {
    assert_eq!(scan("0"), vec![Token::Int(0)]);
    assert_eq!(scan("007"), vec![Token::Int(7)]);
    assert_eq!(scan("1234567"), vec![Token::Int(1234567)]);
    assert_eq!(scan("2147483647"), vec![Token::Int(i32::MAX)]);
}

#[test]
fn integer_overflow_is_reported_and_scanning_goes_on() {
    assert_eq!(
        scan("2147483648"),
        vec![Token::IntOverflow(String::from("2147483648"))]
    );
    assert_eq!(
        scan("99999999999999999999 + 1"),
        vec![
            Token::IntOverflow(String::from("99999999999999999999")),
            Token::Plus,
            Token::Int(1),
        ]
    );
}

#[test]
fn long_input_scans_every_token() {
    let mut input = String::new();
    let mut expected = Vec::new();
    for _ in 0..20000 {
        input.push_str("ab=1;");
        expected.push(ident("ab"));
        expected.push(Token::Assign);
        expected.push(Token::Int(1));
        expected.push(Token::Semicolon);
    }
    assert_eq!(scan(&input), expected);
}

#[test]
fn spaces_at_lexeme_boundaries_change_nothing() {
    let plain = scan("x==y;");
    assert_eq!(scan(" x==y;"), plain);
    assert_eq!(scan("x ==y;"), plain);
    assert_eq!(scan("x== y;"), plain);
    assert_eq!(scan("x==y ;"), plain);
    assert_eq!(scan("x==y; "), plain);
    assert_eq!(scan("x= =y;"), vec![ident("x"), Token::Assign, Token::Assign, ident("y"), Token::Semicolon]);
}

#[test]
fn trailing_spaces_end_the_sequence() {
    let mut lexer = Lexer::new(String::from("fn \n\t "));
    assert_eq!(lexer.next(), Some(Token::Function));
    assert_eq!(lexer.next(), None);
}
