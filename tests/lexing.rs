use minidb::{lexer_from_str, Token};

fn kinds(s: &str) -> Vec<Token> {
    lexer_from_str(s).into_iter().map(|(_, t, _)| t).collect()
}

#[test]
fn lexes_simple_query_with_spans() {
    let toks = lexer_from_str("SELECT name FROM customer WHERE age > 25");
    assert_eq!(toks[0], (0, Token::Select, 6));
    assert_eq!(toks[1], (7, Token::Name("name".to_string()), 11));
    assert_eq!(toks[2], (12, Token::From, 16));
    assert_eq!(toks[6], (36, Token::Gt, 37));
    assert_eq!(toks[7], (38, Token::Integer("25".to_string()), 40));
    assert_eq!(toks.len(), 8);
}

#[test]
fn keywords_ignore_case_but_not_prefixes() {
    assert_eq!(kinds("select Distinct selection"), vec![Token::Select, Token::Distinct, Token::Name("selection".to_string())]);
    assert_eq!(kinds("set_x SET"), vec![Token::Name("set_x".to_string()), Token::SetKw]);
}

#[test]
fn lexes_numbers_and_operators() {
    assert_eq!(
        kinds("a<=-5 b>=3.14 c!=1. d-e"),
        vec![
            Token::Name("a".to_string()),
            Token::Lte,
            Token::Integer("-5".to_string()),
            Token::Name("b".to_string()),
            Token::Gte,
            Token::Float("3.14".to_string()),
            Token::Name("c".to_string()),
            Token::Neq,
            Token::Float("1.".to_string()),
            Token::Name("d".to_string()),
            Token::Minus,
            Token::Name("e".to_string()),
        ]
    );
    assert_eq!(kinds("(x*2)/y,z+1=w"), vec![
        Token::LParen,
        Token::Name("x".to_string()),
        Token::Star,
        Token::Integer("2".to_string()),
        Token::RParen,
        Token::Slash,
        Token::Name("y".to_string()),
        Token::Comma,
        Token::Name("z".to_string()),
        Token::Plus,
        Token::Integer("1".to_string()),
        Token::Eq,
        Token::Name("w".to_string()),
    ]);
}

#[test]
fn lexes_string_literals_with_escapes() {
    assert_eq!(kinds(r"'it\'s' 'a\\b' 'x\ny'"), vec![
        Token::Str("it's".to_string()),
        Token::Str("a\\b".to_string()),
        Token::Str("x\ny".to_string()),
    ]);
    let toks = lexer_from_str("name = 'héllo'");
    assert_eq!(toks[2], (7, Token::Str("héllo".to_string()), 15));
}

#[test]
fn skips_bytes_that_start_no_token() {
    assert_eq!(kinds("a # b ! 'open"), vec![
        Token::Name("a".to_string()),
        Token::Name("b".to_string()),
        Token::Name("open".to_string()),
    ]);
    assert!(lexer_from_str("   \t\n").is_empty());
}

#[test]
fn lexes_keywords_and_names_with_spans() {
    assert_eq!(
        lexer_from_str("select a FROM t"),
        vec![
            (0, Token::Select, 6),
            (7, Token::Name("a".to_string()), 8),
            (9, Token::From, 13),
            (14, Token::Name("t".to_string()), 15),
        ]
    );
}
