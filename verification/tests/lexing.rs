use rust_distributed_sys_challenge::lexer::Lexer;
use rust_distributed_sys_challenge::token::{is_digit, is_letter, LookupIdentifier, Token};

fn iterate_through_tokens(input: &str, tokens: Vec<Token>) {
    let mut lexer = Lexer::new(input.chars().collect());

    for token in tokens {
        let lexed_token = lexer.next_token();
        assert_eq!(token, lexed_token);
    }
}

#[test]
fn simple_lexing_check() {
    let input = "=+(){},;";
    let tokens = vec![
        Token::Assign,
        Token::Plus,
        Token::LParen,
        Token::RParen,
        Token::LBrace,
        Token::RBrace,
        Token::Comma,
        Token::SemiColon,
        Token::EOF,
    ];
    iterate_through_tokens(input, tokens)
}

#[test]
fn assignment_lexing_check() {
    let input = "let five = 5;
let ten = 10;

let add = fn(x, y) {
  x + y;
};

let result = add(five, ten);

";
    let tokens = vec![
        Token::Let,
        Token::Identifier("five".to_string()),
        Token::Assign,
        Token::Int("5".to_string()),
        Token::SemiColon,
        Token::Let,
        Token::Identifier("ten".to_string()),
        Token::Assign,
        Token::Int("10".to_string()),
        Token::SemiColon,
        Token::Let,
        Token::Identifier("add".to_string()),
        Token::Assign,
        Token::Function,
        Token::LParen,
        Token::Identifier("x".to_string()),
        Token::Comma,
        Token::Identifier("y".to_string()),
        Token::RParen,
        Token::LBrace,
        Token::Identifier("x".to_string()),
        Token::Plus,
        Token::Identifier("y".to_string()),
        Token::SemiColon,
        Token::RBrace,
        Token::SemiColon,
        Token::Let,
        Token::Identifier("result".to_string()),
        Token::Assign,
        Token::Identifier("add".to_string()),
        Token::LParen,
        Token::Identifier("five".to_string()),
        Token::Comma,
        Token::Identifier("ten".to_string()),
        Token::RParen,
        Token::SemiColon,
    ];
    iterate_through_tokens(input, tokens)
}

#[test]
fn lookup_identifier_keywords() {
    assert_eq!(LookupIdentifier("fn"), Token::Function);
    assert_eq!(LookupIdentifier("let"), Token::Let);
    assert_eq!(
        LookupIdentifier("five"),
        Token::Identifier("five".to_string())
    );
}

#[test]
fn character_classes() {
    assert!(is_letter('a'));
    assert!(is_letter('Z'));
    assert!(is_letter('_'));
    assert!(!is_letter('1'));
    assert!(!is_letter(' '));
    assert!(is_digit('0'));
    assert!(is_digit('9'));
    assert!(!is_digit('x'));
}

#[test]
fn illegal_character_token() {
    let mut lexer = Lexer::new("@".chars().collect());
    assert_eq!(lexer.next_token(), Token::Illegal);
}

#[test]
fn eof_on_empty_input() {
    let mut lexer = Lexer::new(Vec::new());
    assert_eq!(lexer.next_token(), Token::EOF);
    assert_eq!(lexer.next_token(), Token::EOF);
}
