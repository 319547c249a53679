//! Tokens of the toy language tokenizer, and the character classes it uses.

use vstd::prelude::*;

verus! {

#[derive(Debug, PartialEq, Eq)]
pub enum Token {
    Illegal,
    EOF,
    Identifier(String),
    Int(String),
    Assign,
    Plus,
    Comma,
    SemiColon,
    LParen,
    RParen,
    LBrace,
    RBrace,
    Function,
    Let,
}

/// A letter for identifier purposes: ASCII alphabetic or an underscore.
pub open spec fn is_letter_spec(c: char) -> bool {
    ('a' <= c && c <= 'z') || ('A' <= c && c <= 'Z') || c == '_'
}

/// An ASCII decimal digit.
pub open spec fn is_digit_spec(c: char) -> bool {
    '0' <= c && c <= '9'
}

pub fn is_letter(c: char) -> (r: bool)
    ensures
        r == is_letter_spec(c),
{
    if ('a' <= c && c <= 'z') || ('A' <= c && c <= 'Z') || c == '_' {
        return true;
    }
    return false;
}

pub fn is_digit(c: char) -> (r: bool)
    ensures
        r == is_digit_spec(c),
{
    if '0' <= c && c <= '9' {
        return true;
    }
    return false;
}

/// The token an identifier string stands for: the keywords `fn` and `let`
/// map to their own tokens, everything else is a plain identifier.
#[allow(non_snake_case)]
pub fn LookupIdentifier(ident: &str) -> (tok: Token)
    ensures
        match tok {
            Token::Function => ident@ == "fn"@,
            Token::Let => ident@ == "let"@,
            Token::Identifier(s) => s@ == ident@ && ident@ != "fn"@ && ident@ != "let"@,
            _ => false,
        },
{
    proof {
        reveal_strlit("fn");
        reveal_strlit("let");
    }
    let len = ident.unicode_len();
    if len == 2 && ident.get_char(0) == 'f' && ident.get_char(1) == 'n' {
        proof {
            assert(ident@ =~= "fn"@);
        }
        return Token::Function;
    }
    if len == 3 && ident.get_char(0) == 'l' && ident.get_char(1) == 'e' && ident.get_char(2) == 't'
    {
        proof {
            assert(ident@ =~= "let"@);
        }
        return Token::Let;
    }
    proof {
        assert(ident@ != "fn"@);
        assert(ident@ != "let"@);
    }
    return Token::Identifier(ident.to_owned());
}

} // verus!
