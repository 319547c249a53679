//! A small hand-written tokenizer over a vector of characters.
//!
//! The lexer walks the input one character at a time; `next_token` skips
//! whitespace and returns the next token together with the position after it.
//! Its contract pins the token down exactly, via the spec scanners below.

use vstd::prelude::*;

use crate::token;
use crate::token::Token;

verus! {

/// The character the cursor sees: the input character at `i`, or NUL once
/// the cursor has run past the end.
pub open spec fn char_at(s: Seq<char>, i: int) -> char {
    if 0 <= i < s.len() {
        s[i]
    } else {
        '\0'
    }
}

/// Whitespace skipped between tokens.
pub open spec fn is_ws(c: char) -> bool {
    c == ' ' || c == '\t' || c == '\n' || c == '\r'
}

/// First position at or after `i` that does not hold whitespace.
pub open spec fn skip_ws_from(s: Seq<char>, i: int) -> int
    decreases s.len() - i,
{
    if 0 <= i && i < s.len() && is_ws(s[i]) {
        skip_ws_from(s, i + 1)
    } else {
        i
    }
}

/// First position at or after `i` that does not hold a letter.
pub open spec fn ident_end(s: Seq<char>, i: int) -> int
    decreases s.len() - i,
{
    if 0 <= i && i < s.len() && token::is_letter_spec(s[i]) {
        ident_end(s, i + 1)
    } else {
        i
    }
}

/// First position at or after `i` that does not hold a digit.
pub open spec fn num_end(s: Seq<char>, i: int) -> int
    decreases s.len() - i,
{
    if 0 <= i && i < s.len() && token::is_digit_spec(s[i]) {
        num_end(s, i + 1)
    } else {
        i
    }
}

pub proof fn lemma_skip_ws_bounds(s: Seq<char>, i: int)
    requires
        0 <= i,
    ensures
        i <= skip_ws_from(s, i),
        i <= s.len() ==> skip_ws_from(s, i) <= s.len(),
        i > s.len() ==> skip_ws_from(s, i) == i,
    decreases s.len() - i,
{
    if i < s.len() && is_ws(s[i]) {
        lemma_skip_ws_bounds(s, i + 1);
    }
}

pub proof fn lemma_ident_end_bounds(s: Seq<char>, i: int)
    requires
        0 <= i,
    ensures
        i <= ident_end(s, i),
        i <= s.len() ==> ident_end(s, i) <= s.len(),
        i > s.len() ==> ident_end(s, i) == i,
    decreases s.len() - i,
{
    if i < s.len() && token::is_letter_spec(s[i]) {
        lemma_ident_end_bounds(s, i + 1);
    }
}

pub proof fn lemma_num_end_bounds(s: Seq<char>, i: int)
    requires
        0 <= i,
    ensures
        i <= num_end(s, i),
        i <= s.len() ==> num_end(s, i) <= s.len(),
        i > s.len() ==> num_end(s, i) == i,
    decreases s.len() - i,
{
    if i < s.len() && token::is_digit_spec(s[i]) {
        lemma_num_end_bounds(s, i + 1);
    }
}

proof fn lemma_subrange_push(s: Seq<char>, start: int, p: int)
    requires
        0 <= start <= p < s.len(),
    ensures
        s.subrange(start, p).push(s[p]) =~= s.subrange(start, p + 1),
{
}

pub struct Lexer {
    pub input: Vec<char>,
    pub position: usize,
    pub read_position: usize,
    pub ch: char,
}

impl Lexer {
    /// The cursor always sits one position behind the read position, and the
    /// current character mirrors the input at the cursor.
    pub open spec fn wf(self) -> bool {
        &&& self.input@.len() < usize::MAX - 1
        &&& self.read_position == self.position + 1
        &&& self.ch == char_at(self.input@, self.position as int)
    }

    pub fn new(input: Vec<char>) -> (lex: Lexer)
        requires
            input@.len() < usize::MAX - 1,
        ensures
            lex.wf(),
            lex.input == input,
            lex.position == 0,
    {
        let mut lex = Lexer { input, position: 0, read_position: 0, ch: '\0' };
        lex.read_char();
        return lex;
    }

    fn read_char(&mut self)
        requires
            old(self).read_position < usize::MAX,
        ensures
            final(self).input == old(self).input,
            final(self).position == old(self).read_position,
            final(self).read_position == old(self).read_position + 1,
            final(self).ch == char_at(old(self).input@, old(self).read_position as int),
    {
        if self.read_position >= self.input.len() {
            self.ch = '\0';
        } else {
            self.ch = self.input[self.read_position];
        }
        self.position = self.read_position;
        self.read_position += 1;
    }

    fn skip_whitespace(&mut self)
        requires
            old(self).wf(),
        ensures
            final(self).wf(),
            final(self).input == old(self).input,
            final(self).position == skip_ws_from(old(self).input@, old(self).position as int),
    {
        while self.ch == ' ' || self.ch == '\t' || self.ch == '\n' || self.ch == '\r'
            invariant
                self.wf(),
                self.input == old(self).input,
                skip_ws_from(self.input@, self.position as int) == skip_ws_from(
                    old(self).input@,
                    old(self).position as int,
                ),
            decreases self.input@.len() - self.position,
        {
            self.read_char();
        }
    }

    fn read_identifier(&mut self) -> (ident: String)
        requires
            old(self).wf(),
            token::is_letter_spec(old(self).ch),
        ensures
            final(self).wf(),
            final(self).input == old(self).input,
            final(self).position == ident_end(old(self).input@, old(self).position as int),
            ident@ == old(self).input@.subrange(
                old(self).position as int,
                ident_end(old(self).input@, old(self).position as int),
            ),
    {
        let ghost start = self.position as int;
        let ghost end = ident_end(self.input@, start);
        proof {
            lemma_ident_end_bounds(self.input@, start);
        }
        let mut ident = String::new();
        while token::is_letter(self.ch)
            invariant
                self.wf(),
                self.input == old(self).input,
                0 <= start <= self.position <= end <= self.input@.len(),
                end == ident_end(self.input@, self.position as int),
                ident@ == self.input@.subrange(start, self.position as int),
            decreases self.input@.len() - self.position,
        {
            let ghost pre = *self;
            proof {
                lemma_ident_end_bounds(self.input@, self.position + 1);
            }
            ident.push(self.ch);
            self.read_char();
            proof {
                lemma_subrange_push(self.input@, start, pre.position as int);
            }
        }
        return ident;
    }

    fn read_number(&mut self) -> (num: String)
        requires
            old(self).wf(),
            token::is_digit_spec(old(self).ch),
        ensures
            final(self).wf(),
            final(self).input == old(self).input,
            final(self).position == num_end(old(self).input@, old(self).position as int),
            num@ == old(self).input@.subrange(
                old(self).position as int,
                num_end(old(self).input@, old(self).position as int),
            ),
    {
        let ghost start = self.position as int;
        let ghost end = num_end(self.input@, start);
        proof {
            lemma_num_end_bounds(self.input@, start);
        }
        let mut num = String::new();
        while token::is_digit(self.ch)
            invariant
                self.wf(),
                self.input == old(self).input,
                0 <= start <= self.position <= end <= self.input@.len(),
                end == num_end(self.input@, self.position as int),
                num@ == self.input@.subrange(start, self.position as int),
            decreases self.input@.len() - self.position,
        {
            let ghost pre = *self;
            proof {
                lemma_num_end_bounds(self.input@, self.position + 1);
            }
            num.push(self.ch);
            self.read_char();
            proof {
                lemma_subrange_push(self.input@, start, pre.position as int);
            }
        }
        return num;
    }

    pub fn next_token(&mut self) -> (tok: Token)
        requires
            old(self).wf(),
            old(self).position < usize::MAX - 1,
        ensures
            final(self).wf(),
            final(self).input == old(self).input,
            ({
                let s = old(self).input@;
                let p = skip_ws_from(s, old(self).position as int);
                if p >= s.len() || s[p] == '\0' {
                    tok == Token::EOF && final(self).position == p + 1
                } else if s[p] == '=' {
                    tok == Token::Assign && final(self).position == p + 1
                } else if s[p] == ';' {
                    tok == Token::SemiColon && final(self).position == p + 1
                } else if s[p] == '(' {
                    tok == Token::LParen && final(self).position == p + 1
                } else if s[p] == ')' {
                    tok == Token::RParen && final(self).position == p + 1
                } else if s[p] == ',' {
                    tok == Token::Comma && final(self).position == p + 1
                } else if s[p] == '+' {
                    tok == Token::Plus && final(self).position == p + 1
                } else if s[p] == '{' {
                    tok == Token::LBrace && final(self).position == p + 1
                } else if s[p] == '}' {
                    tok == Token::RBrace && final(self).position == p + 1
                } else if token::is_letter_spec(s[p]) {
                    let e = ident_end(s, p);
                    final(self).position == e && match tok {
                        Token::Function => s.subrange(p, e) == "fn"@,
                        Token::Let => s.subrange(p, e) == "let"@,
                        Token::Identifier(id) => id@ == s.subrange(p, e) && s.subrange(p, e)
                            != "fn"@ && s.subrange(p, e) != "let"@,
                        _ => false,
                    }
                } else if token::is_digit_spec(s[p]) {
                    let e = num_end(s, p);
                    final(self).position == e && match tok {
                        Token::Int(d) => d@ == s.subrange(p, e),
                        _ => false,
                    }
                } else {
                    tok == Token::Illegal && final(self).position == p
                }
            }),
    {
        let tok: Token;
        self.skip_whitespace();
        proof {
            lemma_skip_ws_bounds(old(self).input@, old(self).position as int);
        }

        match self.ch {
            '=' => { tok = Token::Assign; },
            ';' => { tok = Token::SemiColon; },
            '(' => { tok = Token::LParen; },
            ')' => { tok = Token::RParen; },
            ',' => { tok = Token::Comma; },
            '+' => { tok = Token::Plus; },
            '{' => { tok = Token::LBrace; },
            '}' => { tok = Token::RBrace; },
            '\0' => { tok = Token::EOF; },
            _ => {
                if token::is_letter(self.ch) {
                    let ident = self.read_identifier();
                    return token::LookupIdentifier(ident.as_str());
                } else if token::is_digit(self.ch) {
                    return Token::Int(self.read_number());
                } else {
                    return Token::Illegal;
                }
            },
        }
        self.read_char();
        return tok;
    }
}

} // verus!
