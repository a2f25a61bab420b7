use vstd::prelude::*;

use crate::number::{Arithmetic, Num};

verus! {

/// One lexical unit of an input line.
#[derive(Debug, Clone, PartialEq)]
pub enum Token {
    Name(String),
    Number(Num),
    Operation(Operation),
    Equals,
    Comma,
    Let,
    OpeningParen,
    ClosingParen,
    OpeningBracket,
    ClosingBracket,
}

#[derive(Debug, Clone, Copy, PartialEq, Eq, Structural)]
pub enum Operation {
    Add,
    Sub,
    Mul,
    Div,
    Exp,
}

#[derive(Debug, Clone, PartialEq, Eq)]
pub enum TokenizingError {
    /// A numeric literal could not be read; holds the reader's reason.
    ParseFloatError(String),
}

/// Two tokens are the same: same variant, same name text, same number pattern.
pub open spec fn same_token(a: Token, b: Token) -> bool {
    match (a, b) {
        (Token::Name(x), Token::Name(y)) => x@ == y@,
        (Token::Number(x), Token::Number(y)) => x.bits == y.bits,
        (Token::Operation(x), Token::Operation(y)) => x == y,
        (Token::Equals, Token::Equals) => true,
        (Token::Comma, Token::Comma) => true,
        (Token::Let, Token::Let) => true,
        (Token::OpeningParen, Token::OpeningParen) => true,
        (Token::ClosingParen, Token::ClosingParen) => true,
        (Token::OpeningBracket, Token::OpeningBracket) => true,
        (Token::ClosingBracket, Token::ClosingBracket) => true,
        _ => false,
    }
}

impl Token {
    pub fn same_as(&self, other: &Token) -> (r: bool)
        ensures
            r == same_token(*self, *other),
    {
        match (self, other) {
            (Token::Name(x), Token::Name(y)) => x.eq(y),
            (Token::Number(x), Token::Number(y)) => x.bits == y.bits,
            (Token::Operation(x), Token::Operation(y)) => *x == *y,
            (Token::Equals, Token::Equals) => true,
            (Token::Comma, Token::Comma) => true,
            (Token::Let, Token::Let) => true,
            (Token::OpeningParen, Token::OpeningParen) => true,
            (Token::ClosingParen, Token::ClosingParen) => true,
            (Token::OpeningBracket, Token::OpeningBracket) => true,
            (Token::ClosingBracket, Token::ClosingBracket) => true,
            _ => false,
        }
    }

    pub fn copy(&self) -> (r: Token)
        ensures
            r == *self,
    {
        match self {
            Token::Name(x) => Token::Name(x.clone()),
            Token::Number(x) => Token::Number(*x),
            Token::Operation(x) => Token::Operation(*x),
            Token::Equals => Token::Equals,
            Token::Comma => Token::Comma,
            Token::Let => Token::Let,
            Token::OpeningParen => Token::OpeningParen,
            Token::ClosingParen => Token::ClosingParen,
            Token::OpeningBracket => Token::OpeningBracket,
            Token::ClosingBracket => Token::ClosingBracket,
        }
    }
}

/// The token a single character stands for, if it is an operator or a bracket.
pub open spec fn symbol_of(c: char) -> Option<Token> {
    if c == '=' {
        Some(Token::Equals)
    } else if c == ',' {
        Some(Token::Comma)
    } else if c == '+' {
        Some(Token::Operation(Operation::Add))
    } else if c == '-' {
        Some(Token::Operation(Operation::Sub))
    } else if c == '*' {
        Some(Token::Operation(Operation::Mul))
    } else if c == '/' {
        Some(Token::Operation(Operation::Div))
    } else if c == '^' {
        Some(Token::Operation(Operation::Exp))
    } else if c == '(' {
        Some(Token::OpeningParen)
    } else if c == ')' {
        Some(Token::ClosingParen)
    } else if c == '[' {
        Some(Token::OpeningBracket)
    } else if c == ']' {
        Some(Token::ClosingBracket)
    } else {
        None
    }
}

/// A character that ends a word.
pub open spec fn is_separator(c: char) -> bool {
    symbol_of(c) is Some || c == ' '
}

/// A word made of digits and points only is read as a number.
pub open spec fn is_numeric(w: Seq<char>) -> bool {
    forall|i: int| 0 <= i < w.len() ==> (('0' <= #[trigger] w[i] && w[i] <= '9') || w[i] == '.')
}

/// A unit of a line before numbers are read: an operator or bracket, or a word.
pub enum Lexeme {
    Symbol(Token),
    Word(Seq<char>),
}

/// The position of the first separator, or the length.
pub open spec fn word_end(chars: Seq<char>) -> int
    decreases chars.len(),
{
    if chars.len() == 0 {
        0
    } else if is_separator(chars[0]) {
        0
    } else {
        1 + word_end(chars.subrange(1, chars.len() as int))
    }
}

proof fn lemma_word_end(chars: Seq<char>, k: int)
    requires
        0 <= k <= chars.len(),
        forall|j: int| 0 <= j < k ==> !is_separator(chars[j]),
        k == chars.len() || is_separator(chars[k]),
    ensures
        word_end(chars) == k,
    decreases chars.len(),
{
    if k > 0 {
        let tail = chars.subrange(1, chars.len() as int);
        assert forall|j: int| 0 <= j < k - 1 implies !is_separator(tail[j]) by {
            assert(tail[j] == chars[j + 1]);
        }
        if k < chars.len() {
            assert(tail[k - 1] == chars[k]);
        }
        lemma_word_end(tail, k - 1);
    }
}

/// The units of a line: maximal runs of non-separators are words; spaces
/// only separate.
pub open spec fn lex(chars: Seq<char>) -> Seq<Lexeme>
    decreases chars.len(),
{
    let k = word_end(chars);
    let word: Seq<Lexeme> = if k > 0 {
        seq![Lexeme::Word(chars.subrange(0, k))]
    } else {
        Seq::empty()
    };
    if k < 0 || k >= chars.len() {
        word
    } else {
        let sym: Seq<Lexeme> = match symbol_of(chars[k]) {
            Some(t) => seq![Lexeme::Symbol(t)],
            None => Seq::empty(),
        };
        word + sym + lex(chars.subrange(k + 1, chars.len() as int))
    }
}

proof fn lemma_word_end_range(chars: Seq<char>)
    ensures
        0 <= word_end(chars) <= chars.len(),
    decreases chars.len(),
{
    if chars.len() > 0 && !is_separator(chars[0]) {
        lemma_word_end_range(chars.subrange(1, chars.len() as int));
    }
}

/// The token is what the unit reads as: a symbol as itself, a numeric word as
/// a number, the word `let` as `Let`, any other word as a name.
pub open spec fn reads_as(t: Token, l: Lexeme) -> bool {
    match l {
        Lexeme::Symbol(s) => t == s,
        Lexeme::Word(w) => if is_numeric(w) {
            t is Number
        } else if w == "let"@ {
            t == Token::Let
        } else {
            t is Name && t->Name_0@ == w
        },
    }
}

fn symbol(c: char) -> (r: Option<Token>)
    ensures
        r == symbol_of(c),
{
    if c == '=' {
        Some(Token::Equals)
    } else if c == ',' {
        Some(Token::Comma)
    } else if c == '+' {
        Some(Token::Operation(Operation::Add))
    } else if c == '-' {
        Some(Token::Operation(Operation::Sub))
    } else if c == '*' {
        Some(Token::Operation(Operation::Mul))
    } else if c == '/' {
        Some(Token::Operation(Operation::Div))
    } else if c == '^' {
        Some(Token::Operation(Operation::Exp))
    } else if c == '(' {
        Some(Token::OpeningParen)
    } else if c == ')' {
        Some(Token::ClosingParen)
    } else if c == '[' {
        Some(Token::OpeningBracket)
    } else if c == ']' {
        Some(Token::ClosingBracket)
    } else {
        None
    }
}

/// Reads a word: as a number where `is_num` holds, else as `Let` or a name.
pub fn parse_token<A: Arithmetic>(to_tokenize: &str, is_num: bool, arith: &A) -> (r: Result<Token, TokenizingError>)
    ensures
        r is Ok ==> if is_num {
            r->Ok_0 is Number
        } else if to_tokenize@ == "let"@ {
            r->Ok_0 == Token::Let
        } else {
            r->Ok_0 is Name && r->Ok_0->Name_0@ == to_tokenize@
        },
        r is Err ==> is_num,
{
    if is_num {
        match arith.parse_number(to_tokenize) {
            Ok(num) => Ok(Token::Number(num)),
            Err(reason) => Err(TokenizingError::ParseFloatError(reason)),
        }
    } else {
        let word = String::from_str(to_tokenize);
        let keyword = String::from_str("let");
        proof {
            reveal_strlit("let");
        }
        if word.eq(&keyword) {
            Ok(Token::Let)
        } else {
            Ok(Token::Name(word))
        }
    }
}

/// Every token reads as the unit at its place.
pub open spec fn reads_all(tokens: Seq<Token>, units: Seq<Lexeme>) -> bool {
    tokens.len() == units.len() && forall|k: int| 0 <= k < units.len() ==> reads_as(#[trigger] tokens[k], units[k])
}

/// The line has a numeric word.
pub open spec fn has_number(units: Seq<Lexeme>) -> bool {
    exists|k: int| 0 <= k < units.len() && (#[trigger] units[k]) is Word && is_numeric(units[k]->Word_0)
}

proof fn lemma_lex_at_separator(chars: Seq<char>, start: int, i: int)
    requires
        0 <= start <= i < chars.len(),
        forall|j: int| start <= j < i ==> !is_separator(chars[j]),
        is_separator(chars[i]),
    ensures
        lex(chars.subrange(start, chars.len() as int)) == (if i > start {
            seq![Lexeme::Word(chars.subrange(start, i))]
        } else {
            Seq::<Lexeme>::empty()
        }) + (match symbol_of(chars[i]) {
            Some(t) => seq![Lexeme::Symbol(t)],
            None => Seq::<Lexeme>::empty(),
        }) + lex(chars.subrange(i + 1, chars.len() as int)),
{
    let rest = chars.subrange(start, chars.len() as int);
    assert forall|j: int| 0 <= j < i - start implies !is_separator(rest[j]) by {
        assert(rest[j] == chars[start + j]);
    }
    assert(rest[i - start] == chars[i]);
    lemma_word_end(rest, i - start);
    assert(rest.subrange(0, i - start) =~= chars.subrange(start, i));
    assert(rest.subrange(i - start + 1, rest.len() as int) =~= chars.subrange(i + 1, chars.len() as int));
}

proof fn lemma_lex_at_end(chars: Seq<char>, start: int)
    requires
        0 <= start <= chars.len(),
        forall|j: int| start <= j < chars.len() ==> !is_separator(chars[j]),
    ensures
        lex(chars.subrange(start, chars.len() as int)) == if start < chars.len() {
            seq![Lexeme::Word(chars.subrange(start, chars.len() as int))]
        } else {
            Seq::<Lexeme>::empty()
        },
{
    let rest = chars.subrange(start, chars.len() as int);
    assert forall|j: int| 0 <= j < rest.len() implies !is_separator(rest[j]) by {
        assert(rest[j] == chars[start + j]);
    }
    lemma_word_end(rest, rest.len() as int);
    assert(rest.subrange(0, rest.len() as int) =~= rest);
}

/// Splits a line into tokens; numeric words are read by `arith`. Fails where
/// a numeric word cannot be read as a number.
pub fn tokenize<A: Arithmetic>(line: &str, arith: &A) -> (r: Result<Vec<Token>, TokenizingError>)
    ensures
        r is Ok ==> reads_all(r->Ok_0@, lex(line@)),
        r is Err ==> has_number(lex(line@)),
{
    let ghost chars = line@;
    let n = line.unicode_len();
    let mut out: Vec<Token> = Vec::new();
    let ghost mut done: Seq<Lexeme> = Seq::empty();
    let mut start: usize = 0;
    let mut is_num = true;
    let mut i: usize = 0;
    proof {
        assert(chars.subrange(0, chars.len() as int) =~= chars);
        assert(done + lex(chars.subrange(0, chars.len() as int)) =~= lex(chars));
    }
    while i < n
        invariant
            chars == line@,
            n == chars.len(),
            start <= i <= n,
            forall|j: int| start <= j < i ==> !is_separator(chars[j]),
            is_num == is_numeric(chars.subrange(start as int, i as int)),
            lex(chars) == done + lex(chars.subrange(start as int, n as int)),
            reads_all(out@, done),
        decreases n - i,
    {
        let c = line.get_char(i);
        let sym = symbol(c);
        if sym.is_some() || c == ' ' {
            proof {
                lemma_lex_at_separator(chars, start as int, i as int);
            }
            let ghost word: Seq<Lexeme> = if i > start {
                seq![Lexeme::Word(chars.subrange(start as int, i as int))]
            } else {
                Seq::<Lexeme>::empty()
            };
            if start < i {
                let t = match parse_token(line.substring_char(start, i), is_num, arith) {
                    Ok(t) => t,
                    Err(e) => {
                        proof {
                            let all = lex(chars);
                            assert(all[done.len() as int] == Lexeme::Word(chars.subrange(start as int, i as int)));
                        }
                        return Err(e);
                    },
                };
                out.push(t);
            }
            let ghost sym_l: Seq<Lexeme> = match symbol_of(c) {
                Some(t) => seq![Lexeme::Symbol(t)],
                None => Seq::<Lexeme>::empty(),
            };
            if let Some(t) = sym {
                out.push(t);
            }
            proof {
                let d2 = done + word + sym_l;
                assert(lex(chars) =~= d2 + lex(chars.subrange(i + 1, n as int)));
                assert forall|k: int| 0 <= k < d2.len() implies reads_as(#[trigger] out@[k], d2[k]) by {
                    if k < done.len() {
                        assert(d2[k] == done[k]);
                    }
                }
                done = d2;
            }
            is_num = true;
            start = i + 1;
            proof {
                assert(is_numeric(chars.subrange(start as int, start as int)));
            }
        } else {
            if !(('0' <= c && c <= '9') || c == '.') {
                is_num = false;
            }
            proof {
                let w = chars.subrange(start as int, i + 1);
                assert(w.subrange(0, w.len() - 1) =~= chars.subrange(start as int, i as int));
                assert(w[w.len() - 1] == c);
                if is_num {
                    assert forall|j: int| 0 <= j < w.len() implies (('0' <= #[trigger] w[j] && w[j] <= '9') || w[j] == '.') by {
                        if j < w.len() - 1 {
                            assert(w[j] == chars.subrange(start as int, i as int)[j]);
                        }
                    }
                }
                if !is_numeric(chars.subrange(start as int, i as int)) && !is_num {
                    let p = chars.subrange(start as int, i as int);
                    let j = choose|j: int| 0 <= j < p.len() && !(('0' <= #[trigger] p[j] && p[j] <= '9') || p[j] == '.');
                    assert(w[j] == p[j]);
                }
            }
        }
        i += 1;
    }
    proof {
        lemma_lex_at_end(chars, start as int);
    }
    if start < n {
        let t = match parse_token(line.substring_char(start, n), is_num, arith) {
            Ok(t) => t,
            Err(e) => {
                proof {
                    let all = lex(chars);
                    assert(all[done.len() as int] == Lexeme::Word(chars.subrange(start as int, n as int)));
                }
                return Err(e);
            },
        };
        out.push(t);
        proof {
            let d2 = done + seq![Lexeme::Word(chars.subrange(start as int, n as int))];
            assert forall|k: int| 0 <= k < d2.len() implies reads_as(#[trigger] out@[k], d2[k]) by {
                if k < done.len() {
                    assert(d2[k] == done[k]);
                }
            }
            assert(lex(chars) =~= d2);
        }
    } else {
        proof {
            assert(lex(chars) =~= done);
        }
    }
    Ok(out)
}

} // verus!
