use vstd::prelude::*;
use vstd::string::{StrSliceExecFns, StringExecFns};

verus! {

/// A lexical unit of the source language.
#[derive(Debug)]
pub enum Token {
    OpenParen,
    CloseParen,
    Number(String),
    Name(String),
    StringLiteral(String),
}

/// Mathematical model of a token: its kind and its text.
pub enum Tok {
    OpenParen,
    CloseParen,
    Number(Seq<char>),
    Name(Seq<char>),
    StringLiteral(Seq<char>),
}

impl View for Token {
    type V = Tok;

    open spec fn view(&self) -> Tok {
        match self {
            Token::OpenParen => Tok::OpenParen,
            Token::CloseParen => Tok::CloseParen,
            Token::Number(s) => Tok::Number(s@),
            Token::Name(s) => Tok::Name(s@),
            Token::StringLiteral(s) => Tok::StringLiteral(s@),
        }
    }
}

pub open spec fn toks_of(v: Seq<Token>) -> Seq<Tok> {
    v.map_values(|t: Token| t@)
}

/// Why the source text could not be split into tokens. Positions count
/// characters from the start of the text.
#[derive(PartialEq, Eq, Structural, Clone, Copy, Debug)]
pub enum LexError {
    /// A character that starts no token.
    UnexpectedChar { ch: char, pos: usize },
    /// A string literal, opened at `pos`, that is never closed.
    UnterminatedString { pos: usize },
}

pub open spec fn is_digit(c: char) -> bool {
    '0' <= c && c <= '9'
}

pub open spec fn is_lower(c: char) -> bool {
    'a' <= c && c <= 'z'
}

pub open spec fn is_space(c: char) -> bool {
    c == ' ' || c == '\n'
}

/// The characters that continue a run: a number, a name, or the inside of
/// a string literal.
#[derive(PartialEq, Eq, Structural, Clone, Copy)]
pub enum CharClass {
    Digit,
    Lower,
    NotQuote,
}

pub open spec fn in_class(k: CharClass, c: char) -> bool {
    match k {
        CharClass::Digit => is_digit(c),
        CharClass::Lower => is_lower(c),
        CharClass::NotQuote => c != '"',
    }
}

/// The end of the longest run of characters of class `k` that starts at `i`.
pub open spec fn scan_while(s: Seq<char>, i: int, k: CharClass) -> int
    decreases s.len() - i,
{
    if 0 <= i < s.len() && in_class(k, s[i]) {
        scan_while(s, i + 1, k)
    } else {
        i
    }
}

pub proof fn lemma_scan_while(s: Seq<char>, i: int, k: CharClass)
    requires
        0 <= i <= s.len(),
    ensures
        i <= scan_while(s, i, k) <= s.len(),
        forall|m: int| i <= m < scan_while(s, i, k) ==> in_class(k, #[trigger] s[m]),
        scan_while(s, i, k) < s.len() ==> !in_class(k, s[scan_while(s, i, k)]),
    decreases s.len() - i,
{
    if i < s.len() && in_class(k, s[i]) {
        lemma_scan_while(s, i + 1, k);
    }
}

pub open spec fn prepend(t: Tok, r: Result<Seq<Tok>, LexError>) -> Result<Seq<Tok>, LexError> {
    match r {
        Ok(ts) => Ok(seq![t] + ts),
        Err(e) => Err(e),
    }
}

/// The tokens of `s` from position `i` on, or the first lexical error there.
pub open spec fn lex(s: Seq<char>, i: int) -> Result<Seq<Tok>, LexError>
    decreases s.len() - i,
{
    if i < 0 || i >= s.len() {
        Ok(seq![])
    } else {
        let c = s[i];
        if c == '(' {
            prepend(Tok::OpenParen, lex(s, i + 1))
        } else if c == ')' {
            prepend(Tok::CloseParen, lex(s, i + 1))
        } else if is_space(c) {
            lex(s, i + 1)
        } else if is_digit(c) {
            let j = scan_while(s, i, CharClass::Digit);
            proof {
                lemma_scan_while(s, i, CharClass::Digit);
            }
            prepend(Tok::Number(s.subrange(i, j)), lex(s, j))
        } else if is_lower(c) {
            let j = scan_while(s, i, CharClass::Lower);
            proof {
                lemma_scan_while(s, i, CharClass::Lower);
            }
            prepend(Tok::Name(s.subrange(i, j)), lex(s, j))
        } else if c == '"' {
            let j = scan_while(s, i + 1, CharClass::NotQuote);
            proof {
                lemma_scan_while(s, i + 1, CharClass::NotQuote);
            }
            if j >= s.len() {
                Err(LexError::UnterminatedString { pos: i as usize })
            } else {
                prepend(Tok::StringLiteral(s.subrange(i + 1, j)), lex(s, j + 1))
            }
        } else {
            Err(LexError::UnexpectedChar { ch: c, pos: i as usize })
        }
    }
}

pub open spec fn prepend_all(ts: Seq<Tok>, r: Result<Seq<Tok>, LexError>) -> Result<Seq<Tok>, LexError> {
    match r {
        Ok(rest) => Ok(ts + rest),
        Err(e) => Err(e),
    }
}

fn char_in_class(k: CharClass, c: char) -> (r: bool)
    ensures
        r == in_class(k, c),
{
    match k {
        CharClass::Digit => '0' <= c && c <= '9',
        CharClass::Lower => 'a' <= c && c <= 'z',
        CharClass::NotQuote => c != '"',
    }
}

/// Exclusive end of the run of class `k` in `input` that starts at `i`.
fn scan(input: &str, n: usize, i: usize, k: CharClass) -> (j: usize)
    requires
        n == input@.len(),
        i <= n,
    ensures
        j == scan_while(input@, i as int, k),
        i <= j <= n,
        i < n && in_class(k, input@[i as int]) ==> i < j,
{
    proof {
        lemma_scan_while(input@, i as int, k);
        if i < n {
            lemma_scan_while(input@, i + 1, k);
        }
    }
    let mut j = i;
    while j < n && char_in_class(k, input.get_char(j))
        invariant
            n == input@.len(),
            i <= j <= n,
            scan_while(input@, i as int, k) == scan_while(input@, j as int, k),
        decreases n - j,
    {
        j += 1;
    }
    j
}

proof fn lemma_push_token(ts: Seq<Token>, t: Token, rest: Result<Seq<Tok>, LexError>)
    ensures
        prepend_all(toks_of(ts.push(t)), rest) == prepend_all(toks_of(ts), prepend(t@, rest)),
{
    assert(toks_of(ts.push(t)) =~= toks_of(ts).push(t@));
    if let Ok(x) = rest {
        assert(toks_of(ts).push(t@) + x =~= toks_of(ts) + (seq![t@] + x));
    }
}

/// Splits source text into tokens, left to right: parentheses, numbers
/// (runs of digits), names (runs of lowercase letters) and string literals
/// in double quotes. Spaces and newlines separate tokens and are dropped.
pub fn tokenizer(input: &str) -> (r: Result<Vec<Token>, LexError>)
    ensures
        match lex(input@, 0) {
            Ok(ts) => r is Ok && toks_of(r->Ok_0@) == ts,
            Err(e) => r == Err::<Vec<Token>, LexError>(e),
        },
{
    let n = input.unicode_len();
    let mut tokens: Vec<Token> = Vec::new();
    let mut i: usize = 0;
    assert(toks_of(tokens@) =~= seq![]);
    assert(seq![] + lex(input@, 0)->Ok_0 =~= lex(input@, 0)->Ok_0);
    while i < n
        invariant
            n == input@.len(),
            i <= n,
            lex(input@, 0) == prepend_all(toks_of(tokens@), lex(input@, i as int)),
        decreases n - i,
    {
        let c = input.get_char(i);
        let ghost before = tokens@;
        if c == '(' {
            tokens.push(Token::OpenParen);
            proof { lemma_push_token(before, Token::OpenParen, lex(input@, i + 1)); }
            i += 1;
        } else if c == ')' {
            tokens.push(Token::CloseParen);
            proof { lemma_push_token(before, Token::CloseParen, lex(input@, i + 1)); }
            i += 1;
        } else if c == ' ' || c == '\n' {
            i += 1;
        } else if char_in_class(CharClass::Digit, c) {
            let j = scan(input, n, i, CharClass::Digit);
            let t = Token::Number(String::from_str(input.substring_char(i, j)));
            tokens.push(t);
            proof { lemma_push_token(before, t, lex(input@, j as int)); }
            i = j;
        } else if char_in_class(CharClass::Lower, c) {
            let j = scan(input, n, i, CharClass::Lower);
            let t = Token::Name(String::from_str(input.substring_char(i, j)));
            tokens.push(t);
            proof { lemma_push_token(before, t, lex(input@, j as int)); }
            i = j;
        } else if c == '"' {
            let j = scan(input, n, i + 1, CharClass::NotQuote);
            if j >= n {
                return Err(LexError::UnterminatedString { pos: i });
            }
            let t = Token::StringLiteral(String::from_str(input.substring_char(i + 1, j)));
            tokens.push(t);
            proof { lemma_push_token(before, t, lex(input@, j + 1)); }
            i = j + 1;
        } else {
            return Err(LexError::UnexpectedChar { ch: c, pos: i });
        }
    }
    assert(toks_of(tokens@) + seq![] =~= toks_of(tokens@));
    Ok(tokens)
}

} // verus!
