//! Character-class tables and the token data model.

use vstd::prelude::*;

verus! {

// --- character classes ---
//
// Five membership sets over single bytes; the grammar is defined over ASCII,
// so bytes at or above 0x80 fall in no class and scan as `UNID`.

/// WHITESPACE: space, newline, carriage return.
pub open spec fn is_white(b: u8) -> bool {
    b == 32 || b == 10 || b == 13
}

/// SYMBOL: the operator characters `\ / ! @ # $ % ^ & * ? ~ < > =`.
pub open spec fn is_symbolic(b: u8) -> bool {
    ||| b == 92
    ||| b == 47
    ||| b == 33
    ||| b == 64
    ||| b == 35
    ||| b == 36
    ||| b == 37
    ||| b == 94
    ||| b == 38
    ||| b == 42
    ||| b == 63
    ||| b == 126
    ||| b == 60
    ||| b == 62
    ||| b == 61
}

/// DIGIT_START: a decimal digit.
pub open spec fn is_digit(b: u8) -> bool {
    48 <= b && b <= 57
}

/// DIGIT: what may continue a numeric run; `_` is a separator that
/// contributes no value.
pub open spec fn is_numeric(b: u8) -> bool {
    is_digit(b) || b == 95
}

/// IDENT_START: a letter or underscore.
pub open spec fn is_ident_start(b: u8) -> bool {
    (65 <= b && b <= 90) || (97 <= b && b <= 122) || b == 95
}

/// IDENT: what may continue an identifier run.
pub open spec fn is_ident_part(b: u8) -> bool {
    is_ident_start(b) || is_digit(b)
}

pub fn white(b: u8) -> (r: bool)
    ensures
        r == is_white(b),
{
    b == 32 || b == 10 || b == 13
}

pub fn symbolic(b: u8) -> (r: bool)
    ensures
        r == is_symbolic(b),
{
    b == 92 || b == 47 || b == 33 || b == 64 || b == 35 || b == 36 || b == 37
        || b == 94 || b == 38 || b == 42 || b == 63 || b == 126 || b == 60 || b == 62
        || b == 61
}

pub fn digit(b: u8) -> (r: bool)
    ensures
        r == is_digit(b),
{
    48 <= b && b <= 57
}

pub fn numeric(b: u8) -> (r: bool)
    ensures
        r == is_numeric(b),
{
    digit(b) || b == 95
}

pub fn ident_start(b: u8) -> (r: bool)
    ensures
        r == is_ident_start(b),
{
    (65 <= b && b <= 90) || (97 <= b && b <= 122) || b == 95
}

pub fn ident_part(b: u8) -> (r: bool)
    ensures
        r == is_ident_part(b),
{
    ident_start(b) || digit(b)
}

// --- tokens ---

/// One classified token. `STRING` is reserved for a future string-literal
/// scanner and is never produced here. `FLOAT` carries the literal exactly:
/// the integer part as a value and the fractional run as its raw bytes
/// (digits and `_` separators), so a consumer chooses its own floating-point
/// width and rounding.
#[allow(non_camel_case_types)]
#[derive(Debug, PartialEq)]
pub enum Token {
    INT(i32),
    FLOAT { whole: i32, frac: Vec<u8> },
    VAR(Vec<u8>),
    STRING(Vec<u8>),
    SYMBOL(Vec<u8>),
    TRUE,
    FALSE,
    UNID(u8),
    COMMENT,
    EOS,
}

/// The mathematical shape of a token: payloads as sequences and unbounded
/// integers. Contracts speak of tokens through this view.
pub ghost enum SpecToken {
    Int(int),
    Float { whole: int, frac: Seq<u8> },
    Var(Seq<u8>),
    Str(Seq<u8>),
    Sym(Seq<u8>),
    True,
    False,
    Unid(u8),
    Comment,
    Eos,
}

impl View for Token {
    type V = SpecToken;

    open spec fn view(&self) -> SpecToken {
        match self {
            Token::INT(x) => SpecToken::Int(*x as int),
            Token::FLOAT { whole, frac } => SpecToken::Float { whole: *whole as int, frac: frac@ },
            Token::VAR(w) => SpecToken::Var(w@),
            Token::STRING(w) => SpecToken::Str(w@),
            Token::SYMBOL(w) => SpecToken::Sym(w@),
            Token::TRUE => SpecToken::True,
            Token::FALSE => SpecToken::False,
            Token::UNID(b) => SpecToken::Unid(*b),
            Token::COMMENT => SpecToken::Comment,
            Token::EOS => SpecToken::Eos,
        }
    }
}

impl Token {
    /// An owned copy; the reserved-word table hands these out verbatim.
    pub fn duplicate(&self) -> (r: Token)
        ensures
            r@ == self@,
    {
        match self {
            Token::INT(x) => Token::INT(*x),
            Token::FLOAT { whole, frac } => Token::FLOAT { whole: *whole, frac: copy_bytes(frac) },
            Token::VAR(w) => Token::VAR(copy_bytes(w)),
            Token::STRING(w) => Token::STRING(copy_bytes(w)),
            Token::SYMBOL(w) => Token::SYMBOL(copy_bytes(w)),
            Token::TRUE => Token::TRUE,
            Token::FALSE => Token::FALSE,
            Token::UNID(b) => Token::UNID(*b),
            Token::COMMENT => Token::COMMENT,
            Token::EOS => Token::EOS,
        }
    }
}

fn copy_bytes(v: &Vec<u8>) -> (r: Vec<u8>)
    ensures
        r@ == v@,
{
    let mut r: Vec<u8> = Vec::new();
    let mut i: usize = 0;
    while i < v.len()
        invariant
            i <= v@.len(),
            r@ == v@.subrange(0, i as int),
        decreases v@.len() - i,
    {
        r.push(v[i]);
        proof {
            assert(v@.subrange(0, i as int).push(v@[i as int]) =~= v@.subrange(0, i + 1));
        }
        i = i + 1;
    }
    proof {
        assert(v@.subrange(0, v@.len() as int) =~= v@);
    }
    r
}

/// The two conditions that abort a scan call instead of producing a token.
#[derive(Debug, PartialEq, Eq, Structural)]
pub enum LexError {
    /// A block comment reached the end of the input before `*/`.
    UnterminatedComment,
    /// A numeric literal's integer part does not fit in 32 signed bits.
    NumberTooLarge,
}

} // verus!
