//! Tokens of the tape language and the lexer that reads them from source bytes.

use vstd::prelude::*;

verus! {

/// One instruction of the tape language.
#[derive(Clone, Copy, Debug, PartialEq, Eq, Structural)]
pub enum Token {
    /// `>`: move the pointer one cell to the right.
    PtrRight,
    /// `<`: move the pointer one cell to the left.
    PtrLeft,
    /// `+`: add one to the current cell.
    Inc,
    /// `-`: subtract one from the current cell.
    Dec,
    /// `.`: write the current cell to standard output.
    Out,
    /// `,`: read one byte of standard input into the current cell.
    In,
    /// `[`: enter the loop if the current cell is nonzero, else jump past it.
    JmpPast,
    /// `]`: jump back to the loop body if the current cell is nonzero.
    JmpBack,
}

/// The token that a source byte stands for: `>` (62), `<` (60), `+` (43),
/// `-` (45), `.` (46), `,` (44), `[` (91) and `]` (93); no other byte has one.
pub open spec fn token_of(b: u8) -> Option<Token> {
    if b == 62 {
        Some(Token::PtrRight)
    } else if b == 60 {
        Some(Token::PtrLeft)
    } else if b == 43 {
        Some(Token::Inc)
    } else if b == 45 {
        Some(Token::Dec)
    } else if b == 46 {
        Some(Token::Out)
    } else if b == 44 {
        Some(Token::In)
    } else if b == 91 {
        Some(Token::JmpPast)
    } else if b == 93 {
        Some(Token::JmpBack)
    } else {
        None
    }
}

/// The tokens of a source text, in order, with every other byte skipped.
pub open spec fn tokens_of(src: Seq<u8>) -> Seq<Token>
    decreases src.len(),
{
    if src.len() == 0 {
        Seq::empty()
    } else {
        let rest = tokens_of(src.drop_last());
        match token_of(src.last()) {
            Some(t) => rest.push(t),
            None => rest,
        }
    }
}

/// A source text has no more tokens than bytes.
pub proof fn lemma_tokens_len(src: Seq<u8>)
    ensures
        tokens_of(src).len() <= src.len(),
    decreases src.len(),
{
    if src.len() > 0 {
        lemma_tokens_len(src.drop_last());
    }
}

/// The token that a source byte stands for, if any.
pub fn token_for_byte(b: u8) -> (t: Option<Token>)
    ensures
        t == token_of(b),
{
    match b {
        62 => Some(Token::PtrRight),
        60 => Some(Token::PtrLeft),
        43 => Some(Token::Inc),
        45 => Some(Token::Dec),
        46 => Some(Token::Out),
        44 => Some(Token::In),
        91 => Some(Token::JmpPast),
        93 => Some(Token::JmpBack),
        _ => None,
    }
}

/// Turns source text into its tokens. Bytes outside the instruction
/// alphabet `> < + - . , [ ]` are comments and are skipped.
pub fn lex(source: &[u8]) -> (tokens: Vec<Token>)
    ensures
        tokens@ == tokens_of(source@),
{
    let mut tokens: Vec<Token> = Vec::new();
    let mut i: usize = 0;
    while i < source.len()
        invariant
            i <= source@.len(),
            tokens@ == tokens_of(source@.take(i as int)),
        decreases source@.len() - i,
    {
        let t = token_for_byte(source[i]);
        assert(source@.take(i + 1).drop_last() == source@.take(i as int));
        if let Some(t) = t {
            tokens.push(t);
        }
        i = i + 1;
    }
    assert(source@.take(i as int) == source@);
    tokens
}

} // verus!
