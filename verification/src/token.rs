//! Tokens of the tape language and the lexer that finds them in source text.

use vstd::prelude::*;

verus! {

/// One instruction symbol of the source language.
#[derive(Clone, Copy, Debug, PartialEq, Eq)]
pub enum Token {
    /// `+`
    Incr,
    /// `-`
    Decr,
    /// `<`
    MoveLeft,
    /// `>`
    MoveRight,
    /// `.`
    Write,
    /// `[`
    LoopBegin,
    /// `]`
    LoopEnd,
}

impl Token {
    /// The character that stands for this token in source text.
    pub open spec fn symbol(self) -> char {
        match self {
            Token::Incr => '+',
            Token::Decr => '-',
            Token::MoveLeft => '<',
            Token::MoveRight => '>',
            Token::Write => '.',
            Token::LoopBegin => '[',
            Token::LoopEnd => ']',
        }
    }
}

/// The token that a character stands for; `None` for every character that is
/// not one of the seven symbols.
pub open spec fn token_of(c: char) -> Option<Token> {
    if c == '+' {
        Some(Token::Incr)
    } else if c == '-' {
        Some(Token::Decr)
    } else if c == '<' {
        Some(Token::MoveLeft)
    } else if c == '>' {
        Some(Token::MoveRight)
    } else if c == '.' {
        Some(Token::Write)
    } else if c == '[' {
        Some(Token::LoopBegin)
    } else if c == ']' {
        Some(Token::LoopEnd)
    } else {
        None
    }
}

/// The tokens of a text: the symbols it holds, in the order in which they
/// occur, with every other character left out.
pub open spec fn lex(text: Seq<char>) -> Seq<Token> {
    text.filter_map(|c: char| token_of(c))
}

/// The text made of the symbols of the given tokens.
pub open spec fn symbols(tokens: Seq<Token>) -> Seq<char> {
    tokens.map_values(|t: Token| t.symbol())
}

/// A text has no more tokens than characters.
pub proof fn lemma_lex_len(text: Seq<char>)
    ensures
        lex(text).len() <= text.len(),
    decreases text.len(),
{
    if text.len() > 0 {
        lemma_lex_len(text.drop_last());
    }
}

/// The characters of a text that are symbols, in their order.
pub open spec fn symbols_in(text: Seq<char>) -> Seq<char> {
    text.filter(|c: char| token_of(c) is Some)
}

/// The symbols of the tokens of a text are the text without the characters
/// that are no symbols: nothing else is taken out, nothing is added, and the
/// order stays.
pub proof fn lemma_lex_keeps_symbols(text: Seq<char>)
    ensures
        symbols(lex(text)) == symbols_in(text),
    decreases text.len(),
{
    reveal(Seq::filter);
    if text.len() == 0 {
        assert(symbols(lex(text)) =~= symbols_in(text));
    } else {
        lemma_lex_keeps_symbols(text.drop_last());
        let front = lex(text.drop_last());
        match token_of(text.last()) {
            Some(token) => {
                assert(token.symbol() == text.last());
                assert(lex(text) =~= front.push(token));
                assert(symbols(front.push(token)) =~= symbols(front).push(token.symbol()));
            },
            None => {},
        }
    }
}

/// The text made of the symbols of tokens has those tokens.
pub proof fn lemma_lex_symbols(tokens: Seq<Token>)
    ensures
        lex(symbols(tokens)) == tokens,
    decreases tokens.len(),
{
    if tokens.len() == 0 {
        assert(lex(symbols(tokens)) =~= tokens);
    } else {
        lemma_lex_symbols(tokens.drop_last());
        assert(symbols(tokens).drop_last() =~= symbols(tokens.drop_last()));
        assert(token_of(tokens.last().symbol()) == Some(tokens.last()));
        assert(lex(symbols(tokens)) =~= tokens);
    }
}

/// Classifies one character.
pub fn classify(c: char) -> (token: Option<Token>)
    ensures
        token == token_of(c),
{
    if c == '+' {
        Some(Token::Incr)
    } else if c == '-' {
        Some(Token::Decr)
    } else if c == '<' {
        Some(Token::MoveLeft)
    } else if c == '>' {
        Some(Token::MoveRight)
    } else if c == '.' {
        Some(Token::Write)
    } else if c == '[' {
        Some(Token::LoopBegin)
    } else if c == ']' {
        Some(Token::LoopEnd)
    } else {
        None
    }
}

/// Scans a source text and returns its tokens.
pub fn parse_source(source: &str) -> (tokens: Vec<Token>)
    ensures
        tokens@ == lex(source@),
{
    let mut tokens: Vec<Token> = Vec::new();
    for c in it: source.chars()
        invariant
            it.seq() == source@,
            tokens@ == lex(source@.take(it.index())),
    {
        proof {
            source@.lemma_filter_map_take_succ(|c: char| token_of(c), it.index());
        }
        match classify(c) {
            Some(token) => {
                tokens.push(token);
            },
            None => {},
        }
    }
    proof {
        assert(source@.take(source@.len() as int) =~= source@);
    }
    tokens
}

} // verus!
