//! The token model that the macro-argument grammar reads: a flat sequence in
//! which each bracketed group appears as an opening marker, its contents and a
//! closing marker.

use vstd::prelude::*;

verus! {

/// The bracket that delimits a group of tokens.
#[derive(Clone, Copy, Debug, PartialEq, Eq)]
pub enum Delimiter {
    Parenthesis,
    Brace,
    Bracket,
}

/// One token of a macro's input.
#[derive(Clone, Debug, PartialEq, Eq)]
pub enum Token {
    /// An identifier or keyword, as written (a raw identifier keeps its `r#`).
    Ident(String),
    /// A single punctuation character.
    Punct(char),
    /// A string literal, by its value.
    StrLit(String),
    /// An integer literal, by its digits in base 10 (underscores, base prefix
    /// and type suffix taken away).
    IntLit(String),
    /// Any other literal.
    OtherLit,
    /// The start of a group.
    Open(Delimiter),
    /// The end of a group.
    Close(Delimiter),
}

/// A text taken from the input together with the index of the token it came
/// from.
#[derive(Clone, Debug, PartialEq, Eq)]
pub struct Located {
    pub text: String,
    pub token: usize,
}

impl Located {
    pub open spec fn model(self) -> (Seq<char>, int) {
        (self.text@, self.token as int)
    }
}

/// The models of a sequence of located texts.
pub open spec fn located_models(v: Seq<Located>) -> Seq<(Seq<char>, int)> {
    v.map_values(|l: Located| l.model())
}

/// Position `i` is the end of the current group: past the last token, or at a
/// closing marker.
pub open spec fn ends_group(t: Seq<Token>, i: int) -> bool {
    i >= t.len() || t[i] is Close
}

/// The token at `i` is the identifier `w`.
pub open spec fn is_word(t: Seq<Token>, i: int, w: Seq<char>) -> bool {
    0 <= i < t.len() && (t[i] matches Token::Ident(x) && x@ == w)
}

/// The token at `i` is the punctuation character `c`.
pub open spec fn is_punct(t: Seq<Token>, i: int, c: char) -> bool {
    0 <= i < t.len() && t[i] == Token::Punct(c)
}

/// The token at `i` opens a group delimited by `d`.
pub open spec fn is_open(t: Seq<Token>, i: int, d: Delimiter) -> bool {
    0 <= i < t.len() && t[i] == Token::Open(d)
}

pub fn ends_group_at(t: &Vec<Token>, i: usize) -> (r: bool)
    ensures
        r == ends_group(t@, i as int),
{
    if i >= t.len() {
        true
    } else {
        match &t[i] {
            Token::Close(_) => true,
            _ => false,
        }
    }
}

pub fn word_at(t: &Vec<Token>, i: usize, w: &str) -> (r: bool)
    ensures
        r == is_word(t@, i as int, w@),
{
    if i >= t.len() {
        return false;
    }
    match &t[i] {
        Token::Ident(x) => {
            let ws = String::from_str(w);
            x.eq(&ws)
        },
        _ => false,
    }
}

pub fn punct_at(t: &Vec<Token>, i: usize, c: char) -> (r: bool)
    ensures
        r == is_punct(t@, i as int, c),
{
    if i >= t.len() {
        return false;
    }
    match &t[i] {
        Token::Punct(p) => *p == c,
        _ => false,
    }
}

pub fn open_at(t: &Vec<Token>, i: usize, d: Delimiter) -> (r: bool)
    ensures
        r == is_open(t@, i as int, d),
{
    if i >= t.len() {
        return false;
    }
    match &t[i] {
        Token::Open(e) => match (e, d) {
            (Delimiter::Parenthesis, Delimiter::Parenthesis) => true,
            (Delimiter::Brace, Delimiter::Brace) => true,
            (Delimiter::Bracket, Delimiter::Bracket) => true,
            _ => false,
        },
        _ => false,
    }
}

} // verus!
