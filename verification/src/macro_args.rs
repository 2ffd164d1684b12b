//! The arguments of the binding macro:
//!
//! ```text
//! src = "<path>", name = "<module>"
//!     [, includes = ["<dir>", ...]]
//!     [, params = { <ident>: <int>, ... }]
//!     [, clock = "<port>"] [, reset = "<port>"]
//! ```
//!
//! The optional parts may come in any order and any number of times; a later
//! one replaces an earlier one of the same kind.

use vstd::prelude::*;
use crate::decimal::{
    decimal_text, i64_from_text, law_decimal_round_trip, law_negative_decimal_round_trip,
    parse_decimal_i64,
};
use crate::identifier::ascii_ident;
use crate::tokens::{
    Delimiter, Located, Token, ends_group, ends_group_at, is_open, is_punct, is_word, located_models,
    open_at, punct_at, word_at,
};

verus! {

/// What the parser expected where it stopped.
#[derive(Clone, Copy, Debug, PartialEq, Eq)]
pub enum Expectation {
    /// the keyword `src`
    Src,
    /// the keyword `name`
    Name,
    /// `=`
    Equals,
    /// `,`
    Comma,
    /// `:`
    Colon,
    /// a string literal
    StringLiteral,
    /// an integer literal
    IntegerLiteral,
    /// an integer literal whose value fits in an `i64`
    IntegerInRange,
    /// an identifier that is not a keyword
    Identifier,
    /// one of `includes`, `clock`, `reset`, `params`
    OptionName,
    /// a group in square brackets
    SquareBrackets,
    /// a group in curly braces
    CurlyBraces,
}

/// A refusal of the macro's arguments: what was expected, and the index of the
/// token where it was expected (the length of the input, or the index of a
/// closing marker, where the input or the group had ended).
#[derive(Clone, Copy, Debug, PartialEq, Eq)]
pub struct ArgsError {
    pub expected: Expectation,
    pub token: usize,
}

/// The arguments of the binding macro.
#[derive(Clone, Debug, PartialEq, Eq)]
pub struct MacroArgs {
    pub source_path: Located,
    pub name: Located,
    pub include_paths: Option<Vec<Located>>,
    /// Module parameters in the order written; where a name occurs twice, the
    /// later value is the one that counts (`ArgsModel::module_param_map`).
    pub module_params: Option<Vec<(Located, i64)>>,
    /// Accepted and kept, but has no effect.
    pub clock_port: Option<Located>,
    /// Accepted and kept, but has no effect.
    pub reset_port: Option<Located>,
}

/// The mathematical model of [`MacroArgs`]: each text with the index of its
/// token.
pub struct ArgsModel {
    pub source_path: (Seq<char>, int),
    pub name: (Seq<char>, int),
    pub include_paths: Option<Seq<(Seq<char>, int)>>,
    pub module_params: Option<Seq<((Seq<char>, int), i64)>>,
    pub clock_port: Option<(Seq<char>, int)>,
    pub reset_port: Option<(Seq<char>, int)>,
}

/// Module parameters as a map from name to value: where a name occurs more
/// than once, the later value is the one that counts.
pub open spec fn params_map(v: Seq<((Seq<char>, int), i64)>) -> Map<Seq<char>, i64>
    decreases v.len(),
{
    if v.len() == 0 {
        Map::empty()
    } else {
        params_map(v.drop_last()).insert(v.last().0.0, v.last().1)
    }
}

impl ArgsModel {
    /// The module parameters, if given, as the map that they define.
    pub open spec fn module_param_map(self) -> Option<Map<Seq<char>, i64>> {
        match self.module_params {
            Some(v) => Some(params_map(v)),
            None => None,
        }
    }
}

/// A later entry of a parameter list sets its name's value, and leaves every
/// other name's value, and whether it has one, as it was.
pub proof fn law_later_parameter_entry_wins(
    v: Seq<((Seq<char>, int), i64)>,
    key: (Seq<char>, int),
    value: i64,
    other: Seq<char>,
)
    ensures
        params_map(v.push((key, value))).contains_key(key.0),
        params_map(v.push((key, value)))[key.0] == value,
        other != key.0 ==> (params_map(v.push((key, value))).contains_key(other)
            == params_map(v).contains_key(other)),
        other != key.0 && params_map(v).contains_key(other) ==> params_map(v.push((key, value)))[other]
            == params_map(v)[other],
{
    assert(v.push((key, value)).drop_last() =~= v);
}

pub open spec fn param_models(v: Seq<(Located, i64)>) -> Seq<((Seq<char>, int), i64)> {
    v.map_values(|p: (Located, i64)| (p.0.model(), p.1))
}

pub open spec fn opt_model(o: Option<Located>) -> Option<(Seq<char>, int)> {
    match o {
        Some(l) => Some(l.model()),
        None => None,
    }
}

impl MacroArgs {
    pub open spec fn model(self) -> ArgsModel {
        ArgsModel {
            source_path: self.source_path.model(),
            name: self.name.model(),
            include_paths: match self.include_paths {
                Some(v) => Some(located_models(v@)),
                None => None,
            },
            module_params: match self.module_params {
                Some(v) => Some(param_models(v@)),
                None => None,
            },
            clock_port: opt_model(self.clock_port),
            reset_port: opt_model(self.reset_port),
        }
    }
}

/// Whether `syn` reads `text` as an identifier (it refuses `_` and Rust's
/// keywords).
pub uninterp spec fn syn_accepts_ident(text: Seq<char>) -> bool;

/// The words that `syn` never reads as an identifier: `_` and the keywords
/// of its list.
pub open spec fn is_reserved_word(s: Seq<char>) -> bool {
    s == "_"@ || s == "abstract"@ || s == "as"@ || s == "async"@ || s == "await"@ || s == "become"@
        || s == "box"@ || s == "break"@ || s == "const"@ || s == "continue"@ || s == "crate"@ || s
        == "do"@ || s == "dyn"@ || s == "else"@ || s == "enum"@ || s == "extern"@ || s == "false"@
        || s == "final"@ || s == "fn"@ || s == "for"@ || s == "if"@ || s == "impl"@ || s == "in"@
        || s == "let"@ || s == "loop"@ || s == "macro"@ || s == "match"@ || s == "mod"@ || s
        == "move"@ || s == "mut"@ || s == "override"@ || s == "priv"@ || s == "pub"@ || s
        == "ref"@ || s == "return"@ || s == "Self"@ || s == "self"@ || s == "static"@ || s
        == "struct"@ || s == "super"@ || s == "trait"@ || s == "true"@ || s == "try"@ || s
        == "type"@ || s == "typeof"@ || s == "unsafe"@ || s == "unsized"@ || s == "use"@ || s
        == "virtual"@ || s == "where"@ || s == "while"@ || s == "yield"@
}

/// Calls `syn::parse_str::<syn::Ident>` on `text` and reports whether it
/// succeeded. The answer is a function of the text; it is `false` for every
/// word of `syn`'s keyword list (and `_`), and `true` for every other ASCII
/// identifier. For other texts it rests on the lexer's Unicode identifier
/// rules, which are not restated here.
#[verifier::external_body]
fn syn_parses_ident(text: &str) -> (r: bool)
    ensures
        r == syn_accepts_ident(text@),
        is_reserved_word(text@) ==> !r,
        ascii_ident(text@) && !is_reserved_word(text@) ==> r,
{
    syn::parse_str::<syn::Ident>(text).is_ok()
}

pub open spec fn fail<T>(expected: Expectation, i: int) -> Result<T, ArgsError> {
    Err(ArgsError { expected, token: i as usize })
}

/// A string literal at `i`: its value and the position after it.
pub open spec fn string_literal(t: Seq<Token>, i: int) -> Result<(Seq<char>, int), ArgsError> {
    if 0 <= i < t.len() && t[i] is StrLit {
        match t[i] {
            Token::StrLit(s) => Ok((s@, i + 1)),
            _ => fail(Expectation::StringLiteral, i),
        }
    } else {
        fail(Expectation::StringLiteral, i)
    }
}

/// The digits of an integer literal at `i`, or the empty text.
pub open spec fn int_digits(t: Seq<Token>, i: int) -> Seq<char> {
    if 0 <= i < t.len() {
        match t[i] {
            Token::IntLit(d) => d@,
            _ => Seq::empty(),
        }
    } else {
        Seq::empty()
    }
}

/// An integer literal at `i`, possibly preceded by `-`: its value and the
/// position after it.
pub open spec fn integer_literal(t: Seq<Token>, i: int) -> Result<(i64, int), ArgsError> {
    if 0 <= i < t.len() && t[i] is IntLit {
        match i64_from_text(int_digits(t, i)) {
            Some(v) => Ok((v, i + 1)),
            None => fail(Expectation::IntegerInRange, i),
        }
    } else if is_punct(t, i, '-') && i + 1 < t.len() && t[i + 1] is IntLit && !(
    int_digits(t, i + 1).len() > 0 && int_digits(t, i + 1)[0] == '-') {
        match i64_from_text(seq!['-'] + int_digits(t, i + 1)) {
            Some(v) => Ok((v, i + 2)),
            None => fail(Expectation::IntegerInRange, i),
        }
    } else {
        fail(Expectation::IntegerLiteral, i)
    }
}

/// One `<ident>: <int>` entry at `i`.
pub open spec fn key_value(t: Seq<Token>, i: int) -> Result<(((Seq<char>, int), i64), int), ArgsError> {
    if 0 <= i < t.len() && t[i] is Ident {
        match t[i] {
            Token::Ident(key) => if !syn_accepts_ident(key@) {
                fail(Expectation::Identifier, i)
            } else if !is_punct(t, i + 1, ':') {
                fail(Expectation::Colon, i + 1)
            } else {
                match integer_literal(t, i + 2) {
                    Ok((v, k)) => Ok((((key@, i), v), k)),
                    Err(e) => Err(e),
                }
            },
            _ => fail(Expectation::Identifier, i),
        }
    } else {
        fail(Expectation::Identifier, i)
    }
}

/// The string literals, separated by `,` with an optional trailing `,`, from
/// `i` to the end of the group: each value with its index, and the position of
/// the end.
pub open spec fn string_list(t: Seq<Token>, i: int) -> Result<(Seq<(Seq<char>, int)>, int), ArgsError>
    decreases t.len() - i,
{
    if ends_group(t, i) {
        Ok((Seq::empty(), i))
    } else {
        match string_literal(t, i) {
            Err(e) => Err(e),
            Ok((v, j)) => if ends_group(t, j) {
                Ok((seq![(v, i)], j))
            } else if !is_punct(t, j, ',') {
                fail(Expectation::Comma, j)
            } else {
                match string_list(t, j + 1) {
                    Err(e) => Err(e),
                    Ok((rest, k)) => Ok((seq![(v, i)] + rest, k)),
                }
            },
        }
    }
}

/// The `<ident>: <int>` entries, separated by `,` with an optional trailing
/// `,`, from `i` to the end of the group, and the position of the end.
pub open spec fn param_list(t: Seq<Token>, i: int) -> Result<(Seq<((Seq<char>, int), i64)>, int), ArgsError>
    decreases t.len() - i,
{
    if ends_group(t, i) {
        Ok((Seq::empty(), i))
    } else {
        match key_value(t, i) {
            Err(e) => Err(e),
            Ok((p, j)) => if j <= i || ends_group(t, j) {
                Ok((seq![p], j))
            } else if !is_punct(t, j, ',') {
                fail(Expectation::Comma, j)
            } else {
                match param_list(t, j + 1) {
                    Err(e) => Err(e),
                    Ok((rest, k)) => Ok((seq![p] + rest, k)),
                }
            },
        }
    }
}

proof fn lemma_string_list_bounds(t: Seq<Token>, i: int)
    requires
        0 <= i <= t.len(),
    ensures
        string_list(t, i) matches Ok((_, k)) ==> i <= k <= t.len() && ends_group(t, k),
    decreases t.len() - i,
{
    if !ends_group(t, i) {
        if let Ok((v, j)) = string_literal(t, i) {
            if !ends_group(t, j) && is_punct(t, j, ',') {
                lemma_string_list_bounds(t, j + 1);
            }
        }
    }
}

proof fn lemma_integer_literal_bounds(t: Seq<Token>, i: int)
    ensures
        integer_literal(t, i) matches Ok((_, k)) ==> i < k <= t.len(),
{
}

proof fn lemma_param_list_bounds(t: Seq<Token>, i: int)
    requires
        0 <= i <= t.len(),
    ensures
        param_list(t, i) matches Ok((_, k)) ==> i <= k <= t.len() && ends_group(t, k),
    decreases t.len() - i,
{
    if !ends_group(t, i) {
        lemma_integer_literal_bounds(t, i + 2);
        if let Ok((p, j)) = key_value(t, i) {
            if !(j <= i || ends_group(t, j)) && is_punct(t, j, ',') {
                lemma_param_list_bounds(t, j + 1);
            }
        }
    }
}

pub open spec fn with_includes(a: ArgsModel, v: Seq<(Seq<char>, int)>) -> ArgsModel {
    ArgsModel {
        source_path: a.source_path,
        name: a.name,
        include_paths: Some(v),
        module_params: a.module_params,
        clock_port: a.clock_port,
        reset_port: a.reset_port,
    }
}

pub open spec fn with_params(a: ArgsModel, v: Seq<((Seq<char>, int), i64)>) -> ArgsModel {
    ArgsModel {
        source_path: a.source_path,
        name: a.name,
        include_paths: a.include_paths,
        module_params: Some(v),
        clock_port: a.clock_port,
        reset_port: a.reset_port,
    }
}

pub open spec fn with_clock(a: ArgsModel, v: (Seq<char>, int)) -> ArgsModel {
    ArgsModel {
        source_path: a.source_path,
        name: a.name,
        include_paths: a.include_paths,
        module_params: a.module_params,
        clock_port: Some(v),
        reset_port: a.reset_port,
    }
}

pub open spec fn with_reset(a: ArgsModel, v: (Seq<char>, int)) -> ArgsModel {
    ArgsModel {
        source_path: a.source_path,
        name: a.name,
        include_paths: a.include_paths,
        module_params: a.module_params,
        clock_port: a.clock_port,
        reset_port: Some(v),
    }
}

/// One optional part of the arguments, with the index of each of its texts.
pub enum ParsedOption {
    Includes(Seq<(Seq<char>, int)>),
    Params(Seq<((Seq<char>, int), i64)>),
    Clock((Seq<char>, int)),
    Reset((Seq<char>, int)),
}

/// What an optional part sets in the arguments: it replaces the field of its
/// kind and leaves the others.
pub open spec fn apply_option(acc: ArgsModel, o: ParsedOption) -> ArgsModel {
    match o {
        ParsedOption::Includes(v) => with_includes(acc, v),
        ParsedOption::Params(v) => with_params(acc, v),
        ParsedOption::Clock(v) => with_clock(acc, v),
        ParsedOption::Reset(v) => with_reset(acc, v),
    }
}

/// One optional part at `i`, introduced by `,`: what it sets, and the
/// position after it.
pub open spec fn parse_option(t: Seq<Token>, i: int) -> Result<(ParsedOption, int), ArgsError> {
    let j = i + 1;
    if !is_punct(t, i, ',') {
        fail(Expectation::Comma, i)
    } else if is_word(t, j, "includes"@) {
        if !is_punct(t, j + 1, '=') {
            fail(Expectation::Equals, j + 1)
        } else if !is_open(t, j + 2, Delimiter::Bracket) {
            fail(Expectation::SquareBrackets, j + 2)
        } else {
            match string_list(t, j + 3) {
                Err(e) => Err(e),
                Ok((paths, k)) => if k >= t.len() {
                    fail(Expectation::SquareBrackets, j + 2)
                } else {
                    Ok((ParsedOption::Includes(paths), k + 1))
                },
            }
        }
    } else if is_word(t, j, "clock"@) || is_word(t, j, "reset"@) {
        if !is_punct(t, j + 1, '=') {
            fail(Expectation::Equals, j + 1)
        } else {
            match string_literal(t, j + 2) {
                Err(e) => Err(e),
                Ok((port, k)) => if is_word(t, j, "clock"@) {
                    Ok((ParsedOption::Clock((port, j + 2)), k))
                } else {
                    Ok((ParsedOption::Reset((port, j + 2)), k))
                },
            }
        }
    } else if is_word(t, j, "params"@) {
        if !is_punct(t, j + 1, '=') {
            fail(Expectation::Equals, j + 1)
        } else if !is_open(t, j + 2, Delimiter::Brace) {
            fail(Expectation::CurlyBraces, j + 2)
        } else {
            match param_list(t, j + 3) {
                Err(e) => Err(e),
                Ok((params, k)) => if k >= t.len() {
                    fail(Expectation::CurlyBraces, j + 2)
                } else {
                    Ok((ParsedOption::Params(params), k + 1))
                },
            }
        }
    } else {
        fail(Expectation::OptionName, j)
    }
}

proof fn lemma_parse_option_advances(t: Seq<Token>, i: int)
    ensures
        parse_option(t, i) matches Ok((_, k)) ==> i < k <= t.len(),
{
    let j = i + 1;
    if is_punct(t, i, ',') && is_punct(t, j + 1, '=') {
        if is_open(t, j + 2, Delimiter::Bracket) {
            lemma_string_list_bounds(t, j + 3);
        }
        if is_open(t, j + 2, Delimiter::Brace) {
            lemma_param_list_bounds(t, j + 3);
        }
    }
}

#[via_fn]
proof fn options_decreases(t: Seq<Token>, i: int, acc: ArgsModel) {
    lemma_parse_option_advances(t, i);
}

/// The optional parts, each introduced by `,`, from `i` on, applied to `acc`
/// in order; parsing stops at the first position that does not hold `,`.
pub open spec fn options(t: Seq<Token>, i: int, acc: ArgsModel) -> Result<(ArgsModel, int), ArgsError>
    decreases t.len() - i
    via options_decreases
{
    if !is_punct(t, i, ',') {
        Ok((acc, i))
    } else {
        match parse_option(t, i) {
            Err(e) => Err(e),
            Ok((o, k)) => options(t, k, apply_option(acc, o)),
        }
    }
}

/// The macro's arguments read from the start of `t`: the arguments and the
/// position where reading stopped (the tokens from there on are left).
pub open spec fn macro_args(t: Seq<Token>) -> Result<(ArgsModel, int), ArgsError> {
    if !is_word(t, 0, "src"@) {
        fail(Expectation::Src, 0)
    } else if !is_punct(t, 1, '=') {
        fail(Expectation::Equals, 1)
    } else {
        match string_literal(t, 2) {
            Err(e) => Err(e),
            Ok((path, _)) => if !is_punct(t, 3, ',') {
                fail(Expectation::Comma, 3)
            } else if !is_word(t, 4, "name"@) {
                fail(Expectation::Name, 4)
            } else if !is_punct(t, 5, '=') {
                fail(Expectation::Equals, 5)
            } else {
                match string_literal(t, 6) {
                    Err(e) => Err(e),
                    Ok((name, _)) => options(
                        t,
                        7,
                        ArgsModel {
                            source_path: (path, 2),
                            name: (name, 6),
                            include_paths: None,
                            module_params: None,
                            clock_port: None,
                            reset_port: None,
                        },
                    ),
                }
            },
        }
    }
}

pub open spec fn prepend_strings(
    acc: Seq<(Seq<char>, int)>,
    r: Result<(Seq<(Seq<char>, int)>, int), ArgsError>,
) -> Result<(Seq<(Seq<char>, int)>, int), ArgsError> {
    match r {
        Ok((rest, k)) => Ok((acc + rest, k)),
        Err(e) => Err(e),
    }
}

pub open spec fn prepend_params(
    acc: Seq<((Seq<char>, int), i64)>,
    r: Result<(Seq<((Seq<char>, int), i64)>, int), ArgsError>,
) -> Result<(Seq<((Seq<char>, int), i64)>, int), ArgsError> {
    match r {
        Ok((rest, k)) => Ok((acc + rest, k)),
        Err(e) => Err(e),
    }
}

fn expect(expected: Expectation, i: usize) -> (e: ArgsError)
    ensures
        e == (ArgsError { expected, token: i }),
{
    ArgsError { expected, token: i }
}

/// Reads a string literal at `i`.
fn parse_string_literal(t: &Vec<Token>, i: usize) -> (r: Result<(Located, usize), ArgsError>)
    ensures
        match r {
            Ok((s, k)) => string_literal(t@, i as int) == Ok::<(Seq<char>, int), ArgsError>(
                (s.text@, k as int),
            ) && s.token == i && k == i + 1,
            Err(e) => string_literal(t@, i as int) == Err::<(Seq<char>, int), ArgsError>(e),
        },
{
    if i < t.len() {
        match &t[i] {
            Token::StrLit(s) => {
                return Ok((Located { text: s.clone(), token: i }, i + 1));
            },
            _ => {},
        }
    }
    Err(expect(Expectation::StringLiteral, i))
}

/// Reads an integer literal at `i`, possibly preceded by `-`.
fn parse_integer_literal(t: &Vec<Token>, i: usize) -> (r: Result<(i64, usize), ArgsError>)
    ensures
        match r {
            Ok((v, k)) => integer_literal(t@, i as int) == Ok::<(i64, int), ArgsError>((v, k as int)),
            Err(e) => integer_literal(t@, i as int) == Err::<(i64, int), ArgsError>(e),
        },
{
    if i < t.len() {
        match &t[i] {
            Token::IntLit(d) => {
                return match parse_decimal_i64(d.as_str()) {
                    Some(v) => Ok((v, i + 1)),
                    None => Err(expect(Expectation::IntegerInRange, i)),
                };
            },
            Token::Punct(c) => {
                if *c == '-' && i + 1 < t.len() {
                    match &t[i + 1] {
                        Token::IntLit(d) => {
                            let negative_sign = d.as_str().unicode_len() > 0 && d.as_str().get_char(
                                0,
                            ) == '-';
                            if !negative_sign {
                                let mut text = String::from_str("-");
                                proof {
                                    reveal_strlit("-");
                                }
                                text.append(d.as_str());
                                assert(text@ =~= seq!['-'] + d@);
                                return match parse_decimal_i64(text.as_str()) {
                                    Some(v) => Ok((v, i + 2)),
                                    None => Err(expect(Expectation::IntegerInRange, i)),
                                };
                            }
                        },
                        _ => {},
                    }
                }
            },
            _ => {},
        }
    }
    Err(expect(Expectation::IntegerLiteral, i))
}

/// Reads one `<ident>: <int>` entry of `params` at `i`.
pub fn parse_key_value(t: &Vec<Token>, i: usize) -> (r: Result<((Located, i64), usize), ArgsError>)
    ensures
        match r {
            Ok((p, k)) => key_value(t@, i as int) == Ok::<(((Seq<char>, int), i64), int), ArgsError>(
                ((p.0.model(), p.1), k as int),
            ),
            Err(e) => key_value(t@, i as int) == Err::<(((Seq<char>, int), i64), int), ArgsError>(e),
        },
        i < t@.len() ==> ((t@[i as int] matches Token::Ident(key) && is_reserved_word(key@)) ==> r
            == Err::<((Located, i64), usize), ArgsError>(
            ArgsError { expected: Expectation::Identifier, token: i },
        )),
        i < t@.len() ==> ((t@[i as int] matches Token::Ident(key) && ascii_ident(key@)
            && !is_reserved_word(key@)) ==> r != Err::<((Located, i64), usize), ArgsError>(
            ArgsError { expected: Expectation::Identifier, token: i },
        )),
{
    if i < t.len() {
        match &t[i] {
            Token::Ident(key) => {
                if !syn_parses_ident(key.as_str()) {
                    return Err(expect(Expectation::Identifier, i));
                }
                if !punct_at(t, i + 1, ':') {
                    return Err(expect(Expectation::Colon, i + 1));
                }
                return match parse_integer_literal(t, i + 2) {
                    Ok((v, k)) => Ok(((Located { text: key.clone(), token: i }, v), k)),
                    Err(e) => Err(e),
                };
            },
            _ => {},
        }
    }
    Err(expect(Expectation::Identifier, i))
}

/// Reads the string literals of a group, from `start` to the group's end.
fn parse_string_list(t: &Vec<Token>, start: usize) -> (r: Result<(Vec<Located>, usize), ArgsError>)
    requires
        start <= t@.len(),
    ensures
        match r {
            Ok((v, k)) => string_list(t@, start as int) == Ok::<
                (Seq<(Seq<char>, int)>, int),
                ArgsError,
            >((located_models(v@), k as int)) && start <= k <= t@.len(),
            Err(e) => string_list(t@, start as int) == Err::<(Seq<(Seq<char>, int)>, int), ArgsError>(
                e,
            ),
        },
{
    proof {
        lemma_string_list_bounds(t@, start as int);
    }
    let mut acc: Vec<Located> = Vec::new();
    let n = t.len();
    let mut i = start;
    while !ends_group_at(t, i)
        invariant
            start <= i <= t@.len(),
            n == t@.len(),
            string_list(t@, start as int) == prepend_strings(
                located_models(acc@),
                string_list(t@, i as int),
            ),
        decreases t@.len() - i,
    {
        let ghost before = located_models(acc@);
        match parse_string_literal(t, i) {
            Err(e) => {
                return Err(e);
            },
            Ok((v, j)) => {
                acc.push(v);
                assert(located_models(acc@) =~= before + seq![(v.text@, i as int)]);
                if ends_group_at(t, j) {
                    assert(before + seq![(v.text@, i as int)] =~= located_models(acc@));
                    return Ok((acc, j));
                }
                if !punct_at(t, j, ',') {
                    return Err(expect(Expectation::Comma, j));
                }
                assert(j < n);
                proof {
                    let rest = string_list(t@, j + 1);
                    assert(prepend_strings(before, prepend_strings(seq![(v.text@, i as int)], rest))
                        == prepend_strings(located_models(acc@), rest)) by {
                        if let Ok((r, k)) = rest {
                            assert(before + (seq![(v.text@, i as int)] + r) =~= located_models(acc@)
                                + r);
                        }
                    }
                }
                i = j + 1;
            },
        }
    }
    assert(located_models(acc@) + Seq::<(Seq<char>, int)>::empty() =~= located_models(acc@));
    Ok((acc, i))
}

/// Reads the `<ident>: <int>` entries of a group, from `start` to the group's
/// end.
fn parse_param_list(t: &Vec<Token>, start: usize) -> (r: Result<(Vec<(Located, i64)>, usize), ArgsError>)
    requires
        start <= t@.len(),
    ensures
        match r {
            Ok((v, k)) => param_list(t@, start as int) == Ok::<
                (Seq<((Seq<char>, int), i64)>, int),
                ArgsError,
            >((param_models(v@), k as int)) && start <= k <= t@.len(),
            Err(e) => param_list(t@, start as int) == Err::<
                (Seq<((Seq<char>, int), i64)>, int),
                ArgsError,
            >(e),
        },
{
    proof {
        lemma_param_list_bounds(t@, start as int);
    }
    let mut acc: Vec<(Located, i64)> = Vec::new();
    let n = t.len();
    let mut i = start;
    while !ends_group_at(t, i)
        invariant
            start <= i <= t@.len(),
            n == t@.len(),
            param_list(t@, start as int) == prepend_params(
                param_models(acc@),
                param_list(t@, i as int),
            ),
        decreases t@.len() - i,
    {
        let ghost before = param_models(acc@);
        proof {
            lemma_integer_literal_bounds(t@, i + 2);
        }
        match parse_key_value(t, i) {
            Err(e) => {
                return Err(e);
            },
            Ok((p, j)) => {
                let ghost pm = (p.0.model(), p.1);
                acc.push(p);
                assert(param_models(acc@) =~= before + seq![pm]);
                if ends_group_at(t, j) {
                    return Ok((acc, j));
                }
                if !punct_at(t, j, ',') {
                    return Err(expect(Expectation::Comma, j));
                }
                assert(j < n);
                proof {
                    let rest = param_list(t@, j + 1);
                    assert(prepend_params(before, prepend_params(seq![pm], rest)) == prepend_params(
                        param_models(acc@),
                        rest,
                    )) by {
                        if let Ok((r, k)) = rest {
                            assert(before + (seq![pm] + r) =~= param_models(acc@) + r);
                        }
                    }
                }
                i = j + 1;
            },
        }
    }
    assert(param_models(acc@) + Seq::<((Seq<char>, int), i64)>::empty() =~= param_models(acc@));
    Ok((acc, i))
}

impl MacroArgs {
    /// Reads the macro's arguments from the start of `t`. On success, returns
    /// them with the index of the first token not read: reading stops where no
    /// further `,` follows, and the caller decides what the rest means.
    pub fn parse(t: &Vec<Token>) -> (r: Result<(MacroArgs, usize), ArgsError>)
        ensures
            match r {
                Ok((a, k)) => macro_args(t@) == Ok::<(ArgsModel, int), ArgsError>((a.model(), k as int))
                    && k <= t@.len(),
                Err(e) => macro_args(t@) == Err::<(ArgsModel, int), ArgsError>(e),
            },
    {
        let n = t.len();
        if !word_at(t, 0, "src") {
            return Err(expect(Expectation::Src, 0));
        }
        if !punct_at(t, 1, '=') {
            return Err(expect(Expectation::Equals, 1));
        }
        let (source_path, _) = match parse_string_literal(t, 2) {
            Ok(p) => p,
            Err(e) => {
                return Err(e);
            },
        };
        if !punct_at(t, 3, ',') {
            return Err(expect(Expectation::Comma, 3));
        }
        if !word_at(t, 4, "name") {
            return Err(expect(Expectation::Name, 4));
        }
        if !punct_at(t, 5, '=') {
            return Err(expect(Expectation::Equals, 5));
        }
        let (name, _) = match parse_string_literal(t, 6) {
            Ok(p) => p,
            Err(e) => {
                return Err(e);
            },
        };
        let mut args = MacroArgs {
            source_path,
            name,
            include_paths: None,
            module_params: None,
            clock_port: None,
            reset_port: None,
        };
        let ghost first = args.model();
        let mut i: usize = 7;
        while punct_at(t, i, ',')
            invariant
                n == t@.len(),
                7 <= i <= n,
                macro_args(t@) == options(t@, 7, first),
                options(t@, 7, first) == options(t@, i as int, args.model()),
            decreases n - i,
        {
            let ghost before = args.model();
            let j = i + 1;
            if word_at(t, j, "includes") {
                if !punct_at(t, j + 1, '=') {
                    return Err(expect(Expectation::Equals, j + 1));
                }
                if !open_at(t, j + 2, Delimiter::Bracket) {
                    return Err(expect(Expectation::SquareBrackets, j + 2));
                }
                let (paths, k) = match parse_string_list(t, j + 3) {
                    Ok(p) => p,
                    Err(e) => {
                        return Err(e);
                    },
                };
                if k >= n {
                    return Err(expect(Expectation::SquareBrackets, j + 2));
                }
                args.include_paths = Some(paths);
                assert(args.model() == with_includes(before, located_models(paths@)));
                i = k + 1;
            } else if word_at(t, j, "clock") || word_at(t, j, "reset") {
                if !punct_at(t, j + 1, '=') {
                    return Err(expect(Expectation::Equals, j + 1));
                }
                let (port, k) = match parse_string_literal(t, j + 2) {
                    Ok(p) => p,
                    Err(e) => {
                        return Err(e);
                    },
                };
                if word_at(t, j, "clock") {
                    args.clock_port = Some(port);
                    assert(args.model() == with_clock(before, port.model()));
                } else {
                    args.reset_port = Some(port);
                    assert(args.model() == with_reset(before, port.model()));
                }
                i = k;
            } else if word_at(t, j, "params") {
                if !punct_at(t, j + 1, '=') {
                    return Err(expect(Expectation::Equals, j + 1));
                }
                if !open_at(t, j + 2, Delimiter::Brace) {
                    return Err(expect(Expectation::CurlyBraces, j + 2));
                }
                let (params, k) = match parse_param_list(t, j + 3) {
                    Ok(p) => p,
                    Err(e) => {
                        return Err(e);
                    },
                };
                if k >= n {
                    return Err(expect(Expectation::CurlyBraces, j + 2));
                }
                args.module_params = Some(params);
                assert(args.model() == with_params(before, param_models(params@)));
                i = k + 1;
            } else {
                return Err(expect(Expectation::OptionName, j));
            }
        }
        Ok((args, i))
    }
}

/// An integer literal written as the decimal text of a value that fits in an
/// `i64` reads as that value.
pub proof fn law_integer_literal_value(t: Seq<Token>, i: int, v: nat)
    requires
        0 <= i < t.len(),
        v <= i64::MAX,
        t[i] is IntLit,
        int_digits(t, i) == decimal_text(v),
    ensures
        integer_literal(t, i) == Ok::<(i64, int), ArgsError>((v as i64, i + 1)),
{
    law_decimal_round_trip(v);
}

/// A minus sign followed by an integer literal written as the decimal text of
/// `n` reads as `-n`, down to the smallest `i64`.
pub proof fn law_negative_integer_literal_value(t: Seq<Token>, i: int, n: nat)
    requires
        0 <= i,
        i + 1 < t.len(),
        1 <= n <= 9223372036854775808,
        t[i] == Token::Punct('-'),
        t[i + 1] is IntLit,
        int_digits(t, i + 1) == decimal_text(n),
    ensures
        integer_literal(t, i) == Ok::<(i64, int), ArgsError>(((-n) as i64, i + 2)),
{
    law_negative_decimal_round_trip(n);
    lemma_first_digit(n);
}

proof fn lemma_first_digit(n: nat)
    ensures
        decimal_text(n).len() > 0,
        '0' <= decimal_text(n)[0] <= '9',
    decreases n,
{
    if n >= 10 {
        lemma_first_digit(n / 10);
        assert(decimal_text(n)[0] == decimal_text(n / 10)[0]);
    }
}

proof fn lemma_options_stop(t: Seq<Token>, i: int, acc: ArgsModel)
    requires
        0 <= i <= t.len(),
    ensures
        options(t, i, acc) matches Ok((_, k)) ==> i <= k <= t.len() && !is_punct(t, k, ','),
    decreases t.len() - i,
{
    if is_punct(t, i, ',') {
        let j = i + 1;
        if is_word(t, j, "includes"@) {
            if is_punct(t, j + 1, '=') && is_open(t, j + 2, Delimiter::Bracket) {
                lemma_string_list_bounds(t, j + 3);
                if let Ok((paths, k)) = string_list(t, j + 3) {
                    if !(k < j + 3 || k >= t.len()) {
                        lemma_options_stop(t, k + 1, with_includes(acc, paths));
                    }
                }
            }
        } else if is_word(t, j, "clock"@) || is_word(t, j, "reset"@) {
            if let Ok((port, k)) = string_literal(t, j + 2) {
                lemma_options_stop(t, k, with_clock(acc, (port, j + 2)));
                lemma_options_stop(t, k, with_reset(acc, (port, j + 2)));
            }
        } else if is_word(t, j, "params"@) {
            if is_punct(t, j + 1, '=') && is_open(t, j + 2, Delimiter::Brace) {
                lemma_param_list_bounds(t, j + 3);
                if let Ok((params, k)) = param_list(t, j + 3) {
                    if !(k < j + 3 || k >= t.len()) {
                        lemma_options_stop(t, k + 1, with_params(acc, params));
                    }
                }
            }
        }
    }
}

/// Reading stops only where no `,` follows: every option introduced by a
/// comma is read, and the arguments take at least the seven tokens of
/// `src = "..", name = ".."`.
pub proof fn law_parse_stops_where_no_comma_follows(t: Seq<Token>)
    ensures
        macro_args(t) matches Ok((_, k)) ==> 7 <= k <= t.len() && !is_punct(t, k, ','),
{
    if let Ok((_, k)) = macro_args(t) {
        let path = string_literal(t, 2)->Ok_0.0;
        let name = string_literal(t, 6)->Ok_0.0;
        lemma_options_stop(
            t,
            7,
            ArgsModel {
                source_path: (path, 2),
                name: (name, 6),
                include_paths: None,
                module_params: None,
                clock_port: None,
                reset_port: None,
            },
        );
    }
}

/// The `n` tokens of `t1` from `i1` are the `n` tokens of `t2` from `i2`.
pub open spec fn same_tokens(t1: Seq<Token>, i1: int, t2: Seq<Token>, i2: int, n: int) -> bool {
    &&& 0 <= i1
    &&& 0 <= i2
    &&& 0 <= n
    &&& i1 + n <= t1.len()
    &&& i2 + n <= t2.len()
    &&& forall|p: int| #![trigger t1[p]] i1 <= p < i1 + n ==> t1[p] == t2[p - i1 + i2]
}

pub open spec fn shift_text(p: (Seq<char>, int), d: int) -> (Seq<char>, int) {
    (p.0, p.1 + d)
}

pub open spec fn shift_entry(p: ((Seq<char>, int), i64), d: int) -> ((Seq<char>, int), i64) {
    (shift_text(p.0, d), p.1)
}

pub open spec fn shift_texts(v: Seq<(Seq<char>, int)>, d: int) -> Seq<(Seq<char>, int)> {
    v.map_values(|p: (Seq<char>, int)| shift_text(p, d))
}

pub open spec fn shift_entries(v: Seq<((Seq<char>, int), i64)>, d: int) -> Seq<((Seq<char>, int), i64)> {
    v.map_values(|p: ((Seq<char>, int), i64)| shift_entry(p, d))
}

/// An optional part with the indices of its texts moved by `d`.
pub open spec fn shift_option(o: ParsedOption, d: int) -> ParsedOption {
    match o {
        ParsedOption::Includes(v) => ParsedOption::Includes(shift_texts(v, d)),
        ParsedOption::Params(v) => ParsedOption::Params(shift_entries(v, d)),
        ParsedOption::Clock(v) => ParsedOption::Clock(shift_text(v, d)),
        ParsedOption::Reset(v) => ParsedOption::Reset(shift_text(v, d)),
    }
}

proof fn lemma_frame_string_literal(t1: Seq<Token>, i1: int, t2: Seq<Token>, i2: int)
    requires
        string_literal(t1, i1) is Ok,
        same_tokens(t1, i1, t2, i2, 1),
    ensures
        string_literal(t2, i2) == Ok::<(Seq<char>, int), ArgsError>(
            (string_literal(t1, i1)->Ok_0.0, i2 + 1),
        ),
{
    assert(t1[i1] == t2[i2]);
}

proof fn lemma_frame_integer_literal(t1: Seq<Token>, i1: int, t2: Seq<Token>, i2: int)
    requires
        integer_literal(t1, i1) is Ok,
        same_tokens(t1, i1, t2, i2, integer_literal(t1, i1)->Ok_0.1 - i1),
    ensures
        integer_literal(t2, i2) == Ok::<(i64, int), ArgsError>(
            (integer_literal(t1, i1)->Ok_0.0, integer_literal(t1, i1)->Ok_0.1 - i1 + i2),
        ),
{
    assert(t1[i1] == t2[i2]);
    if !(t1[i1] is IntLit) {
        assert(t1[i1 + 1] == t2[i2 + 1]);
        assert(int_digits(t1, i1 + 1) == int_digits(t2, i2 + 1));
    } else {
        assert(int_digits(t1, i1) == int_digits(t2, i2));
    }
}

proof fn lemma_frame_key_value(t1: Seq<Token>, i1: int, t2: Seq<Token>, i2: int)
    requires
        key_value(t1, i1) is Ok,
        same_tokens(t1, i1, t2, i2, key_value(t1, i1)->Ok_0.1 - i1),
    ensures
        key_value(t2, i2) == Ok::<(((Seq<char>, int), i64), int), ArgsError>(
            (
                shift_entry(key_value(t1, i1)->Ok_0.0, i2 - i1),
                key_value(t1, i1)->Ok_0.1 - i1 + i2,
            ),
        ),
{
    lemma_integer_literal_bounds(t1, i1 + 2);
    assert(t1[i1] == t2[i2]);
    assert(t1[i1 + 1] == t2[i2 + 1]);
    lemma_frame_integer_literal(t1, i1 + 2, t2, i2 + 2);
}

proof fn lemma_frame_string_list(t1: Seq<Token>, i1: int, t2: Seq<Token>, i2: int)
    requires
        string_list(t1, i1) is Ok,
        same_tokens(t1, i1, t2, i2, string_list(t1, i1)->Ok_0.1 - i1 + 1),
    ensures
        string_list(t2, i2) == Ok::<(Seq<(Seq<char>, int)>, int), ArgsError>(
            (
                shift_texts(string_list(t1, i1)->Ok_0.0, i2 - i1),
                string_list(t1, i1)->Ok_0.1 - i1 + i2,
            ),
        ),
    decreases t1.len() - i1,
{
    lemma_string_list_bounds(t1, i1);
    assert(t1[i1] == t2[i2]);
    if !ends_group(t1, i1) {
        let (v, j) = string_literal(t1, i1)->Ok_0;
        if !ends_group(t1, j) {
            lemma_string_list_bounds(t1, j + 1);
        }
        assert(t1[j] == t2[j - i1 + i2]);
        if !ends_group(t1, j) {
            lemma_frame_string_list(t1, j + 1, t2, j + 1 - i1 + i2);
            let rest = string_list(t1, j + 1)->Ok_0.0;
            assert(shift_texts(seq![(v, i1)] + rest, i2 - i1) =~= seq![(v, i2)] + shift_texts(
                rest,
                i2 - i1,
            ));
        } else {
            assert(shift_texts(seq![(v, i1)], i2 - i1) =~= seq![(v, i2)]);
        }
    } else {
        assert(shift_texts(Seq::empty(), i2 - i1) =~= Seq::empty());
    }
}

proof fn lemma_frame_param_list(t1: Seq<Token>, i1: int, t2: Seq<Token>, i2: int)
    requires
        param_list(t1, i1) is Ok,
        same_tokens(t1, i1, t2, i2, param_list(t1, i1)->Ok_0.1 - i1 + 1),
    ensures
        param_list(t2, i2) == Ok::<(Seq<((Seq<char>, int), i64)>, int), ArgsError>(
            (
                shift_entries(param_list(t1, i1)->Ok_0.0, i2 - i1),
                param_list(t1, i1)->Ok_0.1 - i1 + i2,
            ),
        ),
    decreases t1.len() - i1,
{
    lemma_param_list_bounds(t1, i1);
    assert(t1[i1] == t2[i2]);
    if !ends_group(t1, i1) {
        lemma_integer_literal_bounds(t1, i1 + 2);
        let (p, j) = key_value(t1, i1)->Ok_0;
        if !(j <= i1 || ends_group(t1, j)) {
            lemma_param_list_bounds(t1, j + 1);
        }
        lemma_frame_key_value(t1, i1, t2, i2);
        assert(t1[j] == t2[j - i1 + i2]);
        if !(j <= i1 || ends_group(t1, j)) {
            lemma_frame_param_list(t1, j + 1, t2, j + 1 - i1 + i2);
            let rest = param_list(t1, j + 1)->Ok_0.0;
            assert(shift_entries(seq![p] + rest, i2 - i1) =~= seq![shift_entry(p, i2 - i1)]
                + shift_entries(rest, i2 - i1));
        } else {
            assert(shift_entries(seq![p], i2 - i1) =~= seq![shift_entry(p, i2 - i1)]);
        }
    } else {
        assert(shift_entries(Seq::empty(), i2 - i1) =~= Seq::empty());
    }
}

/// An optional part reads the same wherever its tokens stand: only the
/// indices of its texts move.
proof fn lemma_frame_option(t1: Seq<Token>, i1: int, t2: Seq<Token>, i2: int)
    requires
        parse_option(t1, i1) is Ok,
        same_tokens(t1, i1, t2, i2, parse_option(t1, i1)->Ok_0.1 - i1),
    ensures
        parse_option(t2, i2) == Ok::<(ParsedOption, int), ArgsError>(
            (
                shift_option(parse_option(t1, i1)->Ok_0.0, i2 - i1),
                parse_option(t1, i1)->Ok_0.1 - i1 + i2,
            ),
        ),
{
    let j = i1 + 1;
    let d = i2 - i1;
    lemma_parse_option_advances(t1, i1);
    assert(t1[i1] == t2[i2]);
    if is_word(t1, j, "includes"@) {
        lemma_string_list_bounds(t1, j + 3);
        assert(t1[j] == t2[j + d]);
        assert(t1[j + 1] == t2[j + 1 + d]);
        assert(t1[j + 2] == t2[j + 2 + d]);
        lemma_frame_string_list(t1, j + 3, t2, j + 3 + d);
    } else if is_word(t1, j, "clock"@) || is_word(t1, j, "reset"@) {
        assert(t1[j] == t2[j + d]);
        assert(t1[j + 1] == t2[j + 1 + d]);
        lemma_frame_string_literal(t1, j + 2, t2, j + 2 + d);
    } else {
        lemma_param_list_bounds(t1, j + 3);
        assert(t1[j] == t2[j + d]);
        assert(t1[j + 1] == t2[j + 1 + d]);
        assert(t1[j + 2] == t2[j + 2 + d]);
        lemma_frame_param_list(t1, j + 3, t2, j + 3 + d);
    }
}

proof fn lemma_shift_option_zero(o: ParsedOption)
    ensures
        shift_option(o, 0) == o,
{
    match o {
        ParsedOption::Includes(v) => {
            assert(shift_texts(v, 0) =~= v);
        },
        ParsedOption::Params(v) => {
            assert(shift_entries(v, 0) =~= v);
        },
        _ => {},
    }
}

proof fn lemma_same_prefix(t: Seq<Token>, u: Seq<Token>, i: int, n: int)
    requires
        0 <= i,
        0 <= n,
        i + n <= t.len(),
    ensures
        same_tokens(t, i, t + u, i, n),
{
    assert forall|p: int| #![trigger t[p]] i <= p < i + n implies t[p] == (t + u)[p - i + i] by {}
}

/// Tokens appended after a run of options that reads to the end do not
/// change how that run reads.
proof fn lemma_options_extend(t: Seq<Token>, u: Seq<Token>, i: int, acc: ArgsModel)
    requires
        0 <= i,
        options(t, i, acc) is Ok,
        options(t, i, acc)->Ok_0.1 == t.len(),
    ensures
        options(t + u, i, acc) == options(t + u, t.len() as int, options(t, i, acc)->Ok_0.0),
    decreases t.len() - i,
{
    if is_punct(t, i, ',') {
        let (o, k) = parse_option(t, i)->Ok_0;
        lemma_parse_option_advances(t, i);
        lemma_same_prefix(t, u, i, k - i);
        lemma_frame_option(t, i, t + u, i);
        lemma_shift_option_zero(o);
        assert((t + u)[i] == t[i]);
        lemma_options_extend(t, u, k, apply_option(acc, o));
    } else {
        lemma_options_bounds_stop(t, i, acc);
    }
}

proof fn lemma_options_bounds_stop(t: Seq<Token>, i: int, acc: ArgsModel)
    requires
        !is_punct(t, i, ','),
    ensures
        options(t, i, acc) == Ok::<(ArgsModel, int), ArgsError>((acc, i)),
{
}

/// Tokens appended after arguments that read to the end are read as the
/// continuation of those arguments.
proof fn lemma_macro_args_extend(t: Seq<Token>, u: Seq<Token>)
    requires
        macro_args(t) is Ok,
        macro_args(t)->Ok_0.1 == t.len(),
    ensures
        macro_args(t + u) == options(t + u, t.len() as int, macro_args(t)->Ok_0.0),
{
    let t2 = t + u;
    lemma_options_stop(
        t,
        7,
        ArgsModel {
            source_path: (string_literal(t, 2)->Ok_0.0, 2),
            name: (string_literal(t, 6)->Ok_0.0, 6),
            include_paths: None,
            module_params: None,
            clock_port: None,
            reset_port: None,
        },
    );
    assert(t.len() >= 7);
    assert(t2[0] == t[0] && t2[1] == t[1] && t2[2] == t[2] && t2[3] == t[3]);
    assert(t2[4] == t[4] && t2[5] == t[5] && t2[6] == t[6]);
    let init = ArgsModel {
        source_path: (string_literal(t, 2)->Ok_0.0, 2),
        name: (string_literal(t, 6)->Ok_0.0, 6),
        include_paths: None,
        module_params: None,
        clock_port: None,
        reset_port: None,
    };
    lemma_options_extend(t, u, 7, init);
}

/// The four option names are different words.
proof fn lemma_option_words_differ()
    ensures
        "includes"@ != "clock"@,
        "includes"@ != "reset"@,
        "includes"@ != "params"@,
        "clock"@ != "reset"@,
        "clock"@ != "params"@,
        "reset"@ != "params"@,
{
    reveal_strlit("includes");
    reveal_strlit("clock");
    reveal_strlit("reset");
    reveal_strlit("params");
    assert("clock"@[0] != "reset"@[0]);
    assert("includes"@[0] != "params"@[0]);
    assert("includes"@[0] != "clock"@[0]);
    assert("includes"@[0] != "reset"@[0]);
    assert("clock"@[0] != "params"@[0]);
    assert("reset"@[0] != "params"@[0]);
}

proof fn lemma_same_suffix(t: Seq<Token>, u: Seq<Token>, i: int, n: int)
    requires
        0 <= i,
        0 <= n,
        i + n <= u.len(),
    ensures
        same_tokens(u, i, t + u, t.len() + i, n),
{
    assert forall|p: int| #![trigger u[p]] i <= p < i + n implies u[p] == (t + u)[p - i + (
    t.len() + i)] by {}
}

/// The deprecated `clock` and `reset` arguments change nothing else: appending
/// `, clock = "<c>", reset = "<r>"` to arguments that read to the end sets
/// those two ports and keeps every other field as it was.
pub proof fn law_clock_and_reset_change_nothing_else(
    t: Seq<Token>,
    tail: Seq<Token>,
    clk: Seq<char>,
    rst: Seq<char>,
)
    requires
        macro_args(t) is Ok,
        macro_args(t)->Ok_0.1 == t.len(),
        tail.len() == 8,
        tail[0] == Token::Punct(','),
        is_word(tail, 1, "clock"@),
        tail[2] == Token::Punct('='),
        string_literal(tail, 3) == Ok::<(Seq<char>, int), ArgsError>((clk, 4)),
        tail[4] == Token::Punct(','),
        is_word(tail, 5, "reset"@),
        tail[6] == Token::Punct('='),
        string_literal(tail, 7) == Ok::<(Seq<char>, int), ArgsError>((rst, 8)),
    ensures
        ({
            let a = macro_args(t)->Ok_0.0;
            let n = t.len() as int;
            &&& macro_args(t + tail) is Ok
            &&& macro_args(t + tail)->Ok_0.1 == n + 8
            &&& macro_args(t + tail)->Ok_0.0 == with_reset(with_clock(a, (clk, n + 3)), (rst, n + 7))
            &&& macro_args(t + tail)->Ok_0.0.clock_port == Some((clk, n + 3))
            &&& macro_args(t + tail)->Ok_0.0.reset_port == Some((rst, n + 7))
            &&& macro_args(t + tail)->Ok_0.0.source_path == a.source_path
            &&& macro_args(t + tail)->Ok_0.0.name == a.name
            &&& macro_args(t + tail)->Ok_0.0.include_paths == a.include_paths
            &&& macro_args(t + tail)->Ok_0.0.module_params == a.module_params
        }),
{
    let a = macro_args(t)->Ok_0.0;
    let n = t.len() as int;
    let t2 = t + tail;
    lemma_macro_args_extend(t, tail);
    lemma_option_words_differ();
    assert(parse_option(tail, 0) == Ok::<(ParsedOption, int), ArgsError>(
        (ParsedOption::Clock((clk, 3)), 4),
    ));
    assert(parse_option(tail, 4) == Ok::<(ParsedOption, int), ArgsError>(
        (ParsedOption::Reset((rst, 7)), 8),
    ));
    lemma_same_suffix(t, tail, 0, 4);
    lemma_same_suffix(t, tail, 4, 4);
    lemma_frame_option(tail, 0, t2, n);
    lemma_frame_option(tail, 4, t2, n + 4);
    assert(t2[n] == tail[0]);
    assert(t2[n + 4] == tail[4]);
    let a1 = with_clock(a, (clk, n + 3));
    let a2 = with_reset(a1, (rst, n + 7));
    assert(options(t2, n + 8, a2) == Ok::<(ArgsModel, int), ArgsError>((a2, n + 8)));
    assert(options(t2, n + 4, a1) == options(t2, n + 8, a2));
    assert(options(t2, n, a) == options(t2, n + 4, a1));
}

/// The arguments without the token indices: what they say, not where.
pub struct ArgsText {
    pub source_path: Seq<char>,
    pub name: Seq<char>,
    pub include_paths: Option<Seq<Seq<char>>>,
    pub module_params: Option<Seq<(Seq<char>, i64)>>,
    pub clock_port: Option<Seq<char>>,
    pub reset_port: Option<Seq<char>>,
}

pub open spec fn texts_of(v: Seq<(Seq<char>, int)>) -> Seq<Seq<char>> {
    v.map_values(|p: (Seq<char>, int)| p.0)
}

pub open spec fn entries_of(v: Seq<((Seq<char>, int), i64)>) -> Seq<(Seq<char>, i64)> {
    v.map_values(|p: ((Seq<char>, int), i64)| (p.0.0, p.1))
}

pub open spec fn args_text(m: ArgsModel) -> ArgsText {
    ArgsText {
        source_path: m.source_path.0,
        name: m.name.0,
        include_paths: match m.include_paths {
            Some(v) => Some(texts_of(v)),
            None => None,
        },
        module_params: match m.module_params {
            Some(v) => Some(entries_of(v)),
            None => None,
        },
        clock_port: match m.clock_port {
            Some(v) => Some(v.0),
            None => None,
        },
        reset_port: match m.reset_port {
            Some(v) => Some(v.0),
            None => None,
        },
    }
}

/// A reading of the arguments with the token indices left out.
pub open spec fn text_result(r: Result<(ArgsModel, int), ArgsError>) -> Result<(ArgsText, int), ArgsError> {
    match r {
        Ok((m, k)) => Ok((args_text(m), k)),
        Err(e) => Err(e),
    }
}

/// Two optional parts of the same kind.
pub open spec fn same_kind(o1: ParsedOption, o2: ParsedOption) -> bool {
    ||| (o1 is Includes && o2 is Includes)
    ||| (o1 is Params && o2 is Params)
    ||| (o1 is Clock && o2 is Clock)
    ||| (o1 is Reset && o2 is Reset)
}

proof fn lemma_apply_commutes(a: ArgsModel, o1: ParsedOption, o2: ParsedOption)
    requires
        !same_kind(o1, o2),
    ensures
        apply_option(apply_option(a, o1), o2) == apply_option(apply_option(a, o2), o1),
{
}

proof fn lemma_apply_text_shift(a: ArgsModel, o: ParsedOption, d: int)
    ensures
        args_text(apply_option(a, shift_option(o, d))) == args_text(apply_option(a, o)),
{
    match o {
        ParsedOption::Includes(v) => {
            assert(texts_of(shift_texts(v, d)) =~= texts_of(v));
        },
        ParsedOption::Params(v) => {
            assert(entries_of(shift_entries(v, d)) =~= entries_of(v));
        },
        _ => {},
    }
}

proof fn lemma_apply_text_congruent(a1: ArgsModel, a2: ArgsModel, o: ParsedOption)
    requires
        args_text(a1) == args_text(a2),
    ensures
        args_text(apply_option(a1, o)) == args_text(apply_option(a2, o)),
{
}

/// `t1` and `t2` have the same length and the same tokens from `m` on.
pub open spec fn agree_from(t1: Seq<Token>, t2: Seq<Token>, m: int) -> bool {
    &&& t1.len() == t2.len()
    &&& 0 <= m
    &&& forall|p: int| #![trigger t1[p]] m <= p < t1.len() ==> t1[p] == t2[p]
}

proof fn lemma_agree_string_list(t1: Seq<Token>, t2: Seq<Token>, m: int, i: int)
    requires
        agree_from(t1, t2, m),
        m <= i,
    ensures
        string_list(t1, i) == string_list(t2, i),
    decreases t1.len() - i,
{
    if i < t1.len() {
        assert(t1[i] == t2[i]);
    }
    if i + 1 < t1.len() {
        assert(t1[i + 1] == t2[i + 1]);
    }
    if i + 2 <= t1.len() {
        lemma_agree_string_list(t1, t2, m, i + 2);
    }
}

proof fn lemma_agree_param_list(t1: Seq<Token>, t2: Seq<Token>, m: int, i: int)
    requires
        agree_from(t1, t2, m),
        m <= i,
    ensures
        param_list(t1, i) == param_list(t2, i),
    decreases t1.len() - i,
{
    if i < t1.len() {
        assert(t1[i] == t2[i]);
        if i + 1 < t1.len() {
            assert(t1[i + 1] == t2[i + 1]);
        }
        if i + 2 < t1.len() {
            assert(t1[i + 2] == t2[i + 2]);
        }
        if i + 3 < t1.len() {
            assert(t1[i + 3] == t2[i + 3]);
        }
        assert(int_digits(t1, i + 2) == int_digits(t2, i + 2));
        assert(int_digits(t1, i + 3) == int_digits(t2, i + 3));
        assert(integer_literal(t1, i + 2) == integer_literal(t2, i + 2));
        assert(key_value(t1, i) == key_value(t2, i));
        lemma_integer_literal_bounds(t1, i + 2);
        if let Ok((p, j)) = key_value(t1, i) {
            if j < t1.len() {
                assert(t1[j] == t2[j]);
                lemma_agree_param_list(t1, t2, m, j + 1);
            }
        }
    }
}

proof fn lemma_agree_option(t1: Seq<Token>, t2: Seq<Token>, m: int, i: int)
    requires
        agree_from(t1, t2, m),
        m <= i,
    ensures
        parse_option(t1, i) == parse_option(t2, i),
{
    let j = i + 1;
    if i < t1.len() {
        assert(t1[i] == t2[i]);
    }
    if j < t1.len() {
        assert(t1[j] == t2[j]);
    }
    if j + 1 < t1.len() {
        assert(t1[j + 1] == t2[j + 1]);
    }
    if j + 2 < t1.len() {
        assert(t1[j + 2] == t2[j + 2]);
    }
    assert(string_literal(t1, j + 2) == string_literal(t2, j + 2));
    lemma_agree_string_list(t1, t2, m, j + 3);
    lemma_agree_param_list(t1, t2, m, j + 3);
}

proof fn lemma_agree_options(t1: Seq<Token>, t2: Seq<Token>, m: int, i: int, a1: ArgsModel, a2: ArgsModel)
    requires
        agree_from(t1, t2, m),
        m <= i,
        args_text(a1) == args_text(a2),
    ensures
        text_result(options(t1, i, a1)) == text_result(options(t2, i, a2)),
    decreases t1.len() - i,
{
    if i < t1.len() {
        assert(t1[i] == t2[i]);
    }
    if is_punct(t1, i, ',') {
        lemma_agree_option(t1, t2, m, i);
        lemma_parse_option_advances(t1, i);
        if let Ok((o, k)) = parse_option(t1, i) {
            lemma_apply_text_congruent(a1, a2, o);
            lemma_agree_options(t1, t2, m, k, apply_option(a1, o), apply_option(a2, o));
        }
    }
}

proof fn lemma_two_options(t: Seq<Token>, i: int, x: Seq<Token>, y: Seq<Token>, a: ArgsModel)
    requires
        0 <= i,
        i + x.len() + y.len() <= t.len(),
        parse_option(x, 0) is Ok,
        parse_option(x, 0)->Ok_0.1 == x.len(),
        parse_option(y, 0) is Ok,
        parse_option(y, 0)->Ok_0.1 == y.len(),
        same_tokens(x, 0, t, i, x.len() as int),
        same_tokens(y, 0, t, i + x.len(), y.len() as int),
    ensures
        options(t, i, a) == options(
            t,
            i + x.len() + y.len(),
            apply_option(
                apply_option(a, shift_option(parse_option(x, 0)->Ok_0.0, i)),
                shift_option(parse_option(y, 0)->Ok_0.0, i + x.len()),
            ),
        ),
{
    lemma_frame_option(x, 0, t, i);
    lemma_frame_option(y, 0, t, i + x.len());
    assert(t[i] == x[0]);
    assert(t[i + x.len()] == y[0]);
    let ox = shift_option(parse_option(x, 0)->Ok_0.0, i);
    let oy = shift_option(parse_option(y, 0)->Ok_0.0, i + x.len());
    assert(is_punct(x, 0, ','));
    assert(is_punct(y, 0, ','));
    assert(is_punct(t, i, ','));
    assert(is_punct(t, i + x.len(), ','));
    assert(options(t, i + x.len(), apply_option(a, ox)) == options(
        t,
        i + x.len() + y.len(),
        apply_option(apply_option(a, ox), oy),
    ));
}

/// The order of optional parts of different kinds does not matter: after
/// arguments that read to the end, two such parts read the same, apart from
/// where their tokens stand, in either order, whatever follows them.
pub proof fn law_option_order_does_not_matter(
    pre: Seq<Token>,
    x: Seq<Token>,
    y: Seq<Token>,
    rest: Seq<Token>,
)
    requires
        macro_args(pre) is Ok,
        macro_args(pre)->Ok_0.1 == pre.len(),
        parse_option(x, 0) is Ok,
        parse_option(x, 0)->Ok_0.1 == x.len(),
        parse_option(y, 0) is Ok,
        parse_option(y, 0)->Ok_0.1 == y.len(),
        !same_kind(parse_option(x, 0)->Ok_0.0, parse_option(y, 0)->Ok_0.0),
    ensures
        text_result(macro_args(pre + x + y + rest)) == text_result(macro_args(pre + y + x + rest)),
{
    let a = macro_args(pre)->Ok_0.0;
    let n = pre.len() as int;
    let ox = parse_option(x, 0)->Ok_0.0;
    let oy = parse_option(y, 0)->Ok_0.0;
    let m = n + x.len() + y.len();
    let t1 = pre + x + y + rest;
    let t2 = pre + y + x + rest;
    assert(t1 =~= pre + (x + y + rest));
    assert(t2 =~= pre + (y + x + rest));
    lemma_macro_args_extend(pre, x + y + rest);
    lemma_macro_args_extend(pre, y + x + rest);
    assert(same_tokens(x, 0, t1, n, x.len() as int)) by {
        assert forall|p: int| #![trigger x[p]] 0 <= p < x.len() implies x[p] == t1[p - 0 + n] by {}
    }
    assert(same_tokens(y, 0, t1, n + x.len(), y.len() as int)) by {
        assert forall|p: int| #![trigger y[p]] 0 <= p < y.len() implies y[p] == t1[p - 0 + (n
            + x.len())] by {}
    }
    assert(same_tokens(y, 0, t2, n, y.len() as int)) by {
        assert forall|p: int| #![trigger y[p]] 0 <= p < y.len() implies y[p] == t2[p - 0 + n] by {}
    }
    assert(same_tokens(x, 0, t2, n + y.len(), x.len() as int)) by {
        assert forall|p: int| #![trigger x[p]] 0 <= p < x.len() implies x[p] == t2[p - 0 + (n
            + y.len())] by {}
    }
    lemma_two_options(t1, n, x, y, a);
    lemma_two_options(t2, n, y, x, a);
    let a1 = apply_option(apply_option(a, shift_option(ox, n)), shift_option(oy, n + x.len()));
    let a2 = apply_option(apply_option(a, shift_option(oy, n)), shift_option(ox, n + y.len()));
    // Both orders say the same as applying the two parts where they first stood.
    lemma_apply_text_shift(apply_option(a, shift_option(ox, n)), oy, n + x.len());
    lemma_apply_text_shift(a, ox, n);
    lemma_apply_text_congruent(apply_option(a, shift_option(ox, n)), apply_option(a, ox), oy);
    lemma_apply_text_shift(apply_option(a, shift_option(oy, n)), ox, n + y.len());
    lemma_apply_text_shift(a, oy, n);
    lemma_apply_text_congruent(apply_option(a, shift_option(oy, n)), apply_option(a, oy), ox);
    lemma_apply_commutes(a, ox, oy);
    assert(args_text(a1) == args_text(a2));
    assert(agree_from(t1, t2, m)) by {
        assert forall|p: int| #![trigger t1[p]] m <= p < t1.len() implies t1[p] == t2[p] by {
            assert(t1[p] == rest[p - m]);
            assert(t2[p] == rest[p - m]);
        }
    }
    lemma_agree_options(t1, t2, m, m, a1, a2);
}

/// The tokens of several runs, one after another.
pub open spec fn concat_all(segs: Seq<Seq<Token>>) -> Seq<Token>
    decreases segs.len(),
{
    if segs.len() == 0 {
        Seq::empty()
    } else {
        segs[0] + concat_all(segs.drop_first())
    }
}

/// `seg` holds exactly one optional part, introduced by its `,`.
pub open spec fn is_option_run(seg: Seq<Token>) -> bool {
    parse_option(seg, 0) is Ok && parse_option(seg, 0)->Ok_0.1 == seg.len()
}

/// The optional part that a run holds.
pub open spec fn run_option(seg: Seq<Token>) -> ParsedOption {
    parse_option(seg, 0)->Ok_0.0
}

pub open spec fn run_options(segs: Seq<Seq<Token>>) -> Seq<ParsedOption> {
    segs.map_values(|seg: Seq<Token>| run_option(seg))
}

/// The kind of an optional part, as a number.
pub open spec fn option_kind(o: ParsedOption) -> int {
    match o {
        ParsedOption::Includes(_) => 0,
        ParsedOption::Params(_) => 1,
        ParsedOption::Clock(_) => 2,
        ParsedOption::Reset(_) => 3,
    }
}

/// No two of the optional parts are of the same kind.
pub open spec fn distinct_kinds(ps: Seq<ParsedOption>) -> bool {
    forall|i: int, j: int|
        0 <= i < ps.len() && 0 <= j < ps.len() && i != j ==> option_kind(#[trigger] ps[i])
            != option_kind(#[trigger] ps[j])
}

/// The optional parts applied to `a` in order.
pub open spec fn apply_all(a: ArgsModel, ps: Seq<ParsedOption>) -> ArgsModel
    decreases ps.len(),
{
    if ps.len() == 0 {
        a
    } else {
        apply_all(apply_option(a, ps[0]), ps.drop_first())
    }
}

/// `perm` is a one-to-one map of `0..n` onto itself.
pub open spec fn is_permutation(perm: Seq<int>, n: int) -> bool {
    &&& perm.len() == n
    &&& forall|j: int| 0 <= j < n ==> 0 <= #[trigger] perm[j] < n
    &&& forall|j1: int, j2: int|
        0 <= j1 < n && 0 <= j2 < n && j1 != j2 ==> #[trigger] perm[j1] != #[trigger] perm[j2]
    &&& forall|i: int| 0 <= i < n ==> #[trigger] in_image(perm, i)
}

/// Some entry of `perm` is `i`.
pub open spec fn in_image(perm: Seq<int>, i: int) -> bool {
    exists|j: int| 0 <= j < perm.len() && #[trigger] perm[j] == i
}

spec fn has_kind(ps: Seq<ParsedOption>, k: int) -> bool {
    exists|i: int| 0 <= i < ps.len() && option_kind(#[trigger] ps[i]) == k
}

spec fn pick(ps: Seq<ParsedOption>, k: int) -> Option<ParsedOption> {
    if has_kind(ps, k) {
        Some(ps[choose|i: int| 0 <= i < ps.len() && option_kind(#[trigger] ps[i]) == k])
    } else {
        None
    }
}

/// Each field set by the one part of its kind, if there is one.
spec fn canonical(a: ArgsModel, ps: Seq<ParsedOption>) -> ArgsModel {
    ArgsModel {
        source_path: a.source_path,
        name: a.name,
        include_paths: match pick(ps, 0) {
            Some(ParsedOption::Includes(v)) => Some(v),
            _ => a.include_paths,
        },
        module_params: match pick(ps, 1) {
            Some(ParsedOption::Params(v)) => Some(v),
            _ => a.module_params,
        },
        clock_port: match pick(ps, 2) {
            Some(ParsedOption::Clock(v)) => Some(v),
            _ => a.clock_port,
        },
        reset_port: match pick(ps, 3) {
            Some(ParsedOption::Reset(v)) => Some(v),
            _ => a.reset_port,
        },
    }
}

proof fn lemma_pick_is(ps: Seq<ParsedOption>, k: int, i: int)
    requires
        distinct_kinds(ps),
        0 <= i < ps.len(),
        option_kind(ps[i]) == k,
    ensures
        pick(ps, k) == Some(ps[i]),
{
    assert(has_kind(ps, k));
    let c = choose|c: int| 0 <= c < ps.len() && option_kind(#[trigger] ps[c]) == k;
    if c != i {
        assert(option_kind(ps[c]) != option_kind(ps[i]));
    }
}

proof fn lemma_pick_rest(ps: Seq<ParsedOption>, k: int)
    requires
        distinct_kinds(ps),
        ps.len() > 0,
    ensures
        option_kind(ps[0]) != k ==> pick(ps.drop_first(), k) == pick(ps, k),
        pick(ps.drop_first(), option_kind(ps[0])) is None,
        pick(ps, option_kind(ps[0])) == Some(ps[0]),
        distinct_kinds(ps.drop_first()),
{
    let rest = ps.drop_first();
    assert forall|i: int, j: int|
        0 <= i < rest.len() && 0 <= j < rest.len() && i != j implies option_kind(#[trigger] rest[i])
        != option_kind(#[trigger] rest[j]) by {
        assert(rest[i] == ps[i + 1] && rest[j] == ps[j + 1]);
    }
    lemma_pick_is(ps, option_kind(ps[0]), 0);
    if has_kind(rest, option_kind(ps[0])) {
        let i = choose|i: int| 0 <= i < rest.len() && option_kind(#[trigger] rest[i]) == option_kind(
            ps[0],
        );
        assert(rest[i] == ps[i + 1]);
        assert(option_kind(ps[i + 1]) != option_kind(ps[0]));
    }
    if option_kind(ps[0]) != k {
        if has_kind(rest, k) {
            let i = choose|i: int| 0 <= i < rest.len() && option_kind(#[trigger] rest[i]) == k;
            assert(rest[i] == ps[i + 1]);
            lemma_pick_is(rest, k, i);
            lemma_pick_is(ps, k, i + 1);
        } else if has_kind(ps, k) {
            let i = choose|i: int| 0 <= i < ps.len() && option_kind(#[trigger] ps[i]) == k;
            assert(rest[i - 1] == ps[i]);
        }
    }
}

proof fn lemma_apply_all_canonical(a: ArgsModel, ps: Seq<ParsedOption>)
    requires
        distinct_kinds(ps),
    ensures
        apply_all(a, ps) == canonical(a, ps),
    decreases ps.len(),
{
    if ps.len() == 0 {
        assert(!has_kind(ps, 0) && !has_kind(ps, 1) && !has_kind(ps, 2) && !has_kind(ps, 3));
    } else {
        lemma_pick_rest(ps, 0);
        lemma_pick_rest(ps, 1);
        lemma_pick_rest(ps, 2);
        lemma_pick_rest(ps, 3);
        lemma_apply_all_canonical(apply_option(a, ps[0]), ps.drop_first());
    }
}

proof fn lemma_pick_permuted(ps: Seq<ParsedOption>, ps2: Seq<ParsedOption>, perm: Seq<int>, k: int)
    requires
        distinct_kinds(ps),
        is_permutation(perm, ps.len() as int),
        ps2.len() == ps.len(),
        forall|j: int| 0 <= j < ps2.len() ==> #[trigger] ps2[j] == ps[perm[j]],
    ensures
        distinct_kinds(ps2),
        pick(ps2, k) == pick(ps, k),
{
    assert forall|i: int, j: int|
        0 <= i < ps2.len() && 0 <= j < ps2.len() && i != j implies option_kind(#[trigger] ps2[i])
        != option_kind(#[trigger] ps2[j]) by {
        assert(perm[i] != perm[j]);
        assert(0 <= perm[i] < ps.len() && 0 <= perm[j] < ps.len());
    }
    if has_kind(ps, k) {
        let i = choose|i: int| 0 <= i < ps.len() && option_kind(#[trigger] ps[i]) == k;
        assert(in_image(perm, i));
        let j = choose|j: int| 0 <= j < perm.len() && #[trigger] perm[j] == i;
        assert(ps2[j] == ps[i]);
        lemma_pick_is(ps, k, i);
        lemma_pick_is(ps2, k, j);
    } else if has_kind(ps2, k) {
        let j = choose|j: int| 0 <= j < ps2.len() && option_kind(#[trigger] ps2[j]) == k;
        assert(ps2[j] == ps[perm[j]]);
        assert(0 <= perm[j] < ps.len());
    }
}

proof fn lemma_concat_remove(s: Seq<Seq<Token>>, r: int)
    requires
        0 <= r < s.len(),
    ensures
        concat_all(s).len() == s[r].len() + concat_all(s.remove(r)).len(),
    decreases s.len(),
{
    if r == 0 {
        assert(s.remove(0) =~= s.drop_first());
    } else {
        lemma_concat_remove(s.drop_first(), r - 1);
        assert(s.remove(r).drop_first() =~= s.drop_first().remove(r - 1));
        assert(s.remove(r)[0] == s[0]);
    }
}

/// Runs in another order have the same number of tokens in all.
proof fn lemma_concat_len_permuted(s: Seq<Seq<Token>>, s2: Seq<Seq<Token>>, perm: Seq<int>)
    requires
        is_permutation(perm, s.len() as int),
        s2.len() == s.len(),
        forall|j: int| 0 <= j < s2.len() ==> #[trigger] s2[j] == s[perm[j]],
    ensures
        concat_all(s2).len() == concat_all(s).len(),
    decreases s.len(),
{
    let n = s.len() as int;
    if n > 0 {
        let r = perm[0];
        let s1 = s.remove(r);
        let t2 = s2.drop_first();
        let p1 = Seq::new(
            (n - 1) as nat,
            |j: int|
                if perm[j + 1] < r {
                    perm[j + 1]
                } else {
                    perm[j + 1] - 1
                },
        );
        assert forall|j: int| 0 <= j < n - 1 implies 0 <= #[trigger] p1[j] < n - 1 by {
            assert(perm[j + 1] != perm[0]);
            assert(0 <= perm[j + 1] < n);
        }
        assert forall|j1: int, j2: int|
            0 <= j1 < n - 1 && 0 <= j2 < n - 1 && j1 != j2 implies #[trigger] p1[j1]
            != #[trigger] p1[j2] by {
            assert(perm[j1 + 1] != perm[j2 + 1]);
            assert(perm[j1 + 1] != perm[0]);
            assert(perm[j2 + 1] != perm[0]);
        }
        assert forall|i: int| 0 <= i < n - 1 implies #[trigger] in_image(p1, i) by {
            let i1 = if i < r {
                i
            } else {
                i + 1
            };
            assert(in_image(perm, i1));
            let j = choose|j: int| 0 <= j < perm.len() && #[trigger] perm[j] == i1;
            if j == 0 {
                assert(perm[0] == r);
            }
            assert(p1[j - 1] == i);
        }
        assert forall|j: int| 0 <= j < t2.len() implies #[trigger] t2[j] == s1[p1[j]] by {
            assert(t2[j] == s2[j + 1]);
            assert(perm[j + 1] != perm[0]);
            assert(0 <= perm[j + 1] < n);
        }
        lemma_concat_len_permuted(s1, t2, p1);
        lemma_concat_remove(s, r);
        assert(0 <= perm[0] < n);
        assert(s2[0] == s[r]);
    }
}

/// A sequence of option runs after `pre` reads as those parts applied in
/// order; token indices aside, it does not matter to which arguments with
/// the same text they are applied.
proof fn lemma_runs(pre: Seq<Token>, segs: Seq<Seq<Token>>, rest: Seq<Token>, a: ArgsModel, a1: ArgsModel)
    requires
        forall|i: int| 0 <= i < segs.len() ==> is_option_run(#[trigger] segs[i]),
        args_text(a1) == args_text(a),
    ensures
        text_result(options(pre + concat_all(segs) + rest, pre.len() as int, a1)) == text_result(
            options(
                pre + concat_all(segs) + rest,
                (pre.len() + concat_all(segs).len()) as int,
                apply_all(a, run_options(segs)),
            ),
        ),
    decreases segs.len(),
{
    let t = pre + concat_all(segs) + rest;
    let n = pre.len() as int;
    if segs.len() == 0 {
        assert(agree_from(t, t, n));
        lemma_agree_options(t, t, n, n, a1, a);
    } else {
        let seg = segs[0];
        let o = run_option(seg);
        assert(is_option_run(seg));
        let pre1 = pre + seg;
        let segs1 = segs.drop_first();
        assert(t =~= pre1 + concat_all(segs1) + rest);
        assert(same_tokens(seg, 0, t, n, seg.len() as int)) by {
            assert forall|p: int| #![trigger seg[p]] 0 <= p < seg.len() implies seg[p] == t[p - 0
                + n] by {}
        }
        lemma_frame_option(seg, 0, t, n);
        assert(t[n] == seg[0]);
        assert(options(t, n, a1) == options(t, n + seg.len(), apply_option(a1, shift_option(o, n))));
        lemma_apply_text_shift(a1, o, n);
        lemma_apply_text_congruent(a1, a, o);
        assert forall|i: int| 0 <= i < segs1.len() implies is_option_run(#[trigger] segs1[i]) by {
            assert(segs1[i] == segs[i + 1]);
        }
        lemma_runs(pre1, segs1, rest, apply_option(a, o), apply_option(a1, shift_option(o, n)));
        assert(run_options(segs).drop_first() =~= run_options(segs1));
        assert(run_options(segs)[0] == o);
    }
}

/// The order of optional parts of different kinds does not matter: after
/// arguments that read to the end, any arrangement of such parts (each a run
/// of tokens holding one part, introduced by its `,`) reads the same, apart
/// from where the parts' tokens stand, whatever follows them.
pub proof fn law_option_permutation_does_not_matter(
    pre: Seq<Token>,
    segs: Seq<Seq<Token>>,
    segs2: Seq<Seq<Token>>,
    perm: Seq<int>,
    rest: Seq<Token>,
)
    requires
        macro_args(pre) is Ok,
        macro_args(pre)->Ok_0.1 == pre.len(),
        forall|i: int| 0 <= i < segs.len() ==> is_option_run(#[trigger] segs[i]),
        distinct_kinds(run_options(segs)),
        is_permutation(perm, segs.len() as int),
        segs2.len() == segs.len(),
        forall|j: int| 0 <= j < segs2.len() ==> #[trigger] segs2[j] == segs[perm[j]],
    ensures
        text_result(macro_args(pre + concat_all(segs) + rest)) == text_result(
            macro_args(pre + concat_all(segs2) + rest),
        ),
{
    let a = macro_args(pre)->Ok_0.0;
    let n = pre.len() as int;
    let t1 = pre + concat_all(segs) + rest;
    let t2 = pre + concat_all(segs2) + rest;
    assert(t1 =~= pre + (concat_all(segs) + rest));
    assert(t2 =~= pre + (concat_all(segs2) + rest));
    lemma_macro_args_extend(pre, concat_all(segs) + rest);
    lemma_macro_args_extend(pre, concat_all(segs2) + rest);
    assert forall|j: int| 0 <= j < segs2.len() implies is_option_run(#[trigger] segs2[j]) by {
        assert(segs2[j] == segs[perm[j]]);
        assert(0 <= perm[j] < segs.len());
    }
    lemma_runs(pre, segs, rest, a, a);
    lemma_runs(pre, segs2, rest, a, a);
    lemma_concat_len_permuted(segs, segs2, perm);
    let ps = run_options(segs);
    let ps2 = run_options(segs2);
    assert forall|j: int| 0 <= j < ps2.len() implies #[trigger] ps2[j] == ps[perm[j]] by {
        assert(segs2[j] == segs[perm[j]]);
        assert(0 <= perm[j] < segs.len());
    }
    lemma_pick_permuted(ps, ps2, perm, 0);
    lemma_pick_permuted(ps, ps2, perm, 1);
    lemma_pick_permuted(ps, ps2, perm, 2);
    lemma_pick_permuted(ps, ps2, perm, 3);
    lemma_apply_all_canonical(a, ps);
    lemma_apply_all_canonical(a, ps2);
    let m = n + concat_all(segs).len();
    let x = apply_all(a, ps);
    assert(apply_all(a, ps2) == x);
    assert(agree_from(t1, t2, m)) by {
        assert forall|p: int| #![trigger t1[p]] m <= p < t1.len() implies t1[p] == t2[p] by {
            assert(t1[p] == rest[p - m]);
            assert(t2[p] == rest[p - m]);
        }
    }
    lemma_agree_options(t1, t2, m, m, x, x);
}

/// The end of a group of `n` items of `w` tokens each, separated by `,`
/// (which is the last token of each item but the last), with a trailing `,`
/// or not.
pub open spec fn list_end(i: int, n: int, w: int, trailing: bool) -> int {
    if n == 0 {
        i
    } else if trailing {
        i + (w + 1) * n
    } else {
        i + (w + 1) * n - 1
    }
}

/// `t` holds, from `i`, the string literals `vals` separated by `,` (with a
/// trailing `,` if `trailing`), and the group closes right after.
pub open spec fn is_string_group(t: Seq<Token>, i: int, vals: Seq<Seq<char>>, trailing: bool) -> bool {
    let n = vals.len() as int;
    let e = list_end(i, n, 1, trailing);
    &&& 0 <= i
    &&& e < t.len()
    &&& t[e] is Close
    &&& forall|k: int| 0 <= k < n ==> (#[trigger] t[i + 2 * k] matches Token::StrLit(s) && s@ == vals[k])
    &&& forall|k: int| 0 <= k < n && (k < n - 1 || trailing) ==> #[trigger] t[i + 2 * k + 1] == Token::Punct(',')
}

proof fn lemma_string_group_from(t: Seq<Token>, i: int, vals: Seq<Seq<char>>, trailing: bool, k0: int)
    requires
        is_string_group(t, i, vals, trailing),
        0 <= k0 <= vals.len(),
        k0 == vals.len() ==> (trailing || vals.len() == 0),
    ensures
        string_list(t, i + 2 * k0) == Ok::<(Seq<(Seq<char>, int)>, int), ArgsError>(
            (
                Seq::new((vals.len() - k0) as nat, |m: int| (vals[k0 + m], i + 2 * (k0 + m))),
                list_end(i, vals.len() as int, 1, trailing),
            ),
        ),
    decreases vals.len() - k0,
{
    let n = vals.len() as int;
    let e = list_end(i, n, 1, trailing);
    let p = i + 2 * k0;
    if k0 == n {
        assert(p == e);
        assert(Seq::new((n - k0) as nat, |m: int| (vals[k0 + m], i + 2 * (k0 + m))) =~= Seq::<
            (Seq<char>, int),
        >::empty());
    } else {
        assert(t[i + 2 * k0] matches Token::StrLit(s) && s@ == vals[k0]);
        assert(!ends_group(t, p));
        let j = p + 1;
        let expected = Seq::new((n - k0) as nat, |m: int| (vals[k0 + m], i + 2 * (k0 + m)));
        if k0 == n - 1 && !trailing {
            assert(j == e);
            assert(expected =~= seq![(vals[k0], p)]);
        } else {
            assert(t[i + 2 * k0 + 1] == Token::Punct(','));
            assert(j < e);
            assert(!ends_group(t, j));
            lemma_string_group_from(t, i, vals, trailing, k0 + 1);
            let rest = Seq::new((n - (k0 + 1)) as nat, |m: int| (vals[k0 + 1 + m], i + 2 * (k0 + 1 + m)));
            assert(expected =~= seq![(vals[k0], p)] + rest);
        }
    }
}

/// A group of string literals reads as every one of them, in order, each
/// with its index: `includes = ["a", "b", "c"]` gives all three paths.
pub proof fn law_string_list_reads_every_literal(t: Seq<Token>, i: int, vals: Seq<Seq<char>>, trailing: bool)
    requires
        is_string_group(t, i, vals, trailing),
    ensures
        string_list(t, i) is Ok,
        string_list(t, i)->Ok_0.1 == list_end(i, vals.len() as int, 1, trailing),
        string_list(t, i)->Ok_0.0.len() == vals.len(),
        forall|k: int| 0 <= k < vals.len() ==> #[trigger] string_list(t, i)->Ok_0.0[k] == (vals[k], i + 2 * k),
{
    lemma_string_group_from(t, i, vals, trailing, 0);
}

/// `t` holds, from `i`, the entries `keys[k]: values[k]` separated by `,`
/// (with a trailing `,` if `trailing`), each value written in decimal, and
/// the group closes right after.
pub open spec fn is_param_group(
    t: Seq<Token>,
    i: int,
    keys: Seq<Seq<char>>,
    values: Seq<nat>,
    trailing: bool,
) -> bool {
    let n = keys.len() as int;
    let e = list_end(i, n, 3, trailing);
    &&& 0 <= i
    &&& values.len() == n
    &&& e < t.len()
    &&& t[e] is Close
    &&& forall|k: int| 0 <= k < n ==> syn_accepts_ident(#[trigger] keys[k])
    &&& forall|k: int| 0 <= k < n ==> #[trigger] values[k] <= i64::MAX
    &&& forall|k: int| 0 <= k < n ==> is_word(t, i + 4 * k, #[trigger] keys[k])
    &&& forall|k: int| 0 <= k < n ==> #[trigger] t[i + 4 * k + 1] == Token::Punct(':')
    &&& forall|k: int|
        0 <= k < n ==> (#[trigger] t[i + 4 * k + 2] is IntLit && int_digits(t, i + 4 * k + 2)
            == decimal_text(values[k]))
    &&& forall|k: int| 0 <= k < n && (k < n - 1 || trailing) ==> #[trigger] t[i + 4 * k + 3] == Token::Punct(',')
}

proof fn lemma_param_group_from(
    t: Seq<Token>,
    i: int,
    keys: Seq<Seq<char>>,
    values: Seq<nat>,
    trailing: bool,
    k0: int,
)
    requires
        is_param_group(t, i, keys, values, trailing),
        0 <= k0 <= keys.len(),
        k0 == keys.len() ==> (trailing || keys.len() == 0),
    ensures
        param_list(t, i + 4 * k0) == Ok::<(Seq<((Seq<char>, int), i64)>, int), ArgsError>(
            (
                Seq::new(
                    (keys.len() - k0) as nat,
                    |m: int| ((keys[k0 + m], i + 4 * (k0 + m)), values[k0 + m] as i64),
                ),
                list_end(i, keys.len() as int, 3, trailing),
            ),
        ),
    decreases keys.len() - k0,
{
    let n = keys.len() as int;
    let e = list_end(i, n, 3, trailing);
    let p = i + 4 * k0;
    let expected = Seq::new(
        (n - k0) as nat,
        |m: int| ((keys[k0 + m], i + 4 * (k0 + m)), values[k0 + m] as i64),
    );
    if k0 == n {
        assert(p == e);
        assert(expected =~= Seq::<((Seq<char>, int), i64)>::empty());
    } else {
        assert(is_word(t, i + 4 * k0, keys[k0]));
        assert(syn_accepts_ident(keys[k0]));
        assert(t[i + 4 * k0 + 1] == Token::Punct(':'));
        assert(t[i + 4 * k0 + 2] is IntLit && int_digits(t, i + 4 * k0 + 2) == decimal_text(values[k0]));
        assert(values[k0] <= i64::MAX);
        law_integer_literal_value(t, p + 2, values[k0]);
        assert(!ends_group(t, p));
        let entry = ((keys[k0], p), values[k0] as i64);
        assert(key_value(t, p) == Ok::<(((Seq<char>, int), i64), int), ArgsError>((entry, p + 3)));
        let j = p + 3;
        if k0 == n - 1 && !trailing {
            assert(j == e);
            assert(expected =~= seq![entry]);
        } else {
            assert(t[i + 4 * k0 + 3] == Token::Punct(','));
            assert(j < e);
            assert(!ends_group(t, j));
            lemma_param_group_from(t, i, keys, values, trailing, k0 + 1);
            let rest = Seq::new(
                (n - (k0 + 1)) as nat,
                |m: int| ((keys[k0 + 1 + m], i + 4 * (k0 + 1 + m)), values[k0 + 1 + m] as i64),
            );
            assert(expected =~= seq![entry] + rest);
        }
    }
}

/// A group of `name: value` entries reads as every one of them, in order,
/// each key with its index and its value: `params = { A: 1, B: 2, C: 3 }`
/// gives all three entries.
pub proof fn law_param_list_reads_every_entry(
    t: Seq<Token>,
    i: int,
    keys: Seq<Seq<char>>,
    values: Seq<nat>,
    trailing: bool,
)
    requires
        is_param_group(t, i, keys, values, trailing),
    ensures
        param_list(t, i) is Ok,
        param_list(t, i)->Ok_0.1 == list_end(i, keys.len() as int, 3, trailing),
        param_list(t, i)->Ok_0.0.len() == keys.len(),
        forall|k: int|
            0 <= k < keys.len() ==> #[trigger] param_list(t, i)->Ok_0.0[k] == (
            (keys[k], i + 4 * k),
            values[k] as i64,
        ),
{
    lemma_param_group_from(t, i, keys, values, trailing, 0);
}

proof fn lemma_string_group_shift(t: Seq<Token>, tail: Seq<Token>, i: int, vals: Seq<Seq<char>>, trailing: bool)
    requires
        is_string_group(tail, i, vals, trailing),
    ensures
        is_string_group(t + tail, t.len() + i, vals, trailing),
{
    let t2 = t + tail;
    let d = t.len() as int;
    let n = vals.len() as int;
    assert(list_end(d + i, n, 1, trailing) == d + list_end(i, n, 1, trailing));
    assert(t2[d + list_end(i, n, 1, trailing)] == tail[list_end(i, n, 1, trailing)]);
    assert forall|k: int| 0 <= k < n implies (#[trigger] t2[d + i + 2 * k] matches Token::StrLit(s)
        && s@ == vals[k]) by {
        assert(t2[d + i + 2 * k] == tail[i + 2 * k]);
    }
    assert forall|k: int| 0 <= k < n && (k < n - 1 || trailing) implies #[trigger] t2[d + i + 2 * k
        + 1] == Token::Punct(',') by {
        assert(t2[d + i + 2 * k + 1] == tail[i + 2 * k + 1]);
    }
}

/// An `includes` group appended to arguments that read to the end sets the
/// include paths to every literal of the group, in order, and keeps every
/// other field.
pub proof fn law_includes_reads_every_path(t: Seq<Token>, tail: Seq<Token>, vals: Seq<Seq<char>>, trailing: bool)
    requires
        macro_args(t) is Ok,
        macro_args(t)->Ok_0.1 == t.len(),
        tail[0] == Token::Punct(','),
        is_word(tail, 1, "includes"@),
        tail[2] == Token::Punct('='),
        tail[3] == Token::Open(Delimiter::Bracket),
        is_string_group(tail, 4, vals, trailing),
        tail.len() == list_end(4, vals.len() as int, 1, trailing) + 1,
    ensures
        ({
            let a = macro_args(t)->Ok_0.0;
            let n = t.len() as int;
            let r = macro_args(t + tail);
            &&& r is Ok
            &&& r->Ok_0.1 == (t + tail).len()
            &&& r->Ok_0.0 == with_includes(a, Seq::new(vals.len(), |k: int| (vals[k], n + 4 + 2 * k)))
        }),
{
    let a = macro_args(t)->Ok_0.0;
    let n = t.len() as int;
    let t2 = t + tail;
    let e = list_end(4, vals.len() as int, 1, trailing);
    lemma_macro_args_extend(t, tail);
    lemma_string_group_shift(t, tail, 4, vals, trailing);
    law_string_list_reads_every_literal(t2, n + 4, vals, trailing);
    lemma_option_words_differ();
    assert(t2[n] == tail[0] && t2[n + 1] == tail[1] && t2[n + 2] == tail[2] && t2[n + 3] == tail[3]);
    let got = string_list(t2, n + 4)->Ok_0.0;
    let paths = Seq::new(vals.len(), |k: int| (vals[k], n + 4 + 2 * k));
    assert(got =~= paths);
    assert(list_end(n + 4, vals.len() as int, 1, trailing) == n + e);
    assert(parse_option(t2, n) == Ok::<(ParsedOption, int), ArgsError>(
        (ParsedOption::Includes(paths), n + e + 1),
    ));
    assert(options(t2, n + e + 1, with_includes(a, paths)) == Ok::<(ArgsModel, int), ArgsError>(
        (with_includes(a, paths), n + e + 1),
    ));
}

proof fn lemma_param_group_shift(
    t: Seq<Token>,
    tail: Seq<Token>,
    i: int,
    keys: Seq<Seq<char>>,
    values: Seq<nat>,
    trailing: bool,
)
    requires
        is_param_group(tail, i, keys, values, trailing),
    ensures
        is_param_group(t + tail, t.len() + i, keys, values, trailing),
{
    let t2 = t + tail;
    let d = t.len() as int;
    let n = keys.len() as int;
    assert(list_end(d + i, n, 3, trailing) == d + list_end(i, n, 3, trailing));
    assert(t2[d + list_end(i, n, 3, trailing)] == tail[list_end(i, n, 3, trailing)]);
    assert forall|k: int| 0 <= k < n implies is_word(t2, d + i + 4 * k, #[trigger] keys[k]) by {
        assert(is_word(tail, i + 4 * k, keys[k]));
        assert(t2[d + i + 4 * k] == tail[i + 4 * k]);
    }
    assert forall|k: int| 0 <= k < n implies #[trigger] t2[d + i + 4 * k + 1] == Token::Punct(':') by {
        assert(t2[d + i + 4 * k + 1] == tail[i + 4 * k + 1]);
    }
    assert forall|k: int| 0 <= k < n implies (#[trigger] t2[d + i + 4 * k + 2] is IntLit && int_digits(
        t2,
        d + i + 4 * k + 2,
    ) == decimal_text(values[k])) by {
        assert(t2[d + i + 4 * k + 2] == tail[i + 4 * k + 2]);
    }
    assert forall|k: int| 0 <= k < n && (k < n - 1 || trailing) implies #[trigger] t2[d + i + 4 * k
        + 3] == Token::Punct(',') by {
        assert(t2[d + i + 4 * k + 3] == tail[i + 4 * k + 3]);
    }
}

/// A `params` group appended to arguments that read to the end sets the
/// module parameters to every entry of the group, in order, and keeps every
/// other field.
pub proof fn law_params_reads_every_entry(
    t: Seq<Token>,
    tail: Seq<Token>,
    keys: Seq<Seq<char>>,
    values: Seq<nat>,
    trailing: bool,
)
    requires
        macro_args(t) is Ok,
        macro_args(t)->Ok_0.1 == t.len(),
        tail[0] == Token::Punct(','),
        is_word(tail, 1, "params"@),
        tail[2] == Token::Punct('='),
        tail[3] == Token::Open(Delimiter::Brace),
        is_param_group(tail, 4, keys, values, trailing),
        tail.len() == list_end(4, keys.len() as int, 3, trailing) + 1,
    ensures
        ({
            let a = macro_args(t)->Ok_0.0;
            let n = t.len() as int;
            let r = macro_args(t + tail);
            &&& r is Ok
            &&& r->Ok_0.1 == (t + tail).len()
            &&& r->Ok_0.0 == with_params(
                a,
                Seq::new(keys.len(), |k: int| ((keys[k], n + 4 + 4 * k), values[k] as i64)),
            )
        }),
{
    let a = macro_args(t)->Ok_0.0;
    let n = t.len() as int;
    let t2 = t + tail;
    let e = list_end(4, keys.len() as int, 3, trailing);
    lemma_macro_args_extend(t, tail);
    lemma_param_group_shift(t, tail, 4, keys, values, trailing);
    law_param_list_reads_every_entry(t2, n + 4, keys, values, trailing);
    lemma_option_words_differ();
    assert(t2[n] == tail[0] && t2[n + 1] == tail[1] && t2[n + 2] == tail[2] && t2[n + 3] == tail[3]);
    let got = param_list(t2, n + 4)->Ok_0.0;
    let params = Seq::new(keys.len(), |k: int| ((keys[k], n + 4 + 4 * k), values[k] as i64));
    assert(got =~= params);
    assert(list_end(n + 4, keys.len() as int, 3, trailing) == n + e);
    assert(parse_option(t2, n) == Ok::<(ParsedOption, int), ArgsError>(
        (ParsedOption::Params(params), n + e + 1),
    ));
    assert(options(t2, n + e + 1, with_params(a, params)) == Ok::<(ArgsModel, int), ArgsError>(
        (with_params(a, params), n + e + 1),
    ));
}

} // verus!
