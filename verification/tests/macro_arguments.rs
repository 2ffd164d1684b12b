use verilog_macro_builder::macro_args::{parse_key_value, ArgsError, Expectation, MacroArgs};
use verilog_macro_builder::tokens::{Delimiter, Located, Token};

fn id(s: &str) -> Token {
    Token::Ident(s.to_string())
}

fn p(c: char) -> Token {
    Token::Punct(c)
}

fn st(s: &str) -> Token {
    Token::StrLit(s.to_string())
}

fn lit_int(s: &str) -> Token {
    Token::IntLit(s.to_string())
}

fn loc(s: &str, token: usize) -> Located {
    Located { text: s.to_string(), token }
}

fn head() -> Vec<Token> {
    vec![id("src"), p('='), st("src/main.sv"), p(','), id("name"), p('='), st("main")]
}

fn err(expected: Expectation, token: usize) -> Result<(MacroArgs, usize), ArgsError> {
    Err(ArgsError { expected, token })
}

#[test]
fn required_arguments_only() {
    let t = head();
    let (args, stop) = MacroArgs::parse(&t).unwrap();
    assert_eq!(stop, 7);
    assert_eq!(args.source_path, loc("src/main.sv", 2));
    assert_eq!(args.name, loc("main", 6));
    assert_eq!(args.include_paths, None);
    assert_eq!(args.module_params, None);
    assert_eq!(args.clock_port, None);
    assert_eq!(args.reset_port, None);
}

#[test]
fn all_options() {
    let mut t = head();
    t.extend([p(','), id("includes"), p('='), Token::Open(Delimiter::Bracket), st("inc"), p(','), st("lib"), Token::Close(Delimiter::Bracket)]);
    t.extend([p(','), id("params"), p('='), Token::Open(Delimiter::Brace), id("WIDTH"), p(':'), lit_int("8"), p(','), id("DEPTH"), p(':'), p('-'), lit_int("3"), p(','), Token::Close(Delimiter::Brace)]);
    t.extend([p(','), id("clock"), p('='), st("clk")]);
    t.extend([p(','), id("reset"), p('='), st("rst")]);
    let (args, stop) = MacroArgs::parse(&t).unwrap();
    assert_eq!(stop, t.len());
    assert_eq!(args.include_paths, Some(vec![loc("inc", 11), loc("lib", 13)]));
    assert_eq!(args.module_params, Some(vec![(loc("WIDTH", 19), 8), (loc("DEPTH", 23), -3)]));
    assert_eq!(args.clock_port, Some(loc("clk", 32)));
    assert_eq!(args.reset_port, Some(loc("rst", 36)));
}

#[test]
fn later_option_replaces_earlier() {
    let mut t = head();
    t.extend([p(','), id("clock"), p('='), st("a")]);
    t.extend([p(','), id("includes"), p('='), Token::Open(Delimiter::Bracket), st("x"), Token::Close(Delimiter::Bracket)]);
    t.extend([p(','), id("clock"), p('='), st("b")]);
    t.extend([p(','), id("includes"), p('='), Token::Open(Delimiter::Bracket), Token::Close(Delimiter::Bracket)]);
    let (args, _) = MacroArgs::parse(&t).unwrap();
    assert_eq!(args.clock_port, Some(loc("b", 20)));
    assert_eq!(args.include_paths, Some(vec![]));
}

#[test]
fn stops_before_tokens_without_a_comma() {
    let mut t = head();
    t.extend([p(';'), id("anything")]);
    let (_, stop) = MacroArgs::parse(&t).unwrap();
    assert_eq!(stop, 7);
}

#[test]
fn refuses_a_missing_or_misnamed_keyword() {
    assert_eq!(MacroArgs::parse(&vec![]), err(Expectation::Src, 0));
    let mut t = head();
    t[0] = id("source");
    assert_eq!(MacroArgs::parse(&t), err(Expectation::Src, 0));
    let mut t = head();
    t[4] = id("r#name");
    assert_eq!(MacroArgs::parse(&t), err(Expectation::Name, 4));
}

#[test]
fn refuses_missing_punctuation_and_literals() {
    let mut t = head();
    t[1] = p(':');
    assert_eq!(MacroArgs::parse(&t), err(Expectation::Equals, 1));
    let mut t = head();
    t[2] = lit_int("3");
    assert_eq!(MacroArgs::parse(&t), err(Expectation::StringLiteral, 2));
    let mut t = head();
    t.truncate(3);
    assert_eq!(MacroArgs::parse(&t), err(Expectation::Comma, 3));
    let mut t = head();
    t.truncate(6);
    assert_eq!(MacroArgs::parse(&t), err(Expectation::StringLiteral, 6));
}

#[test]
fn refuses_an_unknown_option() {
    let mut t = head();
    t.extend([p(','), id("trace"), p('='), st("x")]);
    assert_eq!(MacroArgs::parse(&t), err(Expectation::OptionName, 8));
    let mut t = head();
    t.push(p(','));
    assert_eq!(MacroArgs::parse(&t), err(Expectation::OptionName, 8));
}

#[test]
fn refuses_ill_formed_groups() {
    let mut t = head();
    t.extend([p(','), id("includes"), p('='), st("x")]);
    assert_eq!(MacroArgs::parse(&t), err(Expectation::SquareBrackets, 10));
    let mut t = head();
    t.extend([p(','), id("params"), p('='), Token::Open(Delimiter::Bracket), Token::Close(Delimiter::Bracket)]);
    assert_eq!(MacroArgs::parse(&t), err(Expectation::CurlyBraces, 10));
    let mut t = head();
    t.extend([p(','), id("includes"), p('='), Token::Open(Delimiter::Bracket), st("a"), st("b"), Token::Close(Delimiter::Bracket)]);
    assert_eq!(MacroArgs::parse(&t), err(Expectation::Comma, 12));
    let mut t = head();
    t.extend([p(','), id("includes"), p('='), Token::Open(Delimiter::Bracket), st("a"), p(','), Token::OtherLit, Token::Close(Delimiter::Bracket)]);
    assert_eq!(MacroArgs::parse(&t), err(Expectation::StringLiteral, 13));
}

#[test]
fn refuses_bad_parameters() {
    let mut t = head();
    t.extend([p(','), id("params"), p('='), Token::Open(Delimiter::Brace), id("type"), p(':'), lit_int("1"), Token::Close(Delimiter::Brace)]);
    assert_eq!(MacroArgs::parse(&t), err(Expectation::Identifier, 11));
    let mut t = head();
    t.extend([p(','), id("params"), p('='), Token::Open(Delimiter::Brace), id("W"), p('='), lit_int("1"), Token::Close(Delimiter::Brace)]);
    assert_eq!(MacroArgs::parse(&t), err(Expectation::Colon, 12));
    let mut t = head();
    t.extend([p(','), id("params"), p('='), Token::Open(Delimiter::Brace), id("W"), p(':'), st("1"), Token::Close(Delimiter::Brace)]);
    assert_eq!(MacroArgs::parse(&t), err(Expectation::IntegerLiteral, 13));
    let mut t = head();
    t.extend([p(','), id("params"), p('='), Token::Open(Delimiter::Brace), id("W"), p(':'), lit_int("9223372036854775808"), Token::Close(Delimiter::Brace)]);
    assert_eq!(MacroArgs::parse(&t), err(Expectation::IntegerInRange, 13));
}

#[test]
fn key_value_entries() {
    let t = vec![id("N"), p(':'), lit_int("12")];
    assert_eq!(parse_key_value(&t, 0), Ok(((loc("N", 0), 12), 3)));
    let t = vec![id("N"), p(':'), p('-'), lit_int("9223372036854775808")];
    assert_eq!(parse_key_value(&t, 0), Ok(((loc("N", 0), i64::MIN), 4)));
    let t = vec![id("N"), p(':'), p('-'), lit_int("9223372036854775809")];
    assert_eq!(parse_key_value(&t, 0), Err(ArgsError { expected: Expectation::IntegerInRange, token: 2 }));
    let t = vec![id("N"), p(':'), p('-'), lit_int("-1")];
    assert_eq!(parse_key_value(&t, 0), Err(ArgsError { expected: Expectation::IntegerLiteral, token: 2 }));
    let t = vec![id("N"), p(':')];
    assert_eq!(parse_key_value(&t, 0), Err(ArgsError { expected: Expectation::IntegerLiteral, token: 2 }));
    let t = vec![p('-'), id("N"), p(':'), lit_int("1")];
    assert_eq!(parse_key_value(&t, 0), Err(ArgsError { expected: Expectation::Identifier, token: 0 }));
}

#[test]
fn keys_are_identifiers_as_syn_reads_them() {
    for key in ["type", "_", "self", "fn", "match"] {
        let t = vec![id(key), p(':'), lit_int("1")];
        assert_eq!(parse_key_value(&t, 0), Err(ArgsError { expected: Expectation::Identifier, token: 0 }), "{key}");
    }
    for key in ["width", "r#type", "_x", "WIDTH_2"] {
        let t = vec![id(key), p(':'), lit_int("1")];
        assert_eq!(parse_key_value(&t, 0), Ok(((loc(key, 0), 1), 3)), "{key}");
    }
}

#[test]
fn parameter_values_read_back_from_decimal_text() {
    for v in [0i64, 1, 42, i64::MAX, -1, -42, i64::MIN] {
        let mut t = vec![id("K"), p(':')];
        if v < 0 {
            t.push(p('-'));
            t.push(lit_int(&v.unsigned_abs().to_string()));
        } else {
            t.push(lit_int(&v.to_string()));
        }
        let n = t.len();
        assert_eq!(parse_key_value(&t, 0), Ok(((loc("K", 0), v), n)));
    }
}

fn includes_option() -> Vec<Token> {
    vec![p(','), id("includes"), p('='), Token::Open(Delimiter::Bracket), st("inc"), p(','), st("lib"), Token::Close(Delimiter::Bracket)]
}

fn params_option() -> Vec<Token> {
    vec![p(','), id("params"), p('='), Token::Open(Delimiter::Brace), id("N"), p(':'), p('-'), lit_int("4"), Token::Close(Delimiter::Brace)]
}

fn texts(v: &Option<Vec<Located>>) -> Option<Vec<String>> {
    v.as_ref().map(|v| v.iter().map(|l| l.text.clone()).collect())
}

fn entries(v: &Option<Vec<(Located, i64)>>) -> Option<Vec<(String, i64)>> {
    v.as_ref().map(|v| v.iter().map(|(l, x)| (l.text.clone(), *x)).collect())
}

#[test]
fn clock_and_reset_change_nothing_else() {
    let mut t = head();
    t.extend(includes_option());
    t.extend(params_option());
    let (before, stop) = MacroArgs::parse(&t).unwrap();
    assert_eq!(stop, t.len());
    let n = t.len();
    t.extend([p(','), id("clock"), p('='), st("clk"), p(','), id("reset"), p('='), st("rst")]);
    let (after, stop) = MacroArgs::parse(&t).unwrap();
    assert_eq!(stop, n + 8);
    assert_eq!(after.clock_port, Some(loc("clk", n + 3)));
    assert_eq!(after.reset_port, Some(loc("rst", n + 7)));
    assert_eq!(after.source_path, before.source_path);
    assert_eq!(after.name, before.name);
    assert_eq!(after.include_paths, before.include_paths);
    assert_eq!(after.module_params, before.module_params);
}

#[test]
fn option_order_does_not_matter() {
    let mut t1 = head();
    t1.extend(includes_option());
    t1.extend(params_option());
    t1.extend([p(';'), id("tail")]);
    let mut t2 = head();
    t2.extend(params_option());
    t2.extend(includes_option());
    t2.extend([p(';'), id("tail")]);
    let (a1, k1) = MacroArgs::parse(&t1).unwrap();
    let (a2, k2) = MacroArgs::parse(&t2).unwrap();
    assert_eq!(k1, k2);
    assert_eq!(texts(&a1.include_paths), Some(vec!["inc".to_string(), "lib".to_string()]));
    assert_eq!(texts(&a1.include_paths), texts(&a2.include_paths));
    assert_eq!(entries(&a1.module_params), Some(vec![("N".to_string(), -4)]));
    assert_eq!(entries(&a1.module_params), entries(&a2.module_params));
    // A refusal after the two parts is the same in either order.
    let mut t3 = t1.clone();
    t3[k1] = p(',');
    let mut t4 = t2.clone();
    t4[k2] = p(',');
    assert_eq!(MacroArgs::parse(&t3), MacroArgs::parse(&t4));
    assert_eq!(MacroArgs::parse(&t3), err(Expectation::OptionName, k1 + 1));
}

#[test]
fn any_order_of_distinct_options_reads_the_same() {
    let clock_option = vec![p(','), id("clock"), p('='), st("clk")];
    let runs = [includes_option(), params_option(), clock_option];
    let orders = [[0, 1, 2], [0, 2, 1], [1, 0, 2], [1, 2, 0], [2, 0, 1], [2, 1, 0]];
    let mut readings = Vec::new();
    for order in orders {
        let mut t = head();
        for k in order {
            t.extend(runs[k].clone());
        }
        t.push(p(';'));
        let (a, stop) = MacroArgs::parse(&t).unwrap();
        readings.push((
            stop,
            a.source_path.text.clone(),
            a.name.text.clone(),
            texts(&a.include_paths),
            entries(&a.module_params),
            a.clock_port.as_ref().map(|c| c.text.clone()),
            a.reset_port.is_none(),
        ));
    }
    for r in &readings {
        assert_eq!(r, &readings[0]);
    }
    assert_eq!(readings[0].5, Some("clk".to_string()));
}
