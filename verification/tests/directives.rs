use arcturus::define::{apply_defines, define_table, lex_stage, DefineError, LexStageError};
use arcturus::lexer::LexError;
use arcturus::parser::parse;
use arcturus::lexer::{lex, Token};

fn chars(s: &str) -> Vec<char> {
    s.chars().collect()
}

fn entry(name: &str, value: &str) -> (Vec<char>, Vec<char>) {
    (chars(name), chars(value))
}

#[test]
fn define_lines_build_the_table() {
    let src = chars("%define BUFFER as x1000\n{ print 1; }\n  %define RESULT as xA000\n");
    assert_eq!(
        define_table(&src),
        Ok(vec![entry("BUFFER", "x1000"), entry("RESULT", "xA000")])
    );
    assert_eq!(define_table(&chars("{ print 1; }")), Ok(vec![]));
}

#[test]
fn define_without_as_is_refused() {
    assert_eq!(define_table(&chars("%define BUFFER x1000")), Err(DefineError::MissingAs(0)));
    assert_eq!(define_table(&chars("{ }\n%define BUFFER")), Err(DefineError::MissingAs(1)));
    assert_eq!(define_table(&chars("%define BUFFER as")), Err(DefineError::MissingAddress(0)));
}

#[test]
fn defines_replace_identifiers_only() {
    let table = vec![entry("BUFFER", "x1000"), entry("label", "x2000")];
    let toks = lex(&chars("{ jump BUFFER; label BUFFER; print \"BUFFER\"; }")).unwrap();
    let out = apply_defines(&toks, &table);
    let expected = vec![
        Token::Punct(chars("{")),
        Token::Keyword(chars("jump")),
        Token::Identifier(chars("x1000")),
        Token::Punct(chars(";")),
        Token::Keyword(chars("label")),
        Token::Identifier(chars("x1000")),
        Token::Punct(chars(";")),
        Token::Keyword(chars("print")),
        Token::Str(chars("BUFFER")),
        Token::Punct(chars(";")),
        Token::Punct(chars("}")),
        Token::Identifier(chars("HYD_EOF")),
    ];
    assert_eq!(out, expected);
}

#[test]
fn the_last_define_of_a_name_counts() {
    let table = vec![entry("A", "x1"), entry("B", "x2"), entry("A", "x3")];
    let toks = vec![Token::Identifier(chars("A")), Token::Identifier(chars("B")), Token::Identifier(chars("C"))];
    assert_eq!(
        apply_defines(&toks, &table),
        vec![Token::Identifier(chars("x3")), Token::Identifier(chars("x2")), Token::Identifier(chars("C"))]
    );
}

#[test]
fn negative_integer_literals() {
    let toks = lex(&chars("let x = -7;")).unwrap();
    let expected = vec![
        Token::Keyword(chars("let")),
        Token::Identifier(chars("x")),
        Token::Punct(chars("=")),
        Token::Integer(-7),
        Token::Punct(chars(";")),
        Token::Identifier(chars("HYD_EOF")),
    ];
    assert_eq!(toks, expected);
    // After an operand, `-` stays an operator.
    let toks = lex(&chars("{ let y = x - 3; }")).unwrap();
    assert_eq!(toks[4], Token::Identifier(chars("x")));
    assert_eq!(toks[5], Token::Punct(chars("-")));
    assert_eq!(toks[6], Token::Integer(3));
    let toks = lex(&chars("{ print -2.5; }")).unwrap();
    assert_eq!(toks[2], Token::Float(chars("-2.5")));
}

#[test]
fn a_comment_runs_to_the_next_hash() {
    let with_comment = lex(&chars("{ print 1; #{ print 2; }#print 3; }")).unwrap();
    let without = lex(&chars("{ print 1; print 3; }")).unwrap();
    assert_eq!(with_comment, without);
}

#[test]
fn the_lexing_stage_substitutes_defines() {
    let toks = lex_stage(&chars("{ jump BUFFER; }\n%define BUFFER as x1000\n")).unwrap();
    let expected = vec![
        Token::Punct(chars("{")),
        Token::Keyword(chars("jump")),
        Token::Identifier(chars("x1000")),
        Token::Punct(chars(";")),
        Token::Punct(chars("}")),
        Token::Identifier(chars("HYD_EOF")),
    ];
    assert_eq!(toks, expected);
    // The end marker is appended after substitution.
    let toks = lex_stage(&chars("{ }\n%define HYD_EOF as x1")).unwrap();
    assert_eq!(toks.last().unwrap(), &Token::Identifier(chars("HYD_EOF")));
}

#[test]
fn the_lexing_stage_errors() {
    assert_eq!(
        lex_stage(&chars("{ }\n%define BUFFER x1000")),
        Err(LexStageError::Define(DefineError::MissingAs(1)))
    );
    assert_eq!(lex_stage(&chars("{ @ }")), Err(LexStageError::Lex(LexError::UnexpectedChar('@'))));
    // A malformed directive is refused before the text is lexed.
    assert_eq!(
        lex_stage(&chars("{ @ }\n%define A as")),
        Err(LexStageError::Define(DefineError::MissingAddress(1)))
    );
}

#[test]
fn parsing_stops_at_the_end_marker() {
    let mut toks = lex(&chars("{ exit; }")).unwrap();
    let alone = parse(&toks).unwrap();
    toks.push(Token::Identifier(chars("stray")));
    toks.push(Token::Integer(3));
    assert_eq!(parse(&toks).unwrap(), alone);
}
