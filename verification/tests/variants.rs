use arcturus::assembler::{assemble, Dialect};
use arcturus::basic_vm::BasicVm;
use arcturus::bytecode::DecodeError;
use arcturus::lexer::{lex_backslash, LexError, Token};
use arcturus::preproc::preproc_break;
use arcturus::vm::{LoadError, Outcome, Value, VmError};

fn chars(s: &str) -> Vec<char> {
    s.chars().collect()
}

#[test]
fn backslash_lexer_tokens() {
    let toks = lex_backslash(&chars("{ goto end; let x = 1; }")).unwrap();
    assert_eq!(
        toks,
        vec![
            Token::Punct(chars("{")),
            Token::Keyword(chars("goto")),
            Token::Identifier(chars("end")),
            Token::Punct(chars(";")),
            Token::Keyword(chars("let")),
            Token::Identifier(chars("x")),
            Token::Punct(chars("=")),
            Token::Integer(1),
            Token::Punct(chars(";")),
            Token::Punct(chars("}")),
        ]
    );
}

#[test]
fn backslash_comments_follow_the_first_character() {
    // The source starts with `x`: a backslash starts a comment and is a token.
    let toks = lex_backslash(&chars("x \\ skipped { y }")).unwrap();
    assert_eq!(
        toks,
        vec![
            Token::Identifier(chars("x")),
            Token::Punct(chars("\\")),
            Token::Punct(chars("{")),
            Token::Identifier(chars("y")),
            Token::Punct(chars("}")),
        ]
    );
    // The source starts with a backslash: `x` ends a comment.
    let toks = lex_backslash(&chars("\\ { a } skipped x b ")).unwrap();
    assert_eq!(
        toks,
        vec![
            Token::Punct(chars("{")),
            Token::Identifier(chars("a")),
            Token::Punct(chars("}")),
            Token::Identifier(chars("b")),
        ]
    );
    // A `#` is no comment here.
    assert_eq!(lex_backslash(&chars("{ # }")), Err(LexError::UnexpectedChar('#')));
}

#[test]
fn preprocessor_with_exit_block_on_its_own_line() {
    let out = preproc_break(&chars("{ }"), &vec![chars("{ print 1; }")]);
    let text: String = out.iter().collect();
    assert_eq!(
        text,
        "{ }\n{ label HYD_EXITBLOCK; exit; label HYD_EXITBLOCK_END; }\n{ print 1; }"
    );
}

fn basic_code(lines: &str) -> Vec<u8> {
    assemble(&chars(lines), Dialect::Standalone, &vec![]).unwrap()
}

fn run_basic(code: Vec<u8>) -> (Vec<Value>, Outcome) {
    let mut vm = BasicVm::load(code).unwrap();
    let mut out = Vec::new();
    for _ in 0..1000 {
        match vm.step() {
            Outcome::Continue => {}
            Outcome::Print(v) => out.push(v),
            other => return (out, other),
        }
    }
    panic!("the program did not stop");
}

#[test]
fn basic_machine_runs_constants_and_arithmetic() {
    let (out, end) = run_basic(basic_code("ARC_START\nPUSH_INT 2\nPUSH_INT 5\nMUL 2\nPRINT\nPUSH_STR ok\nPRINT\nARC_END\n"));
    assert_eq!(out, vec![Value::Int(10), Value::Str(b"ok".to_vec())]);
    assert_eq!(end, Outcome::Halt);
}

#[test]
fn basic_machine_limits() {
    let (_, end) = run_basic(basic_code("ARC_START\nPUSH_INT 1\nSTORE a\nARC_END\n"));
    assert_eq!(end, Outcome::UnknownOpcode(0x10, 10));
    let (_, end) = run_basic(basic_code("ARC_START\nLOAD_INT a\nARC_END\n"));
    assert_eq!(end, Outcome::Fault(VmError::UndefinedVariable));
    let (_, end) = run_basic(vec![0xF0, 0x15, 4, 0xFF, 0xF1]);
    assert_eq!(end, Outcome::Fault(VmError::Decode(DecodeError::Truncated(1))));
    let (_, end) = run_basic(basic_code("ARC_START\nJUMP away\nARC_END\n"));
    assert_eq!(end, Outcome::Fault(VmError::UndefinedLabel));
    let (_, end) = run_basic(basic_code("ARC_START\nRET\nARC_END\n"));
    assert_eq!(end, Outcome::Fault(VmError::EmptyCallStack));
    assert!(matches!(
        BasicVm::load(basic_code("ARC_START\nLABEL a\nARC_END\n")),
        Err(LoadError::LabelByte(1))
    ));
    assert!(matches!(BasicVm::load(vec![0xF1]), Err(LoadError::BadFrame)));
}
