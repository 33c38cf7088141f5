use arcturus::assembler::{assemble, assemble_program, decimal_operands, AsmError, Dialect};
use arcturus::bytecode::Instr;
use arcturus::lexer::{lex, LexError, Token};
use arcturus::parser::{parse, Node, ParseError};
use arcturus::preproc::{preproc, scope_targets};
use arcturus::serializer::{serialization, SerializeError};
use arcturus::vm::{Outcome, Value, Vm, VmError};

fn chars(s: &str) -> Vec<char> {
    s.chars().collect()
}

fn text(v: &Vec<char>) -> String {
    v.iter().collect()
}

fn float_values(listing_text: &Vec<char>) -> Vec<Option<u64>> {
    decimal_operands(listing_text)
        .iter()
        .map(|d| text(d).parse::<f64>().ok().map(|f| f.to_bits()))
        .collect()
}

fn compile(src: &str) -> Vec<u8> {
    let pre = preproc(&chars(src), &vec![]);
    let toks = lex(&pre).unwrap();
    let ast = parse(&toks).unwrap();
    let listing_text = serialization(&ast).unwrap();
    assemble(&listing_text, Dialect::Compiler, &float_values(&listing_text)).unwrap()
}

fn show(v: &Value) -> String {
    match v {
        Value::Int(n) => n.to_string(),
        Value::Float(bits) => f64::from_bits(*bits).to_string(),
        Value::Str(b) => String::from_utf8(b.clone()).unwrap(),
        Value::Bool(b) => b.to_string(),
    }
}

fn run(code: Vec<u8>, inputs: &[&str]) -> (Vec<String>, Outcome) {
    let mut vm = Vm::load(code).unwrap();
    let mut out = Vec::new();
    let mut lines = inputs.iter();
    for _ in 0..100000 {
        match vm.step() {
            Outcome::Continue => {}
            Outcome::Print(v) => out.push(show(&v)),
            Outcome::NeedInput => {
                let l = lines.next().unwrap();
                vm.resume_input(&chars(l)).unwrap();
            }
            other => return (out, other),
        }
    }
    panic!("the program did not stop");
}

fn run_source(src: &str) -> Vec<String> {
    let (out, end) = run(compile(src), &[]);
    assert_eq!(end, Outcome::Halt);
    out
}

#[test]
fn hello_world() {
    assert_eq!(run_source("{\n    print \"Hello, World!\";\n}\n"), vec!["Hello, World!"]);
}

#[test]
fn let_chain_is_left_to_right() {
    assert_eq!(run_source("{ let z = 2 * 6 + 1; print z; }"), vec!["13"]);
    assert_eq!(run_source("{ let x = 2 + 3 * 4; print x; }"), vec!["20"]);
}

#[test]
fn let_reads_variables() {
    assert_eq!(run_source("{ let a = 5; let b = a + 3; print b; }"), vec!["8"]);
    assert_eq!(run_source("{ let x = 10 + 5; let y = x - 3; print y; }"), vec!["12"]);
}

#[test]
fn division_truncates_and_remainder() {
    assert_eq!(run_source("{ let q = 7 / 2; print q; let r = 7 % 3; print r; }"), vec!["3", "1"]);
}

#[test]
fn values_of_every_type_print() {
    assert_eq!(
        run_source("{ print 42; print true; print false; print \"text\"; print 2.5; }"),
        vec!["42", "true", "false", "text", "2.5"]
    );
}

#[test]
fn counted_loop() {
    let src = "{\n    let i = 0;\n    label loopTop;\n    jumpif loopEnd i >= 10;\n    print i;\n    let i = i + 1;\n    jump loopTop;\n    label loopEnd;\n    print \"done\";\n}\n";
    let expected: Vec<String> =
        (0..10).map(|i| i.to_string()).chain(std::iter::once("done".to_string())).collect();
    assert_eq!(run_source(src), expected);
}

#[test]
fn if_then_else_with_labels() {
    let src = "{\n    let x = 42;\n    jumpif thenBlock x == 42;\n    print \"not 42\";\n    jump endIf;\n    label thenBlock;\n    print \"it is 42\";\n    label endIf;\n}\n";
    assert_eq!(run_source(src), vec!["it is 42"]);
}

#[test]
fn functions_share_variables() {
    let src = "{\n    let x = 7;\n    call double;\n    print result;\n    exit;\n}{\n    label double;\n    let result = x + x;\n    return;\n}\n";
    assert_eq!(run_source(src), vec!["14"]);
}

#[test]
fn call_and_return() {
    let src = "{\n    call greet;\n    exit;\n}{\n    label greet;\n    print \"Hello!\";\n    return;\n}\n";
    assert_eq!(run_source(src), vec!["Hello!"]);
}

#[test]
fn conditions_chain_with_logic() {
    let src = "{ let x = 5; jumpif yes x > 0 && x < 100; print \"no\"; exit; label yes; print \"yes\"; }";
    assert_eq!(run_source(src), vec!["yes"]);
    let src = "{ let x = 500; jumpif yes x > 0 && x < 100; print \"no\"; exit; label yes; print \"yes\"; }";
    assert_eq!(run_source(src), vec!["no"]);
}

#[test]
fn callif_calls_only_when_true() {
    let src = "{ let x = 1; callif f x == 1; callif f x == 2; print \"end\"; exit; }{ label f; print \"in f\"; return; }";
    assert_eq!(run_source(src), vec!["in f", "end"]);
}

#[test]
fn input_is_a_trimmed_string() {
    let (out, end) = run(compile("{ input name; print name; }"), &["  Bob \r\n"]);
    assert_eq!(end, Outcome::Halt);
    assert_eq!(out, vec!["Bob"]);
}

#[test]
fn comments_are_skipped() {
    assert_eq!(run_source("{ # a comment ; print 9; # print 1; }"), vec!["1"]);
}

#[test]
fn lexing_a_statement() {
    let toks = lex(&chars("{ let x = 10 + 5; }")).unwrap();
    let expected = vec![
        Token::Punct(chars("{")),
        Token::Keyword(chars("let")),
        Token::Identifier(chars("x")),
        Token::Punct(chars("=")),
        Token::Integer(10),
        Token::Punct(chars("+")),
        Token::Integer(5),
        Token::Punct(chars(";")),
        Token::Punct(chars("}")),
        Token::Identifier(chars("HYD_EOF")),
    ];
    assert_eq!(toks, expected);
}

#[test]
fn lexer_keeps_float_text_and_reserved_words() {
    let toks = lex(&chars("{ print 3.14; print true; goto }")).unwrap();
    assert_eq!(toks[2], Token::Float(chars("3.14")));
    assert_eq!(toks[5], Token::Bool(true));
    assert_eq!(toks[7], Token::Identifier(chars("goto")));
    assert_eq!(toks.last().unwrap(), &Token::Identifier(chars("HYD_EOF")));
}

#[test]
fn lexer_errors() {
    assert_eq!(lex(&chars("{ let a = @; }")), Err(LexError::UnexpectedChar('@')));
    assert_eq!(lex(&chars("{ print 99999999999999999999; }")), Err(LexError::BadInteger));
    assert_eq!(lex(&chars("{ print 1.2.3; }")), Err(LexError::BadFloat));
}

#[test]
fn unicode_letters_and_digits() {
    // 'é' is alphabetic, so it starts a word; '٣' is numeric but no ASCII digit.
    let toks = lex(&chars("{ print é; }")).unwrap();
    assert_eq!(toks[2], Token::Identifier(chars("é")));
    assert_eq!(lex(&chars("{ print ٣; }")), Err(LexError::BadInteger));
}

#[test]
fn parse_statements() {
    let toks = lex(&chars("{ let x = 1 + y; print x; }")).unwrap();
    let ast = parse(&toks).unwrap();
    assert_eq!(
        ast,
        vec![
            Node::Start,
            Node::PushInt(1),
            Node::Load(chars("y")),
            Node::Add(2),
            Node::Let(chars("x")),
            Node::Print(Box::new(Node::Load(chars("x")))),
            Node::End,
        ]
    );
}

#[test]
fn parse_blocks_and_conditions() {
    let toks = lex(&chars("{ jumpif l a < 3 || b; }{ exit; }")).unwrap();
    let ast = parse(&toks).unwrap();
    assert_eq!(
        ast,
        vec![
            Node::Start,
            Node::Load(chars("a")),
            Node::PushInt(3),
            Node::Compare(0xC7),
            Node::Load(chars("b")),
            Node::Logic(chars("or")),
            Node::JumpIf(chars("l")),
            Node::Delim,
            Node::Exit,
            Node::End,
        ]
    );
}

fn parse_src(src: &str) -> Result<Vec<Node>, ParseError> {
    parse(&lex(&chars(src)).unwrap())
}

#[test]
fn parse_errors() {
    assert_eq!(parse_src("{ label 5; }"), Err(ParseError::ExpectedIdentifier(2)));
    assert_eq!(parse_src("{ return 5; }"), Err(ParseError::ExpectedSemicolon(2)));
    assert_eq!(parse_src("{ let x 5; }"), Err(ParseError::ExpectedAssign(3)));
    assert_eq!(parse_src("{ print ; }"), Err(ParseError::UnexpectedToken(2)));
    assert_eq!(parse_src("{ x; }"), Err(ParseError::StrayIdentifier(1)));
    assert_eq!(parse_src("{ = 1; }"), Err(ParseError::ImpossiblePunct(1)));
    assert_eq!(parse(&vec![Token::Keyword(chars("let"))]), Err(ParseError::UnexpectedEnd));
}

#[test]
fn serialization_writes_assembly() {
    let ast = vec![
        Node::Start,
        Node::PushInt(-4),
        Node::Print(Box::new(Node::PushBool(true))),
        Node::Input(chars("v")),
        Node::Compare(0xC4),
        Node::Logic(chars("xor")),
        Node::Exit,
    ];
    let listing_text = serialization(&ast).unwrap();
    assert_eq!(
        text(&listing_text),
        "ARC_START\nPUSH_INT -4\nPUSH_BOOL true\nPRINT\nINPUT\nSTORE v\nCOMPARE GE\nXOR\nARC_END\n"
    );
}

#[test]
fn serialization_errors() {
    assert_eq!(serialization(&vec![Node::Compare(0x01)]), Err(SerializeError::BadCompare(0x01)));
    assert_eq!(serialization(&vec![Node::Print(Box::new(Node::Exit))]), Err(SerializeError::BadPrint));
    assert_eq!(serialization(&vec![Node::Logic(chars("nand"))]), Err(SerializeError::BadLogic));
}

#[test]
fn compiler_assembly_to_bytes() {
    let listing_text = chars("ARC_START\nPUSH_INT 1\nSTORE a\nLOAD a\nPRINT\nARC_END\n");
    let code = assemble(&listing_text, Dialect::Compiler, &vec![]).unwrap();
    let mut expected = vec![0xF0, 0x11];
    expected.extend_from_slice(&1i64.to_le_bytes());
    expected.extend_from_slice(&[0x10, 1, b'a', 0x15, 1, b'a', 0xE0, 0xF1]);
    assert_eq!(code, expected);
    // LOAD_INT belongs to the standalone assembler only.
    assert_eq!(
        assemble(&chars("LOAD_INT a"), Dialect::Compiler, &vec![]),
        Err(AsmError::UnknownMnemonic(0))
    );
}

#[test]
fn preprocessor_appends_scopes_and_exit_block() {
    let src = chars("%scope lib.arc\n{ call f; }");
    let scan = scope_targets(&src);
    assert_eq!(scan.targets, vec![chars("lib.arc")]);
    assert!(!scan.malformed);
    let out = preproc(&src, &vec![chars("{ label f; return; }")]);
    assert_eq!(
        text(&out),
        "%scope lib.arc\n{ call f; }{ label HYD_EXITBLOCK; exit; label HYD_EXITBLOCK_END; }\n{ label f; return; }"
    );
    assert!(scope_targets(&chars("%scope")).malformed);
}

#[test]
fn runtime_type_error_on_float_arithmetic() {
    let (out, end) = run(compile("{ let a = 1.5 + 2; print a; }"), &[]);
    assert!(out.is_empty());
    assert_eq!(end, Outcome::Fault(VmError::TypeMismatch));
}

#[test]
fn undeclared_variable_is_a_fault() {
    let (_, end) = run(compile("{ print nothing; }"), &[]);
    assert_eq!(end, Outcome::Fault(VmError::UndefinedVariable));
}

#[test]
fn serialized_nodes_assemble_to_their_instructions() {
    let ast = vec![
        Node::Start,
        Node::Input(chars("v")),
        Node::Print(Box::new(Node::Load(chars("v")))),
        Node::PushFloat(chars("2.5")),
        Node::Let(chars("x")),
        Node::Logic(chars("and")),
        Node::Exit,
    ];
    let listing_text = serialization(&ast).unwrap();
    let bits = 2.5f64.to_bits();
    let prog = assemble_program(&listing_text, Dialect::Compiler, &vec![Some(bits)]).unwrap();
    assert_eq!(
        prog,
        vec![
            Instr::Start,
            Instr::Input,
            Instr::Store(b"v".to_vec()),
            Instr::Load(b"v".to_vec()),
            Instr::Print,
            Instr::PushDec(bits),
            Instr::Store(b"x".to_vec()),
            Instr::And,
            Instr::End,
        ]
    );
}

#[test]
fn negative_literal_runs() {
    assert_eq!(run_source("{ let x = -7; print x; print -2; }"), vec!["-7", "-2"]);
}

#[test]
fn node_lists_serialize_piece_by_piece() {
    let a = vec![Node::Start, Node::PushInt(3), Node::Label(chars("top"))];
    let b = vec![Node::Jump(chars("top")), Node::Exit];
    let mut both = vec![Node::Start, Node::PushInt(3), Node::Label(chars("top"))];
    both.push(Node::Jump(chars("top")));
    both.push(Node::Exit);
    let mut joined = serialization(&a).unwrap();
    joined.extend(serialization(&b).unwrap());
    assert_eq!(serialization(&both).unwrap(), joined);
    // The first failing node decides, whichever half it is in.
    let bad = vec![Node::Start, Node::Logic(chars("nand")), Node::Compare(0x01)];
    assert_eq!(serialization(&bad), Err(SerializeError::BadLogic));
}
