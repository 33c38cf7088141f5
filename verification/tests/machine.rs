use arcturus::assembler::{assemble, Dialect};
use arcturus::bytecode::DecodeError;
use arcturus::vm::{LoadError, Outcome, Value, Vm, VmError};

fn chars(s: &str) -> Vec<char> {
    s.chars().collect()
}

fn code_of(lines: &str) -> Vec<u8> {
    assemble(&chars(lines), Dialect::Standalone, &vec![]).unwrap()
}

fn run_to_end(vm: &mut Vm) -> (Vec<Value>, Outcome) {
    let mut printed = Vec::new();
    for _ in 0..10000 {
        match vm.step() {
            Outcome::Continue => {}
            Outcome::Print(v) => printed.push(v),
            other => return (printed, other),
        }
    }
    panic!("the program did not stop");
}

fn outcome_of(lines: &str) -> (Vec<Value>, Outcome) {
    let mut vm = Vm::load(code_of(lines)).unwrap();
    run_to_end(&mut vm)
}

#[test]
fn multiply_and_print() {
    let (out, end) = outcome_of("ARC_START\nPUSH_INT 6\nPUSH_INT 7\nMUL 2\nPRINT\nARC_END\n");
    assert_eq!(out, vec![Value::Int(42)]);
    assert_eq!(end, Outcome::Halt);
}

#[test]
fn readme_assembly_example() {
    let (out, _) = outcome_of("ARC_START\nPUSH_INT 10\nPUSH_INT 32\nADD 2\nPRINT\nARC_END\n");
    assert_eq!(out, vec![Value::Int(42)]);
}

#[test]
fn subtraction_and_division_go_in_push_order() {
    let (out, _) = outcome_of(
        "ARC_START\nPUSH_INT 10\nPUSH_INT 3\nSUB 2\nPRINT\nPUSH_INT -7\nPUSH_INT 2\nDIV 2\nPRINT\nPUSH_INT -7\nPUSH_INT 3\nMOD 2\nPRINT\nARC_END\n",
    );
    assert_eq!(out, vec![Value::Int(7), Value::Int(-3), Value::Int(-1)]);
}

#[test]
fn counts_of_zero() {
    let (out, _) = outcome_of("ARC_START\nADD 0\nPRINT\nMUL 0\nPRINT\nSUB 0\nPRINT\nDIV 0\nPRINT\nARC_END\n");
    assert_eq!(out, vec![Value::Int(0), Value::Int(1), Value::Int(0), Value::Int(1)]);
}

#[test]
fn arithmetic_faults() {
    let (_, end) = outcome_of("ARC_START\nPUSH_INT 9223372036854775807\nPUSH_INT 1\nADD 2\nARC_END\n");
    assert_eq!(end, Outcome::Fault(VmError::Arithmetic));
    let (_, end) = outcome_of("ARC_START\nPUSH_INT 1\nPUSH_INT 0\nDIV 2\nARC_END\n");
    assert_eq!(end, Outcome::Fault(VmError::Arithmetic));
    let (_, end) = outcome_of("ARC_START\nPUSH_STR a\nPUSH_INT 1\nADD 2\nARC_END\n");
    assert_eq!(end, Outcome::Fault(VmError::TypeMismatch));
    let (_, end) = outcome_of("ARC_START\nPUSH_INT 1\nADD 2\nARC_END\n");
    assert_eq!(end, Outcome::Fault(VmError::StackUnderflow));
}

#[test]
fn fault_leaves_state_unchanged() {
    let mut vm = Vm::load(code_of("ARC_START\nPUSH_INT 1\nADD 2\nARC_END\n")).unwrap();
    assert_eq!(vm.step(), Outcome::Continue);
    assert_eq!(vm.step(), Outcome::Continue);
    let ip = vm.ip();
    assert_eq!(vm.step(), Outcome::Fault(VmError::StackUnderflow));
    assert_eq!(vm.ip(), ip);
    assert_eq!(vm.stack(), &vec![Value::Int(1)]);
}

#[test]
fn store_then_load() {
    let (out, _) = outcome_of("ARC_START\nPUSH_STR hi there\nSTORE v\nLOAD_INT v\nPRINT\nARC_END\n");
    assert_eq!(out, vec![Value::Str(b"hi there".to_vec())]);
}

#[test]
fn load_kinds() {
    let (out, _) = outcome_of(
        "ARC_START\nPUSH_INT 0\nSTORE z\nPUSH_INT 5\nSTORE f\nLOAD_BOOL z\nPRINT\nLOAD_BOOL f\nPRINT\nLOAD_STR f\nPRINT\nPUSH_BOOL true\nSTORE b\nLOAD_STR b\nPRINT\nARC_END\n",
    );
    assert_eq!(
        out,
        vec![Value::Bool(false), Value::Bool(true), Value::Str(b"5".to_vec()), Value::Str(b"true".to_vec())]
    );
}

#[test]
fn compare_and_logic() {
    let (out, _) = outcome_of(
        "ARC_START\nPUSH_INT 3\nPUSH_INT 4\nCOMPARE LT\nPUSH_INT 3\nPUSH_INT 4\nCOMPARE GE\nOR\nPRINT\nPUSH_BOOL true\nNOT\nPRINT\nPUSH_BOOL true\nPUSH_BOOL true\nXOR\nPRINT\nARC_END\n",
    );
    assert_eq!(out, vec![Value::Bool(true), Value::Bool(false), Value::Bool(false)]);
}

#[test]
fn push_bool_reads_its_operand() {
    let (out, _) = outcome_of("ARC_START\nPUSH_BOOL false\nPRINT\nARC_END\n");
    assert_eq!(out, vec![Value::Bool(false)]);
}

#[test]
fn jumps_and_calls() {
    let src = "ARC_START\nCALL f\nPUSH_BOOL true\nJUMP_IF skip\nPUSH_INT 1\nPRINT\nLABEL skip\nPUSH_INT 2\nPRINT\nARC_END\nLABEL f\nPUSH_INT 0\nPRINT\nRET\n";
    let mut code = code_of(src);
    code.push(0xF1);
    let mut vm = Vm::load(code).unwrap();
    let (out, end) = run_to_end(&mut vm);
    assert_eq!(out, vec![Value::Int(0), Value::Int(2)]);
    assert_eq!(end, Outcome::Halt);
}

#[test]
fn call_then_ret_restores_position() {
    let mut code = code_of("ARC_START\nCALL f\nARC_END\nLABEL f\nRET\n");
    code.push(0xF1);
    let mut vm = Vm::load(code).unwrap();
    assert_eq!(vm.step(), Outcome::Continue);
    assert_eq!(vm.step(), Outcome::Continue);
    assert_eq!(vm.calls(), &vec![4usize]);
    assert_eq!(vm.step(), Outcome::Continue);
    assert_eq!(vm.step(), Outcome::Continue);
    assert_eq!(vm.ip(), 4);
    assert!(vm.calls().is_empty());
    assert_eq!(vm.step(), Outcome::Halt);
}

#[test]
fn control_flow_faults() {
    let (_, end) = outcome_of("ARC_START\nJUMP nowhere\nARC_END\n");
    assert_eq!(end, Outcome::Fault(VmError::UndefinedLabel));
    let (_, end) = outcome_of("ARC_START\nRET\nARC_END\n");
    assert_eq!(end, Outcome::Fault(VmError::EmptyCallStack));
    let (_, end) = outcome_of("ARC_START\nLOAD_INT missing\nARC_END\n");
    assert_eq!(end, Outcome::Fault(VmError::UndefinedVariable));
    let (_, end) = outcome_of("ARC_START\nPUSH_INT 1\nPUSH_INT 2\nAND\nARC_END\n");
    assert_eq!(end, Outcome::Fault(VmError::TypeMismatch));
    let mut vm = Vm::load(vec![0xF0, 0x11, 1, 0, 0, 0, 0, 0, 0, 0, 0x11, 2, 0, 0, 0, 0, 0, 0, 0, 0xC0, 0x00, 0xF1]).unwrap();
    let (_, end) = run_to_end(&mut vm);
    assert_eq!(end, Outcome::Fault(VmError::UnknownComparison));
}

#[test]
fn unknown_and_unreadable_bytes() {
    let mut vm = Vm::load(vec![0xF0, 0x77, 0xF1]).unwrap();
    assert_eq!(vm.step(), Outcome::Continue);
    assert_eq!(vm.step(), Outcome::UnknownOpcode(0x77, 1));
    let mut vm = Vm::load(vec![0xF0, 0x12, 2, 0xFF, 0xFE, 0xF1]).unwrap();
    assert_eq!(vm.step(), Outcome::Continue);
    assert_eq!(vm.step(), Outcome::Fault(VmError::Decode(DecodeError::BadText(1))));
    let mut vm = Vm::load(vec![0xF0, 0x11, 1, 0xF1]).unwrap();
    assert_eq!(vm.step(), Outcome::Continue);
    assert_eq!(vm.step(), Outcome::Fault(VmError::Decode(DecodeError::Truncated(1))));
}

#[test]
fn load_errors() {
    assert!(matches!(Vm::load(vec![]), Err(LoadError::Empty)));
    assert!(matches!(Vm::load(vec![0xF0, 0xE0]), Err(LoadError::BadFrame)));
    assert!(matches!(Vm::load(vec![0xF0, 0xD4, 9, 0xF1]), Err(LoadError::Label(DecodeError::Truncated(1)))));
    assert!(matches!(Vm::load(vec![0xF0, 0xD4, 1, 0xFF, 0xF1]), Err(LoadError::Label(DecodeError::BadText(1)))));
}

#[test]
fn input_resumes_with_a_trimmed_string() {
    let mut vm = Vm::load(code_of("ARC_START\nINPUT\nPRINT\nARC_END\n")).unwrap();
    assert_eq!(vm.resume_input(&chars("early")), Err(VmError::NotWaiting));
    assert_eq!(vm.step(), Outcome::Continue);
    assert_eq!(vm.step(), Outcome::NeedInput);
    assert_eq!(vm.step(), Outcome::NeedInput);
    assert_eq!(vm.resume_input(&chars("\t 42 \n")), Ok(()));
    assert_eq!(vm.step(), Outcome::Print(Value::Str(b"42".to_vec())));
}

#[test]
fn float_loads_ask_the_caller() {
    let bits = 2.5f64.to_bits();
    let mut vm = Vm::load(
        assemble(
            &chars("ARC_START\nPUSH_DEC 2.5\nSTORE d\nLOAD_DEC d\nPRINT\nLOAD_STR d\nPRINT\nARC_END\n"),
            Dialect::Standalone,
            &vec![Some(bits)],
        )
        .unwrap(),
    )
    .unwrap();
    assert_eq!(vm.step(), Outcome::Continue);
    assert_eq!(vm.step(), Outcome::Continue);
    assert_eq!(vm.step(), Outcome::Continue);
    assert_eq!(vm.step(), Outcome::NeedFloat(Value::Float(bits)));
    assert_eq!(vm.resume_text(&chars("2.5")), Err(VmError::NotWaiting));
    assert_eq!(vm.resume_float(None), Err(VmError::BadFloat));
    assert_eq!(vm.resume_float(Some(bits)), Ok(()));
    assert_eq!(vm.step(), Outcome::Print(Value::Float(bits)));
    assert_eq!(vm.step(), Outcome::NeedText(bits));
    assert_eq!(vm.resume_text(&chars("2.5")), Ok(()));
    assert_eq!(vm.step(), Outcome::Print(Value::Str(b"2.5".to_vec())));
    assert_eq!(vm.step(), Outcome::Halt);
}

#[test]
fn labels_point_at_label_instructions() {
    let code = code_of("ARC_START\nLABEL here\nARC_END\n");
    let vm = Vm::load(code.clone()).unwrap();
    let entries = &vm.labels().entries;
    assert_eq!(entries.len(), 1);
    assert_eq!(entries[0].0, b"here".to_vec());
    let at = entries[0].1;
    assert_eq!(code[at], 0xD4);
    assert_eq!(at, 1);
}

#[test]
fn running_past_the_end_halts() {
    let mut vm = Vm::load(vec![0xF0, 0xF2, 0x00, 0xF1]).unwrap();
    assert_eq!(vm.step(), Outcome::Continue);
    assert_eq!(vm.step(), Outcome::Continue);
    assert_eq!(vm.step(), Outcome::Continue);
    assert_eq!(vm.step(), Outcome::Halt);
    assert_eq!(vm.ip(), 3);
}

#[test]
fn value_texts() {
    assert_eq!(Value::Int(-120).text(), Some(b"-120".to_vec()));
    assert_eq!(Value::Int(i64::MIN).text(), Some(b"-9223372036854775808".to_vec()));
    assert_eq!(Value::Bool(true).text(), Some(b"true".to_vec()));
    assert_eq!(Value::Str(b"x y".to_vec()).text(), Some(b"x y".to_vec()));
    assert_eq!(Value::Float(1.5f64.to_bits()).text(), None);
}

#[test]
fn halted_machine_stays_halted() {
    let mut vm = Vm::load(code_of("ARC_START\nPUSH_INT 1\nARC_END\n")).unwrap();
    assert_eq!(vm.step(), Outcome::Continue);
    assert_eq!(vm.step(), Outcome::Continue);
    let ip = vm.ip();
    assert_eq!(vm.step(), Outcome::Halt);
    assert_eq!(vm.ip(), ip);
    assert_eq!(vm.step(), Outcome::Halt);
    assert_eq!(vm.stack(), &vec![Value::Int(1)]);
}
