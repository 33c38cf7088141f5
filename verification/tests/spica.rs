use arcturus::assembler::{assemble, assemble_program, decimal_operands, AsmError, Dialect};
use arcturus::bytecode::{decode_instr, DecodeError, Instr};
use arcturus::disassembler::{disassemble, listing};
use arcturus::number::{parse_i64, parse_u8};
use arcturus::text::{is_alphanumeric, is_whitespace, split_whitespace};

fn chars(s: &str) -> Vec<char> {
    s.chars().collect()
}

fn std_asm(s: &str) -> Result<Vec<u8>, AsmError> {
    assemble(&chars(s), Dialect::Standalone, &vec![])
}

#[test]
fn assembler_errors() {
    assert_eq!(std_asm("ADD"), Err(AsmError::MissingOperand(0)));
    assert_eq!(std_asm("ARC_START\nADD x"), Err(AsmError::BadNumber(1)));
    assert_eq!(std_asm("ADD 256"), Err(AsmError::BadNumber(0)));
    assert_eq!(std_asm("PUSH_BOOL maybe"), Err(AsmError::BadBool(0)));
    assert_eq!(std_asm("COMPARE XX"), Err(AsmError::BadCompare(0)));
    assert_eq!(std_asm("PUSH_DEC 1.5"), Err(AsmError::MissingDecimal(0)));
    assert_eq!(
        assemble(&chars("PUSH_DEC nan-ish"), Dialect::Standalone, &vec![None]),
        Err(AsmError::BadNumber(0))
    );
    assert_eq!(std_asm("\n\nFOO 1"), Err(AsmError::UnknownMnemonic(0)));
    assert_eq!(std_asm("LOAD x"), Err(AsmError::UnknownMnemonic(0)));
}

#[test]
fn names_join_their_words() {
    let code = std_asm("PUSH_STR   hello    big   world  ").unwrap();
    assert_eq!(code, [vec![0x12, 15], b"hello big world".to_vec()].concat());
}

#[test]
fn every_mnemonic_assembles() {
    let src = "ARC_START\nADD 1\nSUB 2\nMUL 3\nDIV 4\nMOD 5\nSTORE s\nPUSH_INT -2\nPUSH_STR t\nPUSH_BOOL true\nPUSH_DEC 1.0\nLOAD_INT a\nLOAD_STR b\nLOAD_BOOL c\nLOAD_DEC d\nCOMPARE NE\nJUMP_IF j\nCALL_IF k\nAND\nOR\nNOT\nXOR\nLABEL l\nPRINT\nINPUT\nCALL m\nRET\nJUMP n\nARC_DELIM\nARC_END\n";
    let decs = decimal_operands(&chars(src));
    assert_eq!(decs, vec![chars("1.0")]);
    let code = assemble(&chars(src), Dialect::Standalone, &vec![Some(1.0f64.to_bits())]).unwrap();
    let mut expected = vec![0xF0, 0x01, 1, 0x02, 2, 0x03, 3, 0x04, 4, 0x05, 5, 0x10, 1, b's', 0x11];
    expected.extend_from_slice(&(-2i64).to_le_bytes());
    expected.extend_from_slice(&[0x12, 1, b't', 0x13, 1, 0x14]);
    expected.extend_from_slice(&1.0f64.to_le_bytes());
    expected.extend_from_slice(&[
        0x15, 1, b'a', 0x16, 1, b'b', 0x17, 1, b'c', 0x18, 1, b'd', 0xC0, 0xC8, 0xC1, 1, b'j',
        0xC2, 1, b'k', 0xD0, 0xD1, 0xD2, 0xD3, 0xD4, 1, b'l', 0xE0, 0xE1, 0xE2, 1, b'm', 0xE3,
        0xE4, 1, b'n', 0xF2, 0xF1,
    ]);
    assert_eq!(code, expected);
}

#[test]
fn disassembly_lists_back_to_the_same_bytes() {
    let src = "ARC_START\nPUSH_INT -17\nSTORE total value\nLOAD_INT total value\nPUSH_BOOL false\nCOMPARE EQ\nJUMP_IF done\nPUSH_DEC 0.25\nPRINT\nLABEL done\nADD 0\nARC_END\n";
    let bits = 0.25f64.to_bits();
    let code = assemble(&chars(src), Dialect::Standalone, &vec![Some(bits)]).unwrap();
    let program = disassemble(&code).unwrap();
    let text = listing(&program, &vec![b"0.25".to_vec()]);
    assert_eq!(String::from_utf8(text.clone()).unwrap(), src);
    let again: Vec<char> = String::from_utf8(text).unwrap().chars().collect();
    assert_eq!(assemble(&again, Dialect::Standalone, &vec![Some(bits)]).unwrap(), code);
}

#[test]
fn disassembly_reads_names_of_typed_loads() {
    let code = std_asm("LOAD_STR ab\nLOAD_BOOL flag\nLOAD_DEC x").unwrap();
    assert_eq!(code, vec![0x16, 2, b'a', b'b', 0x17, 4, b'f', b'l', b'a', b'g', 0x18, 1, b'x']);
    let program = disassemble(&code).unwrap();
    assert_eq!(
        program,
        vec![Instr::LoadStr(b"ab".to_vec()), Instr::LoadBool(b"flag".to_vec()), Instr::LoadDec(b"x".to_vec())]
    );
    let text = listing(&program, &vec![]);
    assert_eq!(text, b"LOAD_STR ab\nLOAD_BOOL flag\nLOAD_DEC x\n".to_vec());
    let again: Vec<char> = String::from_utf8(text).unwrap().chars().collect();
    assert_eq!(assemble(&again, Dialect::Standalone, &vec![]).unwrap(), code);
}

#[test]
fn disassembly_errors() {
    assert_eq!(disassemble(&vec![0xF0, 0x00, 0xF1]), Err(DecodeError::UnknownOpcode(1)));
    assert_eq!(disassemble(&vec![0xF0, 0x99]), Err(DecodeError::UnknownOpcode(1)));
    assert_eq!(disassemble(&vec![0x01]), Err(DecodeError::Truncated(0)));
    assert_eq!(disassemble(&vec![0xE4, 2, 0xC3, 0x28]), Err(DecodeError::BadText(0)));
}

#[test]
fn listing_of_odd_operands() {
    let program = vec![Instr::PushBool(7), Instr::Compare(0x01), Instr::PushDec(0)];
    assert_eq!(
        String::from_utf8(listing(&program, &vec![])).unwrap(),
        "PUSH_BOOL false\nCOMPARE UNKNOWN\nPUSH_DEC \n"
    );
}

#[test]
fn decoding_one_instruction() {
    let code = vec![0x11, 0xFF, 0xFF, 0xFF, 0xFF, 0xFF, 0xFF, 0xFF, 0xFF, 0xE0];
    assert_eq!(decode_instr(&code, 0), Ok((Instr::PushInt(-1), 9)));
    assert_eq!(decode_instr(&code, 9), Ok((Instr::Print, 10)));
}

#[test]
fn assembling_into_instructions() {
    let prog = assemble_program(&chars("ARC_START\n\nPRINT\n"), Dialect::Standalone, &vec![]).unwrap();
    assert_eq!(prog, vec![Instr::Start, Instr::Print]);
}

#[test]
fn number_texts() {
    assert_eq!(parse_i64(&chars("-9223372036854775808")), Some(i64::MIN));
    assert_eq!(parse_i64(&chars("+12")), Some(12));
    assert_eq!(parse_i64(&chars("9223372036854775808")), None);
    assert_eq!(parse_i64(&chars("-")), None);
    assert_eq!(parse_u8(&chars("255")), Some(255));
    assert_eq!(parse_u8(&chars("-1")), None);
}

#[test]
fn character_classes() {
    assert!(is_alphanumeric('٣'));
    assert!(is_alphanumeric('7'));
    assert!(is_alphanumeric('é'));
    assert!(!is_alphanumeric('-'));
    assert!(!is_alphanumeric(' '));
    assert!(is_whitespace('\u{3000}'));
    assert!(!is_whitespace('x'));
    assert_eq!(split_whitespace(&chars("  a\tbc \n")), vec![chars("a"), chars("bc")]);
}

#[test]
fn assembled_program_disassembles_to_its_instructions() {
    let prog = assemble_program(
        &chars("ARC_START\nPUSH_INT 3\nSTORE n\nLOAD_INT n\nCOMPARE LE\nCALL_IF f\nARC_END\n"),
        Dialect::Standalone,
        &vec![],
    )
    .unwrap();
    let code = arcturus::assembler::encode(&prog);
    assert_eq!(disassemble(&code).unwrap(), prog);
}

#[test]
fn integer_text_reads_back() {
    for v in [0i64, 7, -7, 1234567890, i64::MAX, i64::MIN] {
        let mut text: Vec<char> = Vec::new();
        arcturus::number::push_i64_text(v, &mut text);
        assert_eq!(text.iter().collect::<String>(), v.to_string());
        assert_eq!(parse_i64(&text), Some(v));
    }
    for v in [0u64, 9, 255] {
        let mut text: Vec<char> = Vec::new();
        arcturus::number::push_u64_text(v, &mut text);
        assert_eq!(parse_u8(&text), Some(v as u8));
    }
}

#[test]
fn long_operands_are_refused() {
    let long = format!("LABEL {}", "a".repeat(256));
    assert_eq!(std_asm(&long), Err(AsmError::LongOperand(0)));
    let fits = format!("LABEL {}", "a".repeat(255));
    let code = std_asm(&fits).unwrap();
    assert_eq!(code.len(), 257);
    assert_eq!(code[1], 255);
    // Two bytes per character: 128 of them make 256 bytes.
    let wide = format!("PUSH_STR {}", "é".repeat(128));
    assert_eq!(std_asm(&wide), Err(AsmError::LongOperand(0)));
}

#[test]
fn lines_assemble_one_by_one() {
    let first = std_asm("ARC_START\nPUSH_INT 5\nSTORE v").unwrap();
    let second = std_asm("LOAD_INT v\nPRINT\nARC_END").unwrap();
    let mut joined = first.clone();
    joined.extend(second);
    assert_eq!(std_asm("ARC_START\nPUSH_INT 5\nSTORE v\n\nLOAD_INT v\nPRINT\nARC_END").unwrap(), joined);
    // An error in the second run names its line among all non-blank lines.
    assert_eq!(std_asm("ARC_START\n\nPUSH_BOOL maybe"), Err(AsmError::BadBool(1)));
}
