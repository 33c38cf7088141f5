//! What the disassembler's listing promises: the standalone assembler reads
//! it back as the instructions it was written from, so that a program
//! disassembled and assembled again is the same bytecode.
use vstd::prelude::*;
use vstd::utf8::{
    decode_utf8, decode_utf8_encode_utf8, encode_scalar, encode_utf8, encode_utf8_decode_utf8,
    leading_byte_width_1, valid_utf8,
};

use crate::assembler::{
    assemble_fold, assemble_words, bare_mnemonic, count_instr, count_opcode, push_dec_word,
    spec_assemble, spec_assemble_program, text_mnemonic, AsmError, Dialect,
};
use crate::bytecode::{encode_program, text_instr, DecodeError, InstrV};
use crate::disassembler::{
    compare_text, disassemble_from, lemma_disassembled_encodes_back, listing_fold, listing_line,
    spec_listing,
};
use crate::encoding::lemma_encode_concat;
use crate::number::{
    decimal, lemma_i64_text_round_trip, lemma_int_text_is_word, lemma_u8_text_round_trip,
    spec_int_text,
};
use crate::text::{
    closed_lines, lemma_closed_lines_split, lemma_join_one_line, lemma_join_shift,
    lemma_one_line_after_word, lemma_words_are_nonempty_and_unbroken, lemma_words_of_unbroken,
    lemma_words_split_at_space, one_line, spec_is_whitespace, spec_join_from, spec_split_newlines,
    spec_words, unbroken,
};

verus! {

/// The mnemonic that starts the listing line of an instruction.
pub open spec fn mnemonic(i: InstrV) -> Seq<char> {
    match i {
        InstrV::Add(_) => seq!['A', 'D', 'D'],
        InstrV::Sub(_) => seq!['S', 'U', 'B'],
        InstrV::Mul(_) => seq!['M', 'U', 'L'],
        InstrV::Div(_) => seq!['D', 'I', 'V'],
        InstrV::Mod(_) => seq!['M', 'O', 'D'],
        InstrV::Store(_) => seq!['S', 'T', 'O', 'R', 'E'],
        InstrV::PushInt(_) => seq!['P', 'U', 'S', 'H', '_', 'I', 'N', 'T'],
        InstrV::PushStr(_) => seq!['P', 'U', 'S', 'H', '_', 'S', 'T', 'R'],
        InstrV::PushBool(_) => seq!['P', 'U', 'S', 'H', '_', 'B', 'O', 'O', 'L'],
        InstrV::PushDec(_) => seq!['P', 'U', 'S', 'H', '_', 'D', 'E', 'C'],
        InstrV::Load(_) => seq!['L', 'O', 'A', 'D', '_', 'I', 'N', 'T'],
        InstrV::LoadStr(_) => seq!['L', 'O', 'A', 'D', '_', 'S', 'T', 'R'],
        InstrV::LoadBool(_) => seq!['L', 'O', 'A', 'D', '_', 'B', 'O', 'O', 'L'],
        InstrV::LoadDec(_) => seq!['L', 'O', 'A', 'D', '_', 'D', 'E', 'C'],
        InstrV::Compare(_) => seq!['C', 'O', 'M', 'P', 'A', 'R', 'E'],
        InstrV::JumpIf(_) => seq!['J', 'U', 'M', 'P', '_', 'I', 'F'],
        InstrV::CallIf(_) => seq!['C', 'A', 'L', 'L', '_', 'I', 'F'],
        InstrV::And => seq!['A', 'N', 'D'],
        InstrV::Or => seq!['O', 'R'],
        InstrV::Not => seq!['N', 'O', 'T'],
        InstrV::Xor => seq!['X', 'O', 'R'],
        InstrV::Label(_) => seq!['L', 'A', 'B', 'E', 'L'],
        InstrV::Print => seq!['P', 'R', 'I', 'N', 'T'],
        InstrV::Input => seq!['I', 'N', 'P', 'U', 'T'],
        InstrV::Call(_) => seq!['C', 'A', 'L', 'L'],
        InstrV::Ret => seq!['R', 'E', 'T'],
        InstrV::Jump(_) => seq!['J', 'U', 'M', 'P'],
        InstrV::Start => seq!['A', 'R', 'C', '_', 'S', 'T', 'A', 'R', 'T'],
        InstrV::End => seq!['A', 'R', 'C', '_', 'E', 'N', 'D'],
        InstrV::Delim => seq!['A', 'R', 'C', '_', 'D', 'E', 'L', 'I', 'M'],
        InstrV::Nop => seq![],
    }
}

/// The operand text of the listing line of an instruction, if it has one;
/// `dec` is the text of a float constant.
pub open spec fn operand(i: InstrV, dec: Seq<char>) -> Option<Seq<char>> {
    match i {
        InstrV::Add(c) => Some(decimal(c as nat)),
        InstrV::Sub(c) => Some(decimal(c as nat)),
        InstrV::Mul(c) => Some(decimal(c as nat)),
        InstrV::Div(c) => Some(decimal(c as nat)),
        InstrV::Mod(c) => Some(decimal(c as nat)),
        InstrV::Store(n) => Some(decode_utf8(n)),
        InstrV::PushInt(v) => Some(spec_int_text(v as int)),
        InstrV::PushStr(n) => Some(decode_utf8(n)),
        InstrV::PushBool(b) => Some(bool_word(b)),
        InstrV::PushDec(_) => Some(dec),
        InstrV::Load(n) => Some(decode_utf8(n)),
        InstrV::LoadStr(n) => Some(decode_utf8(n)),
        InstrV::LoadBool(n) => Some(decode_utf8(n)),
        InstrV::LoadDec(n) => Some(decode_utf8(n)),
        InstrV::Compare(c) => Some(compare_word(c)),
        InstrV::JumpIf(n) => Some(decode_utf8(n)),
        InstrV::CallIf(n) => Some(decode_utf8(n)),
        InstrV::Label(n) => Some(decode_utf8(n)),
        InstrV::Call(n) => Some(decode_utf8(n)),
        InstrV::Jump(n) => Some(decode_utf8(n)),
        _ => None,
    }
}

/// The operand text of `PUSH_BOOL`.
pub open spec fn bool_word(b: u8) -> Seq<char> {
    if b == 1 {
        seq!['t', 'r', 'u', 'e']
    } else {
        seq!['f', 'a', 'l', 's', 'e']
    }
}

/// The operand text of `COMPARE`.
pub open spec fn compare_word(c: u8) -> Seq<char> {
    if c == 0xC3 {
        seq!['E', 'Q']
    } else if c == 0xC5 {
        seq!['G', 'T']
    } else if c == 0xC4 {
        seq!['G', 'E']
    } else if c == 0xC7 {
        seq!['L', 'T']
    } else if c == 0xC6 {
        seq!['L', 'E']
    } else if c == 0xC8 {
        seq!['N', 'E']
    } else {
        seq!['U', 'N', 'K', 'N', 'O', 'W', 'N']
    }
}

/// The listing line of an instruction as text, without its newline.
pub open spec fn line_text(i: InstrV, dec: Seq<char>) -> Seq<char> {
    match operand(i, dec) {
        Some(o) => mnemonic(i) + seq![' '] + o,
        None => mnemonic(i),
    }
}

/// The listing lines of instructions as text, and how many float constants
/// they used; `decs[k]` is the text of the `k`-th float constant.
pub open spec fn listing_lines(is: Seq<InstrV>, decs: Seq<Seq<char>>) -> (Seq<Seq<char>>, nat)
    decreases is.len(),
{
    if is.len() == 0 {
        (seq![], 0)
    } else {
        let (ls, k) = listing_lines(is.drop_last(), decs);
        let dec = if k < decs.len() {
            decs[k as int]
        } else {
            seq![]
        };
        (
            ls.push(line_text(is.last(), dec)),
            if is.last() is PushDec {
                k + 1
            } else {
                k
            },
        )
    }
}

/// The listing of instructions as text.
pub open spec fn listing_text(is: Seq<InstrV>, decs: Seq<Seq<char>>) -> Seq<char> {
    closed_lines(listing_lines(is, decs).0)
}

/// The name or string operand of an instruction, if it has one.
pub open spec fn name_of(i: InstrV) -> Option<Seq<u8>> {
    match i {
        InstrV::Store(n) => Some(n),
        InstrV::PushStr(n) => Some(n),
        InstrV::Load(n) => Some(n),
        InstrV::LoadStr(n) => Some(n),
        InstrV::LoadBool(n) => Some(n),
        InstrV::LoadDec(n) => Some(n),
        InstrV::JumpIf(n) => Some(n),
        InstrV::CallIf(n) => Some(n),
        InstrV::Label(n) => Some(n),
        InstrV::Call(n) => Some(n),
        InstrV::Jump(n) => Some(n),
        _ => None,
    }
}

/// UTF-8 text made of words with one space between two of them, of fewer
/// than 256 bytes: the only operand text that reads back as written.
pub open spec fn spaced_text(n: Seq<u8>) -> bool {
    &&& valid_utf8(n)
    &&& spec_join_from(spec_words(decode_utf8(n)), 0) == decode_utf8(n)
    &&& n.len() < 256
}

/// An instruction whose listing line the standalone assembler reads back as
/// the same instruction: its name or string is spaced text, `PUSH_BOOL`
/// holds 0 or 1, `COMPARE` a known comparison, and it is no `0x00`.
pub open spec fn lists_back(i: InstrV) -> bool {
    &&& !(i is Nop)
    &&& (i matches InstrV::PushBool(b) ==> b <= 1)
    &&& (i matches InstrV::Compare(c) ==> 0xC3 <= c <= 0xC8)
    &&& (name_of(i) matches Some(n) ==> spaced_text(n))
}

/// The bit patterns of the `PUSH_DEC` operands, in order.
pub open spec fn dec_bits(is: Seq<InstrV>) -> Seq<u64>
    decreases is.len(),
{
    if is.len() == 0 {
        seq![]
    } else {
        match is.last() {
            InstrV::PushDec(b) => dec_bits(is.drop_last()).push(b),
            _ => dec_bits(is.drop_last()),
        }
    }
}

/// The UTF-8 encoding of ASCII text is its character codes.
proof fn lemma_encode_ascii(s: Seq<char>)
    requires
        forall|i: int| 0 <= i < s.len() ==> (#[trigger] s[i] as u32) < 128,
    ensures
        encode_utf8(s) == s.map_values(|c: char| (c as u32) as u8),
    decreases s.len(),
{
    if s.len() > 0 {
        lemma_encode_ascii(s.drop_first());
        let x = s[0] as u32;
        assert((x & 0x7F) == x) by (bit_vector)
            requires
                x < 128,
        ;
        assert(encode_scalar(x) == seq![leading_byte_width_1(x)]);
        assert(encode_utf8(s) =~= s.map_values(|c: char| (c as u32) as u8));
    }
}

proof fn lemma_bool_word_bytes(b: u8)
    ensures
        encode_utf8(bool_word(b)) == if b == 1 {
            seq![116u8, 114u8, 117u8, 101u8]
        } else {
            seq![102u8, 97u8, 108u8, 115u8, 101u8]
        },
{
    lemma_encode_ascii(bool_word(b));
    assert(encode_utf8(bool_word(b)) =~= if b == 1 {
        seq![116u8, 114u8, 117u8, 101u8]
    } else {
        seq![102u8, 97u8, 108u8, 115u8, 101u8]
    });
}

proof fn lemma_compare_word_bytes(c: u8)
    ensures
        encode_utf8(compare_word(c)) == compare_text(c),
{
    lemma_encode_ascii(compare_word(c));
    assert(encode_utf8(compare_word(c)) =~= compare_text(c));
}

/// A line with an operand: its mnemonic, a space, the operand and a newline.
proof fn lemma_operand_line_bytes(m: Seq<char>, o: Seq<char>, prefix: Seq<u8>)
    requires
        encode_utf8(m + seq![' ']) == prefix,
    ensures
        encode_utf8((m + seq![' '] + o).push('\n')) == prefix + encode_utf8(o) + seq![10u8],
{
    let nl = seq!['\n'];
    lemma_encode_ascii(nl);
    assert(encode_utf8(nl) =~= seq![10u8]);
    let a = m + seq![' '];
    assert((a + o).push('\n') =~= a + o + nl);
    lemma_encode_concat(a + o, nl);
    lemma_encode_concat(a, o);
}

/// The listing line of an instruction, as the disassembler writes it in
/// bytes, is the UTF-8 encoding of its text.
proof fn lemma_line_bytes(i: InstrV, dec: Seq<char>)
    requires
        !(i is Nop),
        name_of(i) matches Some(n) ==> valid_utf8(n),
    ensures
        encode_utf8(line_text(i, dec).push('\n')) == listing_line(i, encode_utf8(dec)),
{
    match i {
        InstrV::Add(c) => {
            lemma_encode_ascii(seq!['A', 'D', 'D', ' ']);
            assert(encode_utf8(seq!['A', 'D', 'D', ' ']) =~= seq![65u8, 68u8, 68u8, 32u8]);
            assert(seq!['A', 'D', 'D'] + seq![' '] =~= seq!['A', 'D', 'D', ' ']);
            lemma_operand_line_bytes(seq!['A', 'D', 'D'], decimal(c as nat), seq![65u8, 68u8, 68u8, 32u8]);
        },
        InstrV::Sub(c) => {
            lemma_encode_ascii(seq!['S', 'U', 'B', ' ']);
            assert(encode_utf8(seq!['S', 'U', 'B', ' ']) =~= seq![83u8, 85u8, 66u8, 32u8]);
            assert(seq!['S', 'U', 'B'] + seq![' '] =~= seq!['S', 'U', 'B', ' ']);
            lemma_operand_line_bytes(seq!['S', 'U', 'B'], decimal(c as nat), seq![83u8, 85u8, 66u8, 32u8]);
        },
        InstrV::Mul(c) => {
            lemma_encode_ascii(seq!['M', 'U', 'L', ' ']);
            assert(encode_utf8(seq!['M', 'U', 'L', ' ']) =~= seq![77u8, 85u8, 76u8, 32u8]);
            assert(seq!['M', 'U', 'L'] + seq![' '] =~= seq!['M', 'U', 'L', ' ']);
            lemma_operand_line_bytes(seq!['M', 'U', 'L'], decimal(c as nat), seq![77u8, 85u8, 76u8, 32u8]);
        },
        InstrV::Div(c) => {
            lemma_encode_ascii(seq!['D', 'I', 'V', ' ']);
            assert(encode_utf8(seq!['D', 'I', 'V', ' ']) =~= seq![68u8, 73u8, 86u8, 32u8]);
            assert(seq!['D', 'I', 'V'] + seq![' '] =~= seq!['D', 'I', 'V', ' ']);
            lemma_operand_line_bytes(seq!['D', 'I', 'V'], decimal(c as nat), seq![68u8, 73u8, 86u8, 32u8]);
        },
        InstrV::Mod(c) => {
            lemma_encode_ascii(seq!['M', 'O', 'D', ' ']);
            assert(encode_utf8(seq!['M', 'O', 'D', ' ']) =~= seq![77u8, 79u8, 68u8, 32u8]);
            assert(seq!['M', 'O', 'D'] + seq![' '] =~= seq!['M', 'O', 'D', ' ']);
            lemma_operand_line_bytes(seq!['M', 'O', 'D'], decimal(c as nat), seq![77u8, 79u8, 68u8, 32u8]);
        },
        InstrV::Store(x) => {
            lemma_encode_ascii(seq!['S', 'T', 'O', 'R', 'E', ' ']);
            assert(encode_utf8(seq!['S', 'T', 'O', 'R', 'E', ' ']) =~= seq![83u8, 84u8, 79u8, 82u8, 69u8, 32u8]);
            assert(seq!['S', 'T', 'O', 'R', 'E'] + seq![' '] =~= seq!['S', 'T', 'O', 'R', 'E', ' ']);
            lemma_operand_line_bytes(seq!['S', 'T', 'O', 'R', 'E'], decode_utf8(x), seq![83u8, 84u8, 79u8, 82u8, 69u8, 32u8]);
            decode_utf8_encode_utf8(x);
        },
        InstrV::PushInt(v) => {
            lemma_encode_ascii(seq!['P', 'U', 'S', 'H', '_', 'I', 'N', 'T', ' ']);
            assert(encode_utf8(seq!['P', 'U', 'S', 'H', '_', 'I', 'N', 'T', ' ']) =~= seq![80u8, 85u8, 83u8, 72u8, 95u8, 73u8, 78u8, 84u8, 32u8]);
            assert(seq!['P', 'U', 'S', 'H', '_', 'I', 'N', 'T'] + seq![' '] =~= seq!['P', 'U', 'S', 'H', '_', 'I', 'N', 'T', ' ']);
            lemma_operand_line_bytes(seq!['P', 'U', 'S', 'H', '_', 'I', 'N', 'T'], spec_int_text(v as int), seq![80u8, 85u8, 83u8, 72u8, 95u8, 73u8, 78u8, 84u8, 32u8]);
        },
        InstrV::PushStr(x) => {
            lemma_encode_ascii(seq!['P', 'U', 'S', 'H', '_', 'S', 'T', 'R', ' ']);
            assert(encode_utf8(seq!['P', 'U', 'S', 'H', '_', 'S', 'T', 'R', ' ']) =~= seq![80u8, 85u8, 83u8, 72u8, 95u8, 83u8, 84u8, 82u8, 32u8]);
            assert(seq!['P', 'U', 'S', 'H', '_', 'S', 'T', 'R'] + seq![' '] =~= seq!['P', 'U', 'S', 'H', '_', 'S', 'T', 'R', ' ']);
            lemma_operand_line_bytes(seq!['P', 'U', 'S', 'H', '_', 'S', 'T', 'R'], decode_utf8(x), seq![80u8, 85u8, 83u8, 72u8, 95u8, 83u8, 84u8, 82u8, 32u8]);
            decode_utf8_encode_utf8(x);
        },
        InstrV::PushBool(b) => {
            lemma_encode_ascii(seq!['P', 'U', 'S', 'H', '_', 'B', 'O', 'O', 'L', ' ']);
            assert(encode_utf8(seq!['P', 'U', 'S', 'H', '_', 'B', 'O', 'O', 'L', ' ']) =~= seq![80u8, 85u8, 83u8, 72u8, 95u8, 66u8, 79u8, 79u8, 76u8, 32u8]);
            assert(seq!['P', 'U', 'S', 'H', '_', 'B', 'O', 'O', 'L'] + seq![' '] =~= seq!['P', 'U', 'S', 'H', '_', 'B', 'O', 'O', 'L', ' ']);
            lemma_operand_line_bytes(seq!['P', 'U', 'S', 'H', '_', 'B', 'O', 'O', 'L'], bool_word(b), seq![80u8, 85u8, 83u8, 72u8, 95u8, 66u8, 79u8, 79u8, 76u8, 32u8]);
            lemma_bool_word_bytes(b);
        },
        InstrV::PushDec(_) => {
            lemma_encode_ascii(seq!['P', 'U', 'S', 'H', '_', 'D', 'E', 'C', ' ']);
            assert(encode_utf8(seq!['P', 'U', 'S', 'H', '_', 'D', 'E', 'C', ' ']) =~= seq![80u8, 85u8, 83u8, 72u8, 95u8, 68u8, 69u8, 67u8, 32u8]);
            assert(seq!['P', 'U', 'S', 'H', '_', 'D', 'E', 'C'] + seq![' '] =~= seq!['P', 'U', 'S', 'H', '_', 'D', 'E', 'C', ' ']);
            lemma_operand_line_bytes(seq!['P', 'U', 'S', 'H', '_', 'D', 'E', 'C'], dec, seq![80u8, 85u8, 83u8, 72u8, 95u8, 68u8, 69u8, 67u8, 32u8]);
        },
        InstrV::Load(x) => {
            lemma_encode_ascii(seq!['L', 'O', 'A', 'D', '_', 'I', 'N', 'T', ' ']);
            assert(encode_utf8(seq!['L', 'O', 'A', 'D', '_', 'I', 'N', 'T', ' ']) =~= seq![76u8, 79u8, 65u8, 68u8, 95u8, 73u8, 78u8, 84u8, 32u8]);
            assert(seq!['L', 'O', 'A', 'D', '_', 'I', 'N', 'T'] + seq![' '] =~= seq!['L', 'O', 'A', 'D', '_', 'I', 'N', 'T', ' ']);
            lemma_operand_line_bytes(seq!['L', 'O', 'A', 'D', '_', 'I', 'N', 'T'], decode_utf8(x), seq![76u8, 79u8, 65u8, 68u8, 95u8, 73u8, 78u8, 84u8, 32u8]);
            decode_utf8_encode_utf8(x);
        },
        InstrV::LoadStr(x) => {
            lemma_encode_ascii(seq!['L', 'O', 'A', 'D', '_', 'S', 'T', 'R', ' ']);
            assert(encode_utf8(seq!['L', 'O', 'A', 'D', '_', 'S', 'T', 'R', ' ']) =~= seq![76u8, 79u8, 65u8, 68u8, 95u8, 83u8, 84u8, 82u8, 32u8]);
            assert(seq!['L', 'O', 'A', 'D', '_', 'S', 'T', 'R'] + seq![' '] =~= seq!['L', 'O', 'A', 'D', '_', 'S', 'T', 'R', ' ']);
            lemma_operand_line_bytes(seq!['L', 'O', 'A', 'D', '_', 'S', 'T', 'R'], decode_utf8(x), seq![76u8, 79u8, 65u8, 68u8, 95u8, 83u8, 84u8, 82u8, 32u8]);
            decode_utf8_encode_utf8(x);
        },
        InstrV::LoadBool(x) => {
            lemma_encode_ascii(seq!['L', 'O', 'A', 'D', '_', 'B', 'O', 'O', 'L', ' ']);
            assert(encode_utf8(seq!['L', 'O', 'A', 'D', '_', 'B', 'O', 'O', 'L', ' ']) =~= seq![76u8, 79u8, 65u8, 68u8, 95u8, 66u8, 79u8, 79u8, 76u8, 32u8]);
            assert(seq!['L', 'O', 'A', 'D', '_', 'B', 'O', 'O', 'L'] + seq![' '] =~= seq!['L', 'O', 'A', 'D', '_', 'B', 'O', 'O', 'L', ' ']);
            lemma_operand_line_bytes(seq!['L', 'O', 'A', 'D', '_', 'B', 'O', 'O', 'L'], decode_utf8(x), seq![76u8, 79u8, 65u8, 68u8, 95u8, 66u8, 79u8, 79u8, 76u8, 32u8]);
            decode_utf8_encode_utf8(x);
        },
        InstrV::LoadDec(x) => {
            lemma_encode_ascii(seq!['L', 'O', 'A', 'D', '_', 'D', 'E', 'C', ' ']);
            assert(encode_utf8(seq!['L', 'O', 'A', 'D', '_', 'D', 'E', 'C', ' ']) =~= seq![76u8, 79u8, 65u8, 68u8, 95u8, 68u8, 69u8, 67u8, 32u8]);
            assert(seq!['L', 'O', 'A', 'D', '_', 'D', 'E', 'C'] + seq![' '] =~= seq!['L', 'O', 'A', 'D', '_', 'D', 'E', 'C', ' ']);
            lemma_operand_line_bytes(seq!['L', 'O', 'A', 'D', '_', 'D', 'E', 'C'], decode_utf8(x), seq![76u8, 79u8, 65u8, 68u8, 95u8, 68u8, 69u8, 67u8, 32u8]);
            decode_utf8_encode_utf8(x);
        },
        InstrV::Compare(c) => {
            lemma_encode_ascii(seq!['C', 'O', 'M', 'P', 'A', 'R', 'E', ' ']);
            assert(encode_utf8(seq!['C', 'O', 'M', 'P', 'A', 'R', 'E', ' ']) =~= seq![67u8, 79u8, 77u8, 80u8, 65u8, 82u8, 69u8, 32u8]);
            assert(seq!['C', 'O', 'M', 'P', 'A', 'R', 'E'] + seq![' '] =~= seq!['C', 'O', 'M', 'P', 'A', 'R', 'E', ' ']);
            lemma_operand_line_bytes(seq!['C', 'O', 'M', 'P', 'A', 'R', 'E'], compare_word(c), seq![67u8, 79u8, 77u8, 80u8, 65u8, 82u8, 69u8, 32u8]);
            lemma_compare_word_bytes(c);
        },
        InstrV::JumpIf(x) => {
            lemma_encode_ascii(seq!['J', 'U', 'M', 'P', '_', 'I', 'F', ' ']);
            assert(encode_utf8(seq!['J', 'U', 'M', 'P', '_', 'I', 'F', ' ']) =~= seq![74u8, 85u8, 77u8, 80u8, 95u8, 73u8, 70u8, 32u8]);
            assert(seq!['J', 'U', 'M', 'P', '_', 'I', 'F'] + seq![' '] =~= seq!['J', 'U', 'M', 'P', '_', 'I', 'F', ' ']);
            lemma_operand_line_bytes(seq!['J', 'U', 'M', 'P', '_', 'I', 'F'], decode_utf8(x), seq![74u8, 85u8, 77u8, 80u8, 95u8, 73u8, 70u8, 32u8]);
            decode_utf8_encode_utf8(x);
        },
        InstrV::CallIf(x) => {
            lemma_encode_ascii(seq!['C', 'A', 'L', 'L', '_', 'I', 'F', ' ']);
            assert(encode_utf8(seq!['C', 'A', 'L', 'L', '_', 'I', 'F', ' ']) =~= seq![67u8, 65u8, 76u8, 76u8, 95u8, 73u8, 70u8, 32u8]);
            assert(seq!['C', 'A', 'L', 'L', '_', 'I', 'F'] + seq![' '] =~= seq!['C', 'A', 'L', 'L', '_', 'I', 'F', ' ']);
            lemma_operand_line_bytes(seq!['C', 'A', 'L', 'L', '_', 'I', 'F'], decode_utf8(x), seq![67u8, 65u8, 76u8, 76u8, 95u8, 73u8, 70u8, 32u8]);
            decode_utf8_encode_utf8(x);
        },
        InstrV::And => {
            lemma_encode_ascii(seq!['A', 'N', 'D', '\n']);
            assert(line_text(i, dec).push('\n') =~= seq!['A', 'N', 'D', '\n']);
            assert(encode_utf8(seq!['A', 'N', 'D', '\n']) =~= seq![65u8, 78u8, 68u8, 10u8]);
        },
        InstrV::Or => {
            lemma_encode_ascii(seq!['O', 'R', '\n']);
            assert(line_text(i, dec).push('\n') =~= seq!['O', 'R', '\n']);
            assert(encode_utf8(seq!['O', 'R', '\n']) =~= seq![79u8, 82u8, 10u8]);
        },
        InstrV::Not => {
            lemma_encode_ascii(seq!['N', 'O', 'T', '\n']);
            assert(line_text(i, dec).push('\n') =~= seq!['N', 'O', 'T', '\n']);
            assert(encode_utf8(seq!['N', 'O', 'T', '\n']) =~= seq![78u8, 79u8, 84u8, 10u8]);
        },
        InstrV::Xor => {
            lemma_encode_ascii(seq!['X', 'O', 'R', '\n']);
            assert(line_text(i, dec).push('\n') =~= seq!['X', 'O', 'R', '\n']);
            assert(encode_utf8(seq!['X', 'O', 'R', '\n']) =~= seq![88u8, 79u8, 82u8, 10u8]);
        },
        InstrV::Label(x) => {
            lemma_encode_ascii(seq!['L', 'A', 'B', 'E', 'L', ' ']);
            assert(encode_utf8(seq!['L', 'A', 'B', 'E', 'L', ' ']) =~= seq![76u8, 65u8, 66u8, 69u8, 76u8, 32u8]);
            assert(seq!['L', 'A', 'B', 'E', 'L'] + seq![' '] =~= seq!['L', 'A', 'B', 'E', 'L', ' ']);
            lemma_operand_line_bytes(seq!['L', 'A', 'B', 'E', 'L'], decode_utf8(x), seq![76u8, 65u8, 66u8, 69u8, 76u8, 32u8]);
            decode_utf8_encode_utf8(x);
        },
        InstrV::Print => {
            lemma_encode_ascii(seq!['P', 'R', 'I', 'N', 'T', '\n']);
            assert(line_text(i, dec).push('\n') =~= seq!['P', 'R', 'I', 'N', 'T', '\n']);
            assert(encode_utf8(seq!['P', 'R', 'I', 'N', 'T', '\n']) =~= seq![80u8, 82u8, 73u8, 78u8, 84u8, 10u8]);
        },
        InstrV::Input => {
            lemma_encode_ascii(seq!['I', 'N', 'P', 'U', 'T', '\n']);
            assert(line_text(i, dec).push('\n') =~= seq!['I', 'N', 'P', 'U', 'T', '\n']);
            assert(encode_utf8(seq!['I', 'N', 'P', 'U', 'T', '\n']) =~= seq![73u8, 78u8, 80u8, 85u8, 84u8, 10u8]);
        },
        InstrV::Call(x) => {
            lemma_encode_ascii(seq!['C', 'A', 'L', 'L', ' ']);
            assert(encode_utf8(seq!['C', 'A', 'L', 'L', ' ']) =~= seq![67u8, 65u8, 76u8, 76u8, 32u8]);
            assert(seq!['C', 'A', 'L', 'L'] + seq![' '] =~= seq!['C', 'A', 'L', 'L', ' ']);
            lemma_operand_line_bytes(seq!['C', 'A', 'L', 'L'], decode_utf8(x), seq![67u8, 65u8, 76u8, 76u8, 32u8]);
            decode_utf8_encode_utf8(x);
        },
        InstrV::Ret => {
            lemma_encode_ascii(seq!['R', 'E', 'T', '\n']);
            assert(line_text(i, dec).push('\n') =~= seq!['R', 'E', 'T', '\n']);
            assert(encode_utf8(seq!['R', 'E', 'T', '\n']) =~= seq![82u8, 69u8, 84u8, 10u8]);
        },
        InstrV::Jump(x) => {
            lemma_encode_ascii(seq!['J', 'U', 'M', 'P', ' ']);
            assert(encode_utf8(seq!['J', 'U', 'M', 'P', ' ']) =~= seq![74u8, 85u8, 77u8, 80u8, 32u8]);
            assert(seq!['J', 'U', 'M', 'P'] + seq![' '] =~= seq!['J', 'U', 'M', 'P', ' ']);
            lemma_operand_line_bytes(seq!['J', 'U', 'M', 'P'], decode_utf8(x), seq![74u8, 85u8, 77u8, 80u8, 32u8]);
            decode_utf8_encode_utf8(x);
        },
        InstrV::Start => {
            lemma_encode_ascii(seq!['A', 'R', 'C', '_', 'S', 'T', 'A', 'R', 'T', '\n']);
            assert(line_text(i, dec).push('\n') =~= seq!['A', 'R', 'C', '_', 'S', 'T', 'A', 'R', 'T', '\n']);
            assert(encode_utf8(seq!['A', 'R', 'C', '_', 'S', 'T', 'A', 'R', 'T', '\n']) =~= seq![65u8, 82u8, 67u8, 95u8, 83u8, 84u8, 65u8, 82u8, 84u8, 10u8]);
        },
        InstrV::End => {
            lemma_encode_ascii(seq!['A', 'R', 'C', '_', 'E', 'N', 'D', '\n']);
            assert(line_text(i, dec).push('\n') =~= seq!['A', 'R', 'C', '_', 'E', 'N', 'D', '\n']);
            assert(encode_utf8(seq!['A', 'R', 'C', '_', 'E', 'N', 'D', '\n']) =~= seq![65u8, 82u8, 67u8, 95u8, 69u8, 78u8, 68u8, 10u8]);
        },
        InstrV::Delim => {
            lemma_encode_ascii(seq!['A', 'R', 'C', '_', 'D', 'E', 'L', 'I', 'M', '\n']);
            assert(line_text(i, dec).push('\n') =~= seq!['A', 'R', 'C', '_', 'D', 'E', 'L', 'I', 'M', '\n']);
            assert(encode_utf8(seq!['A', 'R', 'C', '_', 'D', 'E', 'L', 'I', 'M', '\n']) =~= seq![65u8, 82u8, 67u8, 95u8, 68u8, 69u8, 76u8, 73u8, 77u8, 10u8]);
        },
        InstrV::Nop => {},
    }
}

/// A line with a mnemonic that takes a count.
proof fn lemma_count_line(m: Seq<char>, c: u8, decimals: Seq<Option<u64>>, k: nat, n: nat)
    requires
        m.len() > 0,
        unbroken(m),
        count_opcode(m) is Some,
    ensures
        spec_words(m + seq![' '] + decimal(c as nat)) == seq![m, decimal(c as nat)],
        one_line(m + seq![' '] + decimal(c as nat)),
        assemble_words(spec_words(m + seq![' '] + decimal(c as nat)), Dialect::Standalone, decimals, k, n)
            == Ok::<InstrV, AsmError>(count_instr(count_opcode(m).unwrap(), c)),
{
    lemma_words_of_unbroken(m);
    lemma_int_text_is_word(c as int);
    lemma_words_of_unbroken(decimal(c as nat));
    lemma_words_split_at_space(m, ' ', decimal(c as nat));
    assert(seq![m] + seq![decimal(c as nat)] =~= seq![m, decimal(c as nat)]);
    lemma_u8_text_round_trip(c);
    lemma_one_line_after_word(m, decimal(c as nat));
}

/// A line with a mnemonic that takes a name or a string.
proof fn lemma_text_line(m: Seq<char>, x: Seq<u8>, decimals: Seq<Option<u64>>, k: nat, n: nat)
    requires
        m.len() > 0,
        unbroken(m),
        count_opcode(m) is None,
        text_mnemonic(m, Dialect::Standalone) is Some,
        spaced_text(x),
    ensures
        spec_words(m + seq![' '] + decode_utf8(x)) == seq![m] + spec_words(decode_utf8(x)),
        one_line(m + seq![' '] + decode_utf8(x)),
        assemble_words(spec_words(m + seq![' '] + decode_utf8(x)), Dialect::Standalone, decimals, k, n)
            == Ok::<InstrV, AsmError>(text_instr(text_mnemonic(m, Dialect::Standalone).unwrap(), x)),
{
    let o = decode_utf8(x);
    lemma_words_of_unbroken(m);
    lemma_words_split_at_space(m, ' ', o);
    lemma_join_shift(m, spec_words(o), 0);
    decode_utf8_encode_utf8(x);
    lemma_words_are_nonempty_and_unbroken(o);
    let ws = spec_words(o);
    assert forall|q: int| 0 <= q < ws.len() implies unbroken(#[trigger] ws[q]) by {
        assert forall|r: int| 0 <= r < ws[q].len() implies !spec_is_whitespace(#[trigger] ws[q][r]) by {}
    }
    lemma_join_one_line(ws, 0);
    lemma_one_line_after_word(m, o);
}

/// A `PUSH_INT` line.
proof fn lemma_push_int_line(v: i64, decimals: Seq<Option<u64>>, k: nat, n: nat)
    ensures
        spec_words(line_text(InstrV::PushInt(v), seq![])).len() == 2,
        spec_words(line_text(InstrV::PushInt(v), seq![]))[0] == mnemonic(InstrV::PushInt(v)),
        one_line(line_text(InstrV::PushInt(v), seq![])),
        assemble_words(spec_words(line_text(InstrV::PushInt(v), seq![])), Dialect::Standalone, decimals, k, n)
            == Ok::<InstrV, AsmError>(InstrV::PushInt(v)),
{
    let m = mnemonic(InstrV::PushInt(v));
    let o = spec_int_text(v as int);
    lemma_words_of_unbroken(m);
    lemma_int_text_is_word(v as int);
    lemma_words_of_unbroken(o);
    lemma_words_split_at_space(m, ' ', o);
    assert(seq![m] + seq![o] =~= seq![m, o]);
    lemma_i64_text_round_trip(v);
    lemma_one_line_after_word(m, o);
}

/// A `PUSH_BOOL` line.
proof fn lemma_push_bool_line(b: u8, decimals: Seq<Option<u64>>, k: nat, n: nat)
    requires
        b <= 1,
    ensures
        spec_words(line_text(InstrV::PushBool(b), seq![])).len() == 2,
        spec_words(line_text(InstrV::PushBool(b), seq![]))[0] == mnemonic(InstrV::PushBool(b)),
        one_line(line_text(InstrV::PushBool(b), seq![])),
        assemble_words(spec_words(line_text(InstrV::PushBool(b), seq![])), Dialect::Standalone, decimals, k, n)
            == Ok::<InstrV, AsmError>(InstrV::PushBool(b)),
{
    let m = mnemonic(InstrV::PushBool(b));
    let o = bool_word(b);
    lemma_words_of_unbroken(m);
    lemma_words_of_unbroken(o);
    lemma_words_split_at_space(m, ' ', o);
    assert(seq![m] + seq![o] =~= seq![m, o]);
    assert forall|q: int| 0 <= q < o.len() implies #[trigger] o[q] != '\n' by {}
    lemma_one_line_after_word(m, o);
}

/// A `COMPARE` line.
proof fn lemma_compare_line(c: u8, decimals: Seq<Option<u64>>, k: nat, n: nat)
    requires
        0xC3 <= c <= 0xC8,
    ensures
        spec_words(line_text(InstrV::Compare(c), seq![])).len() == 2,
        spec_words(line_text(InstrV::Compare(c), seq![]))[0] == mnemonic(InstrV::Compare(c)),
        one_line(line_text(InstrV::Compare(c), seq![])),
        assemble_words(spec_words(line_text(InstrV::Compare(c), seq![])), Dialect::Standalone, decimals, k, n)
            == Ok::<InstrV, AsmError>(InstrV::Compare(c)),
{
    let m = mnemonic(InstrV::Compare(c));
    let o = compare_word(c);
    lemma_words_of_unbroken(m);
    lemma_words_of_unbroken(o);
    lemma_words_split_at_space(m, ' ', o);
    assert(seq![m] + seq![o] =~= seq![m, o]);
    assert forall|q: int| 0 <= q < o.len() implies #[trigger] o[q] != '\n' by {}
    lemma_one_line_after_word(m, o);
}

/// A `PUSH_DEC` line whose float text is one word, with the value supplied
/// for it.
proof fn lemma_push_dec_line(dec: Seq<char>, bits: u64, decimals: Seq<Option<u64>>, k: nat, n: nat)
    requires
        dec.len() > 0,
        unbroken(dec),
        k < decimals.len(),
        decimals[k as int] == Some(bits),
    ensures
        spec_words(line_text(InstrV::PushDec(bits), dec)).len() == 2,
        spec_words(line_text(InstrV::PushDec(bits), dec))[0] == mnemonic(InstrV::PushDec(bits)),
        one_line(line_text(InstrV::PushDec(bits), dec)),
        assemble_words(spec_words(line_text(InstrV::PushDec(bits), dec)), Dialect::Standalone, decimals, k, n)
            == Ok::<InstrV, AsmError>(InstrV::PushDec(bits)),
{
    let m = mnemonic(InstrV::PushDec(bits));
    lemma_words_of_unbroken(m);
    lemma_words_of_unbroken(dec);
    lemma_words_split_at_space(m, ' ', dec);
    assert(seq![m] + seq![dec] =~= seq![m, dec]);
    assert forall|q: int| 0 <= q < dec.len() implies #[trigger] dec[q] != '\n' by {
        assert(!spec_is_whitespace(dec[q]));
    }
    lemma_one_line_after_word(m, dec);
}

/// A line with a mnemonic that takes no operand.
proof fn lemma_bare_line(m: Seq<char>, decimals: Seq<Option<u64>>, k: nat, n: nat)
    requires
        m.len() > 0,
        unbroken(m),
        count_opcode(m) is None,
        text_mnemonic(m, Dialect::Standalone) is None,
        m != seq!['P', 'U', 'S', 'H', '_', 'I', 'N', 'T'],
        m != seq!['P', 'U', 'S', 'H', '_', 'B', 'O', 'O', 'L'],
        m != push_dec_word(),
        m != seq!['C', 'O', 'M', 'P', 'A', 'R', 'E'],
        bare_mnemonic(m) is Some,
    ensures
        spec_words(m) == seq![m],
        one_line(m),
        assemble_words(spec_words(m), Dialect::Standalone, decimals, k, n) == Ok::<InstrV, AsmError>(
            bare_mnemonic(m).unwrap(),
        ),
{
    lemma_words_of_unbroken(m);
    lemma_one_line_after_word(m, seq![]);
}

/// The listing line of an instruction that takes a count reads back as it.
proof fn lemma_counts_assemble(i: InstrV, dec: Seq<char>, decimals: Seq<Option<u64>>, k: nat, n: nat)
    requires
        lists_back(i),
        i is PushDec ==> dec.len() > 0 && unbroken(dec) && k < decimals.len() && decimals[k as int]
            == Some(i->PushDec_0),
        i is Add || i is Sub || i is Mul || i is Div || i is Mod,
    ensures
        spec_words(line_text(i, dec)).len() > 0,
        spec_words(line_text(i, dec))[0] == mnemonic(i),
        one_line(line_text(i, dec)),
        assemble_words(spec_words(line_text(i, dec)), Dialect::Standalone, decimals, k, n) == Ok::<
            InstrV,
            AsmError,
        >(i),
{
    match i {
        InstrV::Add(c) => {
            lemma_count_line(seq!['A', 'D', 'D'], c, decimals, k, n);
        },
        InstrV::Sub(c) => {
            lemma_count_line(seq!['S', 'U', 'B'], c, decimals, k, n);
        },
        InstrV::Mul(c) => {
            lemma_count_line(seq!['M', 'U', 'L'], c, decimals, k, n);
        },
        InstrV::Div(c) => {
            lemma_count_line(seq!['D', 'I', 'V'], c, decimals, k, n);
        },
        InstrV::Mod(c) => {
            lemma_count_line(seq!['M', 'O', 'D'], c, decimals, k, n);
        },
        _ => {},
    }
}

/// The listing line of an instruction that takes a name or a string reads back as it.
proof fn lemma_texts_assemble(i: InstrV, dec: Seq<char>, decimals: Seq<Option<u64>>, k: nat, n: nat)
    requires
        lists_back(i),
        i is PushDec ==> dec.len() > 0 && unbroken(dec) && k < decimals.len() && decimals[k as int]
            == Some(i->PushDec_0),
        name_of(i) is Some,
    ensures
        spec_words(line_text(i, dec)).len() > 0,
        spec_words(line_text(i, dec))[0] == mnemonic(i),
        one_line(line_text(i, dec)),
        assemble_words(spec_words(line_text(i, dec)), Dialect::Standalone, decimals, k, n) == Ok::<
            InstrV,
            AsmError,
        >(i),
{
    match i {
        InstrV::Store(x) => {
            lemma_text_line(seq!['S', 'T', 'O', 'R', 'E'], x, decimals, k, n);
        },
        InstrV::PushStr(x) => {
            lemma_text_line(seq!['P', 'U', 'S', 'H', '_', 'S', 'T', 'R'], x, decimals, k, n);
        },
        InstrV::Load(x) => {
            lemma_text_line(seq!['L', 'O', 'A', 'D', '_', 'I', 'N', 'T'], x, decimals, k, n);
        },
        InstrV::LoadStr(x) => {
            lemma_text_line(seq!['L', 'O', 'A', 'D', '_', 'S', 'T', 'R'], x, decimals, k, n);
        },
        InstrV::LoadBool(x) => {
            lemma_text_line(seq!['L', 'O', 'A', 'D', '_', 'B', 'O', 'O', 'L'], x, decimals, k, n);
        },
        InstrV::LoadDec(x) => {
            lemma_text_line(seq!['L', 'O', 'A', 'D', '_', 'D', 'E', 'C'], x, decimals, k, n);
        },
        InstrV::JumpIf(x) => {
            lemma_text_line(seq!['J', 'U', 'M', 'P', '_', 'I', 'F'], x, decimals, k, n);
        },
        InstrV::CallIf(x) => {
            lemma_text_line(seq!['C', 'A', 'L', 'L', '_', 'I', 'F'], x, decimals, k, n);
        },
        InstrV::Label(x) => {
            lemma_text_line(seq!['L', 'A', 'B', 'E', 'L'], x, decimals, k, n);
        },
        InstrV::Call(x) => {
            lemma_text_line(seq!['C', 'A', 'L', 'L'], x, decimals, k, n);
        },
        InstrV::Jump(x) => {
            lemma_text_line(seq!['J', 'U', 'M', 'P'], x, decimals, k, n);
        },
        _ => {},
    }
}

/// The listing line of an instruction that lists back is read back as that
/// instruction.
proof fn lemma_line_assembles(i: InstrV, dec: Seq<char>, decimals: Seq<Option<u64>>, k: nat, n: nat)
    requires
        lists_back(i),
        i is PushDec ==> dec.len() > 0 && unbroken(dec) && k < decimals.len() && decimals[k as int]
            == Some(i->PushDec_0),
    ensures
        spec_words(line_text(i, dec)).len() > 0,
        spec_words(line_text(i, dec))[0] == mnemonic(i),
        one_line(line_text(i, dec)),
        assemble_words(spec_words(line_text(i, dec)), Dialect::Standalone, decimals, k, n) == Ok::<
            InstrV,
            AsmError,
        >(i),
{
    if i is Add || i is Sub || i is Mul || i is Div || i is Mod {
        lemma_counts_assemble(i, dec, decimals, k, n);
    } else if name_of(i) is Some {
        lemma_texts_assemble(i, dec, decimals, k, n);
    } else {
        match i {
            InstrV::PushInt(v) => {
                lemma_push_int_line(v, decimals, k, n);
            },
            InstrV::PushBool(b) => {
                lemma_push_bool_line(b, decimals, k, n);
            },
            InstrV::PushDec(bits) => {
                lemma_push_dec_line(dec, bits, decimals, k, n);
            },
            InstrV::Compare(c) => {
                lemma_compare_line(c, decimals, k, n);
            },
            InstrV::And => {
                lemma_bare_line(seq!['A', 'N', 'D'], decimals, k, n);
            },
            InstrV::Or => {
                lemma_bare_line(seq!['O', 'R'], decimals, k, n);
            },
            InstrV::Not => {
                lemma_bare_line(seq!['N', 'O', 'T'], decimals, k, n);
            },
            InstrV::Xor => {
                lemma_bare_line(seq!['X', 'O', 'R'], decimals, k, n);
            },
            InstrV::Print => {
                lemma_bare_line(seq!['P', 'R', 'I', 'N', 'T'], decimals, k, n);
            },
            InstrV::Input => {
                lemma_bare_line(seq!['I', 'N', 'P', 'U', 'T'], decimals, k, n);
            },
            InstrV::Ret => {
                lemma_bare_line(seq!['R', 'E', 'T'], decimals, k, n);
            },
            InstrV::Start => {
                lemma_bare_line(seq!['A', 'R', 'C', '_', 'S', 'T', 'A', 'R', 'T'], decimals, k, n);
            },
            InstrV::End => {
                lemma_bare_line(seq!['A', 'R', 'C', '_', 'E', 'N', 'D'], decimals, k, n);
            },
            InstrV::Delim => {
                lemma_bare_line(seq!['A', 'R', 'C', '_', 'D', 'E', 'L', 'I', 'M'], decimals, k, n);
            },
            _ => {},
        }
    }
}

/// The float texts as UTF-8 bytes.
pub open spec fn encoded(decs: Seq<Seq<char>>) -> Seq<Seq<u8>> {
    decs.map_values(|d: Seq<char>| encode_utf8(d))
}

/// The listing the disassembler writes in bytes is the UTF-8 encoding of
/// the listing text.
proof fn lemma_listing_bytes(is: Seq<InstrV>, decs: Seq<Seq<char>>)
    requires
        forall|j: int| 0 <= j < is.len() ==> lists_back(#[trigger] is[j]),
    ensures
        encode_utf8(listing_text(is, decs)) == spec_listing(is, encoded(decs)),
        listing_lines(is, decs).1 == listing_fold(is, encoded(decs)).1,
    decreases is.len(),
{
    if is.len() > 0 {
        let p = is.drop_last();
        assert forall|j: int| 0 <= j < p.len() implies lists_back(#[trigger] p[j]) by {
            assert(p[j] == is[j]);
        }
        lemma_listing_bytes(p, decs);
        let (ls, k) = listing_lines(p, decs);
        let i = is.last();
        assert(lists_back(is[is.len() - 1]));
        let dec = if k < decs.len() {
            decs[k as int]
        } else {
            seq![]
        };
        lemma_line_bytes(i, dec);
        lemma_line_bytes(i, seq![]);
        lemma_encode_concat(closed_lines(ls), line_text(i, dec).push('\n'));
        assert(ls.push(line_text(i, dec)).drop_last() =~= ls);
        if !(i is PushDec) {
            assert(line_text(i, dec) == line_text(i, seq![]));
            assert(encode_utf8(Seq::<char>::empty()) =~= Seq::<u8>::empty());
        }
    }
}

/// The float constants and their values that a listing needs: a one-word
/// text for each `PUSH_DEC`, and the value it stands for, in order.
pub open spec fn floats_supplied(is: Seq<InstrV>, decs: Seq<Seq<char>>, decimals: Seq<Option<u64>>) -> bool {
    &&& dec_bits(is).len() <= decs.len()
    &&& dec_bits(is).len() <= decimals.len()
    &&& forall|k: int|
        0 <= k < dec_bits(is).len() ==> (#[trigger] decs[k]).len() > 0 && unbroken(decs[k])
            && decimals[k] == Some(dec_bits(is)[k])
}

/// The listing lines of instructions that list back assemble into those
/// instructions.
proof fn lemma_lines_assemble(is: Seq<InstrV>, decs: Seq<Seq<char>>, decimals: Seq<Option<u64>>)
    requires
        forall|j: int| 0 <= j < is.len() ==> lists_back(#[trigger] is[j]),
        floats_supplied(is, decs, decimals),
    ensures
        listing_lines(is, decs).1 == dec_bits(is).len(),
        listing_lines(is, decs).0.len() == is.len(),
        forall|j: int|
            0 <= j < listing_lines(is, decs).0.len() ==> one_line(
                #[trigger] listing_lines(is, decs).0[j],
            ),
        assemble_fold(listing_lines(is, decs).0, Dialect::Standalone, decimals) == Ok::<
            (Seq<InstrV>, nat, nat),
            AsmError,
        >((is, is.len(), dec_bits(is).len())),
    decreases is.len(),
{
    if is.len() == 0 {
        assert(is =~= Seq::<InstrV>::empty());
    } else {
        let p = is.drop_last();
        let i = is.last();
        assert(lists_back(is[is.len() - 1]));
        assert forall|j: int| 0 <= j < p.len() implies lists_back(#[trigger] p[j]) by {
            assert(p[j] == is[j]);
        }
        let kb = dec_bits(p).len();
        assert(forall|k: int| 0 <= k < kb ==> dec_bits(p)[k] == dec_bits(is)[k]);
        assert(floats_supplied(p, decs, decimals)) by {
            assert forall|k: int| 0 <= k < dec_bits(p).len() implies (#[trigger] decs[k]).len() > 0
                && unbroken(decs[k]) && decimals[k] == Some(dec_bits(p)[k]) by {
                assert(dec_bits(p)[k] == dec_bits(is)[k]);
            }
        }
        lemma_lines_assemble(p, decs, decimals);
        let (ls, k) = listing_lines(p, decs);
        let dec = if k < decs.len() {
            decs[k as int]
        } else {
            seq![]
        };
        if i is PushDec {
            assert(dec_bits(is) == dec_bits(p).push(i->PushDec_0));
            assert(decs[k as int] == dec);
        }
        lemma_line_assembles(i, dec, decimals, k, p.len());
        let l = line_text(i, dec);
        let ls2 = ls.push(l);
        assert(ls2.drop_last() =~= ls);
        assert(ls2.last() == l);
        assert(forall|m: int| 0 <= m < ls.len() ==> ls2[m] == ls[m]);
        assert(p.push(i) =~= is);
        assert(mnemonic(i) == push_dec_word() <==> i is PushDec);
    }
}

/// The disassembler's listing, read by the standalone assembler, gives back
/// the instructions it was written from: every instruction that lists back
/// (see [`lists_back`]), each float constant written as one word and the
/// value of each supplied in `decimals`, in order. `text` is the listing as
/// characters, whatever bytes held it.
pub proof fn lemma_listing_reassembles(
    is: Seq<InstrV>,
    decs: Seq<Seq<char>>,
    decimals: Seq<Option<u64>>,
    text: Seq<char>,
)
    requires
        forall|j: int| 0 <= j < is.len() ==> lists_back(#[trigger] is[j]),
        floats_supplied(is, decs, decimals),
        encode_utf8(text) == spec_listing(is, encoded(decs)),
    ensures
        spec_assemble_program(text, Dialect::Standalone, decimals) == Ok::<Seq<InstrV>, AsmError>(is),
        spec_assemble(text, Dialect::Standalone, decimals) == Ok::<Seq<u8>, AsmError>(
            encode_program(is),
        ),
{
    lemma_listing_bytes(is, decs);
    let t = listing_text(is, decs);
    encode_utf8_decode_utf8(text);
    encode_utf8_decode_utf8(t);
    assert(text == t);
    lemma_lines_assemble(is, decs, decimals);
    let ls = listing_lines(is, decs).0;
    lemma_closed_lines_split(ls);
    assert(spec_split_newlines(t) == ls.push(Seq::<char>::empty()));
    assert(ls.push(Seq::<char>::empty()).drop_last() =~= ls);
    assert(spec_words(Seq::<char>::empty()) =~= Seq::<Seq<char>>::empty());
}


/// A bytecode program disassembled and written out as a listing, read by
/// the standalone assembler, is the same bytecode: where every instruction
/// lists back and each float constant is written as one word whose value is
/// supplied in `decimals`.
pub proof fn lemma_disassembly_reassembles(
    code: Seq<u8>,
    is: Seq<InstrV>,
    decs: Seq<Seq<char>>,
    decimals: Seq<Option<u64>>,
    text: Seq<char>,
)
    requires
        disassemble_from(code, 0) == Ok::<Seq<InstrV>, DecodeError>(is),
        forall|j: int| 0 <= j < is.len() ==> lists_back(#[trigger] is[j]),
        floats_supplied(is, decs, decimals),
        encode_utf8(text) == spec_listing(is, encoded(decs)),
    ensures
        spec_assemble(text, Dialect::Standalone, decimals) == Ok::<Seq<u8>, AsmError>(code),
{
    lemma_disassembled_encodes_back(code, 0, is);
    assert(code.subrange(0, code.len() as int) =~= code);
    lemma_listing_reassembles(is, decs, decimals, text);
}

} // verus!
