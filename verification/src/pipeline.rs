//! What the compiler's stages promise each other: the assembly text that
//! the serializer writes, the compiler's own assembler reads back as the
//! instructions of the nodes it was written from.
use vstd::prelude::*;
use vstd::utf8::encode_utf8;

use crate::assembler::{
    assemble_fold, assemble_words, bare_mnemonic, compare_operand, count_instr, count_opcode, push_dec_word,
    spec_assemble_program, text_mnemonic, AsmError, Dialect,
};
use crate::bytecode::{text_instr, InstrV};
use crate::number::{
    decimal, lemma_i64_text_round_trip, lemma_int_text_is_word, lemma_u8_text_round_trip,
    spec_int_text,
};
use crate::lexer::TokenV;
use crate::parser::{and_name, compare_code, or_name, punct1, punct2, xor_name, NodeV};
use crate::serializer::{
    bool_text, compare_name, nl, node_text, spec_serialization, value_text, SerializeError,
};
use crate::vm::compare;
use crate::text::{
    closed_lines, lemma_closed_lines_split, lemma_one_word, lemma_spaced_line, lemma_two_words,
    one_line, spec_join_from, spec_split_newlines, spec_words, unbroken,
};

verus! {

/// A mnemonic, a space and an operand.
pub open spec fn with_operand(m: Seq<char>, o: Seq<char>) -> Seq<char> {
    m + seq![' '] + o
}

/// Operand text that the assembler reads back as written: words with one
/// space between two of them, short enough for one length byte.
pub open spec fn reads_back(t: Seq<char>) -> bool {
    &&& spec_join_from(spec_words(t), 0) == t
    &&& encode_utf8(t).len() < 256
}

/// The line that pushes a value node, without its newline.
pub open spec fn value_line(n: NodeV) -> Seq<char> {
    match n {
        NodeV::Load(v) => with_operand(seq!['L', 'O', 'A', 'D'], v),
        NodeV::PushInt(i) => with_operand(seq!['P', 'U', 'S', 'H', '_', 'I', 'N', 'T'], spec_int_text(i as int)),
        NodeV::PushFloat(f) => with_operand(seq!['P', 'U', 'S', 'H', '_', 'D', 'E', 'C'], f),
        NodeV::PushString(s) => with_operand(seq!['P', 'U', 'S', 'H', '_', 'S', 'T', 'R'], s),
        NodeV::PushBool(b) => with_operand(seq!['P', 'U', 'S', 'H', '_', 'B', 'O', 'O', 'L'], bool_text(b)),
        _ => seq![],
    }
}

/// The lines of a node's assembly text, without their newlines.
pub open spec fn node_lines(n: NodeV) -> Seq<Seq<char>> {
    match n {
        NodeV::Start => seq![seq!['A', 'R', 'C', '_', 'S', 'T', 'A', 'R', 'T']],
        NodeV::End => seq![seq!['A', 'R', 'C', '_', 'E', 'N', 'D']],
        NodeV::Delim => seq![seq!['A', 'R', 'C', '_', 'D', 'E', 'L', 'I', 'M']],
        NodeV::Label(s) => seq![with_operand(seq!['L', 'A', 'B', 'E', 'L'], s)],
        NodeV::Exit => seq![seq!['A', 'R', 'C', '_', 'E', 'N', 'D']],
        NodeV::Jump(s) => seq![with_operand(seq!['J', 'U', 'M', 'P'], s)],
        NodeV::Return => seq![seq!['R', 'E', 'T']],
        NodeV::Call(s) => seq![with_operand(seq!['C', 'A', 'L', 'L'], s)],
        NodeV::JumpIf(s) => seq![with_operand(seq!['J', 'U', 'M', 'P', '_', 'I', 'F'], s)],
        NodeV::CallIf(s) => seq![with_operand(seq!['C', 'A', 'L', 'L', '_', 'I', 'F'], s)],
        NodeV::Let(s) => seq![with_operand(seq!['S', 'T', 'O', 'R', 'E'], s)],
        NodeV::Add(c) => seq![with_operand(seq!['A', 'D', 'D'], decimal(c as nat))],
        NodeV::Sub(c) => seq![with_operand(seq!['S', 'U', 'B'], decimal(c as nat))],
        NodeV::Mul(c) => seq![with_operand(seq!['M', 'U', 'L'], decimal(c as nat))],
        NodeV::Div(c) => seq![with_operand(seq!['D', 'I', 'V'], decimal(c as nat))],
        NodeV::Mod(c) => seq![with_operand(seq!['M', 'O', 'D'], decimal(c as nat))],
        NodeV::Compare(op) => seq![with_operand(seq!['C', 'O', 'M', 'P', 'A', 'R', 'E'], compare_name(op).unwrap())],
        NodeV::Print(e) => seq![value_line(*e), seq!['P', 'R', 'I', 'N', 'T']],
        NodeV::Input(s) => seq![seq!['I', 'N', 'P', 'U', 'T'], with_operand(seq!['S', 'T', 'O', 'R', 'E'], s)],
        NodeV::Logic(op) => seq![
            if op == and_name() {
                seq!['A', 'N', 'D']
            } else if op == or_name() {
                seq!['O', 'R']
            } else {
                seq!['X', 'O', 'R']
            },
        ],
        _ => seq![value_line(n)],
    }
}

/// The instruction of a value node; `bits` is the value of a float
/// constant.
pub open spec fn value_instr(n: NodeV, bits: u64) -> InstrV {
    match n {
        NodeV::Load(v) => InstrV::Load(encode_utf8(v)),
        NodeV::PushInt(i) => InstrV::PushInt(i),
        NodeV::PushFloat(_) => InstrV::PushDec(bits),
        NodeV::PushString(s) => InstrV::PushStr(encode_utf8(s)),
        NodeV::PushBool(b) => InstrV::PushBool(
            if b {
                1
            } else {
                0
            },
        ),
        _ => InstrV::Nop,
    }
}

/// The instructions of a node; `bits` is the value of its float constant.
pub open spec fn node_instrs(n: NodeV, bits: u64) -> Seq<InstrV> {
    match n {
        NodeV::Start => seq![InstrV::Start],
        NodeV::End => seq![InstrV::End],
        NodeV::Delim => seq![InstrV::Delim],
        NodeV::Label(s) => seq![InstrV::Label(encode_utf8(s))],
        NodeV::Exit => seq![InstrV::End],
        NodeV::Jump(s) => seq![InstrV::Jump(encode_utf8(s))],
        NodeV::Return => seq![InstrV::Ret],
        NodeV::Call(s) => seq![InstrV::Call(encode_utf8(s))],
        NodeV::JumpIf(s) => seq![InstrV::JumpIf(encode_utf8(s))],
        NodeV::CallIf(s) => seq![InstrV::CallIf(encode_utf8(s))],
        NodeV::Let(s) => seq![InstrV::Store(encode_utf8(s))],
        NodeV::Add(c) => seq![InstrV::Add(c)],
        NodeV::Sub(c) => seq![InstrV::Sub(c)],
        NodeV::Mul(c) => seq![InstrV::Mul(c)],
        NodeV::Div(c) => seq![InstrV::Div(c)],
        NodeV::Mod(c) => seq![InstrV::Mod(c)],
        NodeV::Compare(op) => seq![InstrV::Compare(op)],
        NodeV::Print(e) => seq![value_instr(*e, bits), InstrV::Print],
        NodeV::Input(s) => seq![InstrV::Input, InstrV::Store(encode_utf8(s))],
        NodeV::Logic(op) => seq![
            if op == and_name() {
                InstrV::And
            } else if op == or_name() {
                InstrV::Or
            } else {
                InstrV::Xor
            },
        ],
        _ => seq![value_instr(n, bits)],
    }
}

/// Whether a node holds a float constant.
pub open spec fn holds_float(n: NodeV) -> bool {
    n is PushFloat || (n matches NodeV::Print(e) && *e is PushFloat)
}

/// Whether a value node's text reads back: its name or string reads back
/// as written, its float text is one word.
pub open spec fn value_back(n: NodeV) -> bool {
    match n {
        NodeV::Load(v) => reads_back(v),
        NodeV::PushString(s) => reads_back(s),
        NodeV::PushFloat(f) => f.len() > 0 && unbroken(f),
        _ => true,
    }
}

/// Whether the assembly text of a node reads back as its instructions: it
/// can be written, its names and strings read back as written and its
/// float text is one word.
pub open spec fn serializes_back(n: NodeV) -> bool {
    &&& node_text(n) is Ok
    &&& match n {
        NodeV::Label(s) => reads_back(s),
        NodeV::Jump(s) => reads_back(s),
        NodeV::Call(s) => reads_back(s),
        NodeV::JumpIf(s) => reads_back(s),
        NodeV::CallIf(s) => reads_back(s),
        NodeV::Let(s) => reads_back(s),
        NodeV::Input(s) => reads_back(s),
        NodeV::Print(e) => value_back(*e),
        _ => value_back(n),
    }
}

/// The instructions of a node list, and the number of float constants it
/// holds; `decimals[k]` is the value of the `k`-th float constant.
pub open spec fn nodes_program(nodes: Seq<NodeV>, decimals: Seq<Option<u64>>) -> (Seq<InstrV>, nat)
    decreases nodes.len(),
{
    if nodes.len() == 0 {
        (seq![], 0)
    } else {
        let (is, k) = nodes_program(nodes.drop_last(), decimals);
        let n = nodes.last();
        let bits = if k < decimals.len() && decimals[k as int] is Some {
            decimals[k as int].unwrap()
        } else {
            0
        };
        (
            is + node_instrs(n, bits),
            if holds_float(n) {
                k + 1
            } else {
                k
            },
        )
    }
}

/// The lines of the assembly text of a node list.
pub open spec fn all_lines(nodes: Seq<NodeV>) -> Seq<Seq<char>>
    decreases nodes.len(),
{
    if nodes.len() == 0 {
        seq![]
    } else {
        all_lines(nodes.drop_last()) + node_lines(nodes.last())
    }
}

proof fn lemma_closed_one(a: Seq<char>)
    ensures
        closed_lines(seq![a]) == a.push('\n'),
{
    assert(seq![a].drop_last() =~= Seq::<Seq<char>>::empty());
    assert(closed_lines(Seq::<Seq<char>>::empty()) =~= Seq::<char>::empty());
    assert(closed_lines(seq![a]) =~= a.push('\n'));
}

proof fn lemma_closed_two(a: Seq<char>, b: Seq<char>)
    ensures
        closed_lines(seq![a, b]) == a.push('\n') + b.push('\n'),
{
    lemma_closed_one(a);
    assert(seq![a, b].drop_last() =~= seq![a]);
}

proof fn lemma_closed_operand(m: Seq<char>, o: Seq<char>, lit: Seq<char>)
    requires
        m + seq![' '] == lit,
    ensures
        closed_lines(seq![with_operand(m, o)]) == lit + o + nl(),
{
    lemma_closed_one(with_operand(m, o));
    assert(with_operand(m, o).push('\n') =~= lit + o + nl());
}

proof fn lemma_value_text_line(e: NodeV)
    requires
        value_text(e) is Some,
    ensures
        value_text(e) == Some(value_line(e).push('\n')),
{
    match e {
        NodeV::Load(v) => {
            assert(seq!['L', 'O', 'A', 'D'] + seq![' '] =~= seq!['L', 'O', 'A', 'D', ' ']);
            assert(with_operand(seq!['L', 'O', 'A', 'D'], v).push('\n') =~= seq!['L', 'O', 'A', 'D', ' '] + v + nl());
        },
        NodeV::PushInt(i) => {
            assert(with_operand(seq!['P', 'U', 'S', 'H', '_', 'I', 'N', 'T'], spec_int_text(i as int)).push('\n') =~= seq!['P', 'U', 'S', 'H', '_', 'I', 'N', 'T', ' '] + spec_int_text(i as int) + nl());
        },
        NodeV::PushFloat(f) => {
            assert(with_operand(seq!['P', 'U', 'S', 'H', '_', 'D', 'E', 'C'], f).push('\n') =~= seq!['P', 'U', 'S', 'H', '_', 'D', 'E', 'C', ' '] + f + nl());
        },
        NodeV::PushString(s) => {
            assert(with_operand(seq!['P', 'U', 'S', 'H', '_', 'S', 'T', 'R'], s).push('\n') =~= seq!['P', 'U', 'S', 'H', '_', 'S', 'T', 'R', ' '] + s + nl());
        },
        NodeV::PushBool(b) => {
            assert(with_operand(seq!['P', 'U', 'S', 'H', '_', 'B', 'O', 'O', 'L'], bool_text(b)).push('\n') =~= seq!['P', 'U', 'S', 'H', '_', 'B', 'O', 'O', 'L', ' '] + bool_text(b) + nl());
        },
        _ => {},
    }
}

/// The assembly text of a node is its lines, each closed by a newline.
proof fn lemma_node_text_lines(n: NodeV)
    requires
        node_text(n) is Ok,
    ensures
        node_text(n) == Ok::<Seq<char>, crate::serializer::SerializeError>(closed_lines(node_lines(n))),
{
    match n {
        NodeV::Start => {
            lemma_closed_one(seq!['A', 'R', 'C', '_', 'S', 'T', 'A', 'R', 'T']);
            assert(seq!['A', 'R', 'C', '_', 'S', 'T', 'A', 'R', 'T'].push('\n') =~= seq!['A', 'R', 'C', '_', 'S', 'T', 'A', 'R', 'T', '\n']);
        },
        NodeV::End => {
            lemma_closed_one(seq!['A', 'R', 'C', '_', 'E', 'N', 'D']);
            assert(seq!['A', 'R', 'C', '_', 'E', 'N', 'D'].push('\n') =~= seq!['A', 'R', 'C', '_', 'E', 'N', 'D', '\n']);
        },
        NodeV::Delim => {
            lemma_closed_one(seq!['A', 'R', 'C', '_', 'D', 'E', 'L', 'I', 'M']);
            assert(seq!['A', 'R', 'C', '_', 'D', 'E', 'L', 'I', 'M'].push('\n') =~= seq!['A', 'R', 'C', '_', 'D', 'E', 'L', 'I', 'M', '\n']);
        },
        NodeV::Label(s) => {
            assert(seq!['L', 'A', 'B', 'E', 'L'] + seq![' '] =~= seq!['L', 'A', 'B', 'E', 'L', ' ']);
            lemma_closed_operand(seq!['L', 'A', 'B', 'E', 'L'], s, seq!['L', 'A', 'B', 'E', 'L', ' ']);
        },
        NodeV::Exit => {
            lemma_closed_one(seq!['A', 'R', 'C', '_', 'E', 'N', 'D']);
            assert(seq!['A', 'R', 'C', '_', 'E', 'N', 'D'].push('\n') =~= seq!['A', 'R', 'C', '_', 'E', 'N', 'D', '\n']);
        },
        NodeV::Jump(s) => {
            assert(seq!['J', 'U', 'M', 'P'] + seq![' '] =~= seq!['J', 'U', 'M', 'P', ' ']);
            lemma_closed_operand(seq!['J', 'U', 'M', 'P'], s, seq!['J', 'U', 'M', 'P', ' ']);
        },
        NodeV::Return => {
            lemma_closed_one(seq!['R', 'E', 'T']);
            assert(seq!['R', 'E', 'T'].push('\n') =~= seq!['R', 'E', 'T', '\n']);
        },
        NodeV::Call(s) => {
            assert(seq!['C', 'A', 'L', 'L'] + seq![' '] =~= seq!['C', 'A', 'L', 'L', ' ']);
            lemma_closed_operand(seq!['C', 'A', 'L', 'L'], s, seq!['C', 'A', 'L', 'L', ' ']);
        },
        NodeV::JumpIf(s) => {
            assert(seq!['J', 'U', 'M', 'P', '_', 'I', 'F'] + seq![' '] =~= seq!['J', 'U', 'M', 'P', '_', 'I', 'F', ' ']);
            lemma_closed_operand(seq!['J', 'U', 'M', 'P', '_', 'I', 'F'], s, seq!['J', 'U', 'M', 'P', '_', 'I', 'F', ' ']);
        },
        NodeV::CallIf(s) => {
            assert(seq!['C', 'A', 'L', 'L', '_', 'I', 'F'] + seq![' '] =~= seq!['C', 'A', 'L', 'L', '_', 'I', 'F', ' ']);
            lemma_closed_operand(seq!['C', 'A', 'L', 'L', '_', 'I', 'F'], s, seq!['C', 'A', 'L', 'L', '_', 'I', 'F', ' ']);
        },
        NodeV::Let(s) => {
            assert(seq!['S', 'T', 'O', 'R', 'E'] + seq![' '] =~= seq!['S', 'T', 'O', 'R', 'E', ' ']);
            lemma_closed_operand(seq!['S', 'T', 'O', 'R', 'E'], s, seq!['S', 'T', 'O', 'R', 'E', ' ']);
        },
        NodeV::Add(c) => {
            assert(seq!['A', 'D', 'D'] + seq![' '] =~= seq!['A', 'D', 'D', ' ']);
            lemma_closed_operand(seq!['A', 'D', 'D'], decimal(c as nat), seq!['A', 'D', 'D', ' ']);
        },
        NodeV::Sub(c) => {
            assert(seq!['S', 'U', 'B'] + seq![' '] =~= seq!['S', 'U', 'B', ' ']);
            lemma_closed_operand(seq!['S', 'U', 'B'], decimal(c as nat), seq!['S', 'U', 'B', ' ']);
        },
        NodeV::Mul(c) => {
            assert(seq!['M', 'U', 'L'] + seq![' '] =~= seq!['M', 'U', 'L', ' ']);
            lemma_closed_operand(seq!['M', 'U', 'L'], decimal(c as nat), seq!['M', 'U', 'L', ' ']);
        },
        NodeV::Div(c) => {
            assert(seq!['D', 'I', 'V'] + seq![' '] =~= seq!['D', 'I', 'V', ' ']);
            lemma_closed_operand(seq!['D', 'I', 'V'], decimal(c as nat), seq!['D', 'I', 'V', ' ']);
        },
        NodeV::Mod(c) => {
            assert(seq!['M', 'O', 'D'] + seq![' '] =~= seq!['M', 'O', 'D', ' ']);
            lemma_closed_operand(seq!['M', 'O', 'D'], decimal(c as nat), seq!['M', 'O', 'D', ' ']);
        },
        NodeV::Compare(op) => {
            assert(seq!['C', 'O', 'M', 'P', 'A', 'R', 'E'] + seq![' '] =~= seq!['C', 'O', 'M', 'P', 'A', 'R', 'E', ' ']);
            lemma_closed_operand(seq!['C', 'O', 'M', 'P', 'A', 'R', 'E'], compare_name(op).unwrap(), seq!['C', 'O', 'M', 'P', 'A', 'R', 'E', ' ']);
        },
        NodeV::Print(e) => {
            lemma_value_text_line(*e);
            lemma_closed_two(value_line(*e), seq!['P', 'R', 'I', 'N', 'T']);
            assert(seq!['P', 'R', 'I', 'N', 'T'].push('\n') =~= seq!['P', 'R', 'I', 'N', 'T', '\n']);
        },
        NodeV::Input(s) => {
            lemma_closed_two(seq!['I', 'N', 'P', 'U', 'T'], with_operand(seq!['S', 'T', 'O', 'R', 'E'], s));
            assert(seq!['I', 'N', 'P', 'U', 'T'].push('\n') =~= seq!['I', 'N', 'P', 'U', 'T', '\n']);
            assert(with_operand(seq!['S', 'T', 'O', 'R', 'E'], s).push('\n') =~= seq!['S', 'T', 'O', 'R', 'E', ' '] + s + nl());
            assert(seq!['I', 'N', 'P', 'U', 'T', '\n'] + (seq!['S', 'T', 'O', 'R', 'E', ' '] + s + nl()) =~= seq!['I', 'N', 'P', 'U', 'T', '\n'] + seq!['S', 'T', 'O', 'R', 'E', ' '] + s + nl());
        },
        NodeV::Logic(op) => {
            let m = node_lines(n)[0];
            lemma_closed_one(m);
            assert(seq!['A', 'N', 'D'].push('\n') =~= seq!['A', 'N', 'D', '\n']);
            assert(seq!['O', 'R'].push('\n') =~= seq!['O', 'R', '\n']);
            assert(seq!['X', 'O', 'R'].push('\n') =~= seq!['X', 'O', 'R', '\n']);
        },
        _ => {
            lemma_value_text_line(n);
            lemma_closed_one(value_line(n));
        },
    }
}


/// Whether a line without newline reads as instruction `i` in the
/// compiler's assembler (as its `n`-th line, after `k` float constants).
pub open spec fn line_reads(l: Seq<char>, i: InstrV, decimals: Seq<Option<u64>>, k: nat, n: nat) -> bool {
    &&& one_line(l)
    &&& spec_words(l).len() > 0
    &&& (spec_words(l)[0] == push_dec_word() <==> i is PushDec)
    &&& assemble_words(spec_words(l), Dialect::Compiler, decimals, k, n) == Ok::<InstrV, AsmError>(i)
}

/// A line with a mnemonic that takes a count.
proof fn lemma_count_line(m: Seq<char>, c: u8, decimals: Seq<Option<u64>>, k: nat, n: nat)
    requires
        m.len() > 0,
        unbroken(m),
        count_opcode(m) is Some,
    ensures
        spec_words(with_operand(m, decimal(c as nat))) == seq![m, decimal(c as nat)],
        one_line(with_operand(m, decimal(c as nat))),
        assemble_words(spec_words(with_operand(m, decimal(c as nat))), Dialect::Compiler, decimals, k, n)
            == Ok::<InstrV, AsmError>(count_instr(count_opcode(m).unwrap(), c)),
{
    lemma_int_text_is_word(c as int);
    lemma_two_words(m, decimal(c as nat));
    lemma_u8_text_round_trip(c);
}

/// A line with a mnemonic that takes a name or a string.
proof fn lemma_name_line(m: Seq<char>, t: Seq<char>, decimals: Seq<Option<u64>>, k: nat, n: nat)
    requires
        m.len() > 0,
        unbroken(m),
        count_opcode(m) is None,
        text_mnemonic(m, Dialect::Compiler) is Some,
        reads_back(t),
    ensures
        spec_words(with_operand(m, t)) == seq![m] + spec_words(t),
        one_line(with_operand(m, t)),
        assemble_words(spec_words(with_operand(m, t)), Dialect::Compiler, decimals, k, n) == Ok::<
            InstrV,
            AsmError,
        >(text_instr(text_mnemonic(m, Dialect::Compiler).unwrap(), encode_utf8(t))),
{
    lemma_spaced_line(m, t);
}

/// The line of a value node reads as its instruction.
proof fn lemma_value_reads(e: NodeV, bits: u64, decimals: Seq<Option<u64>>, k: nat, n: nat)
    requires
        value_text(e) is Some,
        value_back(e),
        e is PushFloat ==> k < decimals.len() && decimals[k as int] == Some(bits),
    ensures
        line_reads(value_line(e), value_instr(e, bits), decimals, k, n),
{
    match e {
        NodeV::Load(v) => {
            lemma_name_line(seq!['L', 'O', 'A', 'D'], v, decimals, k, n);
        },
        NodeV::PushInt(i) => {
            lemma_int_text_is_word(i as int);
            lemma_two_words(seq!['P', 'U', 'S', 'H', '_', 'I', 'N', 'T'], spec_int_text(i as int));
            lemma_i64_text_round_trip(i);
        },
        NodeV::PushFloat(f) => {
            lemma_two_words(seq!['P', 'U', 'S', 'H', '_', 'D', 'E', 'C'], f);
        },
        NodeV::PushString(s) => {
            lemma_name_line(seq!['P', 'U', 'S', 'H', '_', 'S', 'T', 'R'], s, decimals, k, n);
        },
        NodeV::PushBool(b) => {
            lemma_two_words(seq!['P', 'U', 'S', 'H', '_', 'B', 'O', 'O', 'L'], bool_text(b));
        },
        _ => {},
    }
}

/// The line of a node without operand reads as its instruction.
proof fn lemma_node_reads_bare(nd: NodeV, bits: u64, decimals: Seq<Option<u64>>, k: nat, n: nat)
    requires
        nd is Start || nd is End || nd is Delim || nd is Exit || nd is Return,
        serializes_back(nd),
        holds_float(nd) ==> k < decimals.len() && decimals[k as int] == Some(bits),
    ensures
        node_lines(nd).len() == node_instrs(nd, bits).len(),
        1 <= node_lines(nd).len() <= 2,
        line_reads(node_lines(nd)[0], node_instrs(nd, bits)[0], decimals, k, n),
        holds_float(nd) <==> node_instrs(nd, bits)[0] is PushDec,
        node_lines(nd).len() == 2 ==> line_reads(
            node_lines(nd)[1],
            node_instrs(nd, bits)[1],
            decimals,
            if holds_float(nd) {
                k + 1
            } else {
                k
            },
            n + 1,
        ) && !(node_instrs(nd, bits)[1] is PushDec),
{
    match nd {
        NodeV::Start => {
            lemma_one_word(seq!['A', 'R', 'C', '_', 'S', 'T', 'A', 'R', 'T']);
        },
        NodeV::End => {
            lemma_one_word(seq!['A', 'R', 'C', '_', 'E', 'N', 'D']);
        },
        NodeV::Delim => {
            lemma_one_word(seq!['A', 'R', 'C', '_', 'D', 'E', 'L', 'I', 'M']);
        },
        NodeV::Exit => {
            lemma_one_word(seq!['A', 'R', 'C', '_', 'E', 'N', 'D']);
        },
        NodeV::Return => {
            lemma_one_word(seq!['R', 'E', 'T']);
        },
        _ => {},
    }
}

/// The line of a logic node reads as its instruction.
proof fn lemma_node_reads_logic(nd: NodeV, bits: u64, decimals: Seq<Option<u64>>, k: nat, n: nat)
    requires
        nd is Logic,
        serializes_back(nd),
        holds_float(nd) ==> k < decimals.len() && decimals[k as int] == Some(bits),
    ensures
        node_lines(nd).len() == node_instrs(nd, bits).len(),
        1 <= node_lines(nd).len() <= 2,
        line_reads(node_lines(nd)[0], node_instrs(nd, bits)[0], decimals, k, n),
        holds_float(nd) <==> node_instrs(nd, bits)[0] is PushDec,
        node_lines(nd).len() == 2 ==> line_reads(
            node_lines(nd)[1],
            node_instrs(nd, bits)[1],
            decimals,
            if holds_float(nd) {
                k + 1
            } else {
                k
            },
            n + 1,
        ) && !(node_instrs(nd, bits)[1] is PushDec),
{
    match nd {
        NodeV::Logic(op) => {
            lemma_one_word(seq!['A', 'N', 'D']);
            lemma_one_word(seq!['O', 'R']);
            lemma_one_word(seq!['X', 'O', 'R']);
        },
        _ => {},
    }
}

/// The line of a comparison node reads as its instruction.
proof fn lemma_node_reads_compare(nd: NodeV, bits: u64, decimals: Seq<Option<u64>>, k: nat, n: nat)
    requires
        nd is Compare,
        serializes_back(nd),
        holds_float(nd) ==> k < decimals.len() && decimals[k as int] == Some(bits),
    ensures
        node_lines(nd).len() == node_instrs(nd, bits).len(),
        1 <= node_lines(nd).len() <= 2,
        line_reads(node_lines(nd)[0], node_instrs(nd, bits)[0], decimals, k, n),
        holds_float(nd) <==> node_instrs(nd, bits)[0] is PushDec,
        node_lines(nd).len() == 2 ==> line_reads(
            node_lines(nd)[1],
            node_instrs(nd, bits)[1],
            decimals,
            if holds_float(nd) {
                k + 1
            } else {
                k
            },
            n + 1,
        ) && !(node_instrs(nd, bits)[1] is PushDec),
{
    match nd {
        NodeV::Compare(op) => {
            lemma_two_words(seq!['C', 'O', 'M', 'P', 'A', 'R', 'E'], compare_name(op).unwrap());
        },
        _ => {},
    }
}

/// The line of a node with a name reads as its instruction.
proof fn lemma_node_reads_name(nd: NodeV, bits: u64, decimals: Seq<Option<u64>>, k: nat, n: nat)
    requires
        nd is Label || nd is Jump || nd is Call || nd is JumpIf || nd is CallIf || nd is Let,
        serializes_back(nd),
        holds_float(nd) ==> k < decimals.len() && decimals[k as int] == Some(bits),
    ensures
        node_lines(nd).len() == node_instrs(nd, bits).len(),
        1 <= node_lines(nd).len() <= 2,
        line_reads(node_lines(nd)[0], node_instrs(nd, bits)[0], decimals, k, n),
        holds_float(nd) <==> node_instrs(nd, bits)[0] is PushDec,
        node_lines(nd).len() == 2 ==> line_reads(
            node_lines(nd)[1],
            node_instrs(nd, bits)[1],
            decimals,
            if holds_float(nd) {
                k + 1
            } else {
                k
            },
            n + 1,
        ) && !(node_instrs(nd, bits)[1] is PushDec),
{
    match nd {
        NodeV::Label(s) => {
            lemma_name_line(seq!['L', 'A', 'B', 'E', 'L'], s, decimals, k, n);
        },
        NodeV::Jump(s) => {
            lemma_name_line(seq!['J', 'U', 'M', 'P'], s, decimals, k, n);
        },
        NodeV::Call(s) => {
            lemma_name_line(seq!['C', 'A', 'L', 'L'], s, decimals, k, n);
        },
        NodeV::JumpIf(s) => {
            lemma_name_line(seq!['J', 'U', 'M', 'P', '_', 'I', 'F'], s, decimals, k, n);
        },
        NodeV::CallIf(s) => {
            lemma_name_line(seq!['C', 'A', 'L', 'L', '_', 'I', 'F'], s, decimals, k, n);
        },
        NodeV::Let(s) => {
            lemma_name_line(seq!['S', 'T', 'O', 'R', 'E'], s, decimals, k, n);
        },
        _ => {},
    }
}

/// The line of an arithmetic node reads as its instruction.
proof fn lemma_node_reads_count(nd: NodeV, bits: u64, decimals: Seq<Option<u64>>, k: nat, n: nat)
    requires
        nd is Add || nd is Sub || nd is Mul || nd is Div || nd is Mod,
        serializes_back(nd),
        holds_float(nd) ==> k < decimals.len() && decimals[k as int] == Some(bits),
    ensures
        node_lines(nd).len() == node_instrs(nd, bits).len(),
        1 <= node_lines(nd).len() <= 2,
        line_reads(node_lines(nd)[0], node_instrs(nd, bits)[0], decimals, k, n),
        holds_float(nd) <==> node_instrs(nd, bits)[0] is PushDec,
        node_lines(nd).len() == 2 ==> line_reads(
            node_lines(nd)[1],
            node_instrs(nd, bits)[1],
            decimals,
            if holds_float(nd) {
                k + 1
            } else {
                k
            },
            n + 1,
        ) && !(node_instrs(nd, bits)[1] is PushDec),
{
    match nd {
        NodeV::Add(c) => {
            lemma_count_line(seq!['A', 'D', 'D'], c, decimals, k, n);
        },
        NodeV::Sub(c) => {
            lemma_count_line(seq!['S', 'U', 'B'], c, decimals, k, n);
        },
        NodeV::Mul(c) => {
            lemma_count_line(seq!['M', 'U', 'L'], c, decimals, k, n);
        },
        NodeV::Div(c) => {
            lemma_count_line(seq!['D', 'I', 'V'], c, decimals, k, n);
        },
        NodeV::Mod(c) => {
            lemma_count_line(seq!['M', 'O', 'D'], c, decimals, k, n);
        },
        _ => {},
    }
}

/// The two lines of a `print` node read as its instructions.
proof fn lemma_node_reads_print(nd: NodeV, bits: u64, decimals: Seq<Option<u64>>, k: nat, n: nat)
    requires
        nd is Print,
        serializes_back(nd),
        holds_float(nd) ==> k < decimals.len() && decimals[k as int] == Some(bits),
    ensures
        node_lines(nd).len() == node_instrs(nd, bits).len(),
        1 <= node_lines(nd).len() <= 2,
        line_reads(node_lines(nd)[0], node_instrs(nd, bits)[0], decimals, k, n),
        holds_float(nd) <==> node_instrs(nd, bits)[0] is PushDec,
        node_lines(nd).len() == 2 ==> line_reads(
            node_lines(nd)[1],
            node_instrs(nd, bits)[1],
            decimals,
            if holds_float(nd) {
                k + 1
            } else {
                k
            },
            n + 1,
        ) && !(node_instrs(nd, bits)[1] is PushDec),
{
    match nd {
        NodeV::Print(e) => {
            lemma_value_reads(*e, bits, decimals, k, n);
            lemma_one_word(seq!['P', 'R', 'I', 'N', 'T']);
        },
        _ => {},
    }
}

/// The two lines of an `input` node read as its instructions.
proof fn lemma_node_reads_input(nd: NodeV, bits: u64, decimals: Seq<Option<u64>>, k: nat, n: nat)
    requires
        nd is Input,
        serializes_back(nd),
        holds_float(nd) ==> k < decimals.len() && decimals[k as int] == Some(bits),
    ensures
        node_lines(nd).len() == node_instrs(nd, bits).len(),
        1 <= node_lines(nd).len() <= 2,
        line_reads(node_lines(nd)[0], node_instrs(nd, bits)[0], decimals, k, n),
        holds_float(nd) <==> node_instrs(nd, bits)[0] is PushDec,
        node_lines(nd).len() == 2 ==> line_reads(
            node_lines(nd)[1],
            node_instrs(nd, bits)[1],
            decimals,
            if holds_float(nd) {
                k + 1
            } else {
                k
            },
            n + 1,
        ) && !(node_instrs(nd, bits)[1] is PushDec),
{
    match nd {
        NodeV::Input(s) => {
            lemma_one_word(seq!['I', 'N', 'P', 'U', 'T']);
            lemma_name_line(seq!['S', 'T', 'O', 'R', 'E'], s, decimals, k, n + 1);
        },
        _ => {},
    }
}

/// The lines of a node read as its instructions, one each.
proof fn lemma_node_reads(nd: NodeV, bits: u64, decimals: Seq<Option<u64>>, k: nat, n: nat)
    requires
        serializes_back(nd),
        holds_float(nd) ==> k < decimals.len() && decimals[k as int] == Some(bits),
    ensures
        node_lines(nd).len() == node_instrs(nd, bits).len(),
        1 <= node_lines(nd).len() <= 2,
        line_reads(node_lines(nd)[0], node_instrs(nd, bits)[0], decimals, k, n),
        holds_float(nd) <==> node_instrs(nd, bits)[0] is PushDec,
        node_lines(nd).len() == 2 ==> line_reads(
            node_lines(nd)[1],
            node_instrs(nd, bits)[1],
            decimals,
            if holds_float(nd) {
                k + 1
            } else {
                k
            },
            n + 1,
        ) && !(node_instrs(nd, bits)[1] is PushDec),
{
    if nd is Start || nd is End || nd is Delim || nd is Exit || nd is Return {
        lemma_node_reads_bare(nd, bits, decimals, k, n);
    } else if nd is Logic {
        lemma_node_reads_logic(nd, bits, decimals, k, n);
    } else if nd is Compare {
        lemma_node_reads_compare(nd, bits, decimals, k, n);
    } else if nd is Label || nd is Jump || nd is Call || nd is JumpIf || nd is CallIf || nd is Let {
        lemma_node_reads_name(nd, bits, decimals, k, n);
    } else if nd is Add || nd is Sub || nd is Mul || nd is Div || nd is Mod {
        lemma_node_reads_count(nd, bits, decimals, k, n);
    } else if nd is Print {
        lemma_node_reads_print(nd, bits, decimals, k, n);
    } else if nd is Input {
        lemma_node_reads_input(nd, bits, decimals, k, n);
    } else {
        lemma_value_reads(nd, bits, decimals, k, n);
    }
}

/// Closing the lines of two lists one after the other.
proof fn lemma_closed_concat(a: Seq<Seq<char>>, b: Seq<Seq<char>>)
    ensures
        closed_lines(a + b) == closed_lines(a) + closed_lines(b),
    decreases b.len(),
{
    if b.len() == 0 {
        assert(a + b =~= a);
        assert(closed_lines(b) =~= Seq::<char>::empty());
        assert(closed_lines(a) + closed_lines(b) =~= closed_lines(a));
    } else {
        lemma_closed_concat(a, b.drop_last());
        assert((a + b).drop_last() =~= a + b.drop_last());
        assert((a + b).last() == b.last());
        assert(closed_lines(a) + closed_lines(b) =~= closed_lines(a) + closed_lines(b.drop_last())
            + b.last().push('\n'));
    }
}

/// The assembly text of nodes that serialize back is their lines, each
/// closed by a newline.
proof fn lemma_serialization_lines(nodes: Seq<NodeV>)
    requires
        forall|j: int| 0 <= j < nodes.len() ==> serializes_back(#[trigger] nodes[j]),
    ensures
        spec_serialization(nodes) == Ok::<Seq<char>, crate::serializer::SerializeError>(
            closed_lines(all_lines(nodes)),
        ),
    decreases nodes.len(),
{
    if nodes.len() > 0 {
        let p = nodes.drop_last();
        assert forall|j: int| 0 <= j < p.len() implies serializes_back(#[trigger] p[j]) by {
            assert(p[j] == nodes[j]);
        }
        lemma_serialization_lines(p);
        assert(serializes_back(nodes[nodes.len() - 1]));
        lemma_node_text_lines(nodes.last());
        lemma_closed_concat(all_lines(p), node_lines(nodes.last()));
    }
}

/// Whether a value is supplied for every float constant of the nodes.
pub open spec fn floats_given(nodes: Seq<NodeV>, decimals: Seq<Option<u64>>) -> bool {
    &&& nodes_program(nodes, decimals).1 <= decimals.len()
    &&& forall|k: int| 0 <= k < nodes_program(nodes, decimals).1 ==> (#[trigger] decimals[k]) is Some
}

proof fn lemma_floats_given_prefix(nodes: Seq<NodeV>, decimals: Seq<Option<u64>>)
    requires
        nodes.len() > 0,
        floats_given(nodes, decimals),
    ensures
        floats_given(nodes.drop_last(), decimals),
        nodes_program(nodes.drop_last(), decimals).1 <= nodes_program(nodes, decimals).1,
{
}

/// The lines of nodes that serialize back assemble, in the compiler's
/// assembler, into the instructions of the nodes.
proof fn lemma_nodes_assemble(nodes: Seq<NodeV>, decimals: Seq<Option<u64>>)
    requires
        forall|j: int| 0 <= j < nodes.len() ==> serializes_back(#[trigger] nodes[j]),
        floats_given(nodes, decimals),
    ensures
        forall|j: int| 0 <= j < all_lines(nodes).len() ==> one_line(#[trigger] all_lines(nodes)[j]),
        assemble_fold(all_lines(nodes), Dialect::Compiler, decimals) == Ok::<
            (Seq<InstrV>, nat, nat),
            AsmError,
        >((nodes_program(nodes, decimals).0, all_lines(nodes).len(), nodes_program(nodes, decimals).1)),
    decreases nodes.len(),
{
    if nodes.len() == 0 {
        assert(all_lines(nodes) =~= Seq::<Seq<char>>::empty());
    } else {
        let p = nodes.drop_last();
        let nd = nodes.last();
        assert(serializes_back(nodes[nodes.len() - 1]));
        assert forall|j: int| 0 <= j < p.len() implies serializes_back(#[trigger] p[j]) by {
            assert(p[j] == nodes[j]);
        }
        lemma_floats_given_prefix(nodes, decimals);
        lemma_nodes_assemble(p, decimals);
        let (is, k) = nodes_program(p, decimals);
        let bits = if k < decimals.len() && decimals[k as int] is Some {
            decimals[k as int].unwrap()
        } else {
            0
        };
        let ls = all_lines(p);
        let n = ls.len();
        if holds_float(nd) {
            assert(k < nodes_program(nodes, decimals).1);
            assert(decimals[k as int] is Some);
        }
        lemma_node_reads(nd, bits, decimals, k, n);
        let big_l = node_lines(nd);
        let big_i = node_instrs(nd, bits);
        let x = ls.push(big_l[0]);
        assert(x.drop_last() =~= ls);
        let k1 = if holds_float(nd) {
            k + 1
        } else {
            k
        };
        assert(assemble_fold(x, Dialect::Compiler, decimals) == Ok::<
            (Seq<InstrV>, nat, nat),
            AsmError,
        >((is.push(big_i[0]), n + 1, k1)));
        if big_l.len() == 1 {
            assert(all_lines(nodes) =~= x);
            assert(is + big_i =~= is.push(big_i[0]));
            assert forall|j: int| 0 <= j < x.len() implies one_line(#[trigger] x[j]) by {
                if j < n {
                    assert(x[j] == ls[j]);
                }
            }
        } else {
            let y = x.push(big_l[1]);
            assert(y.drop_last() =~= x);
            assert(all_lines(nodes) =~= y);
            assert(is + big_i =~= is.push(big_i[0]).push(big_i[1]));
            assert forall|j: int| 0 <= j < y.len() implies one_line(#[trigger] y[j]) by {
                if j < n {
                    assert(y[j] == ls[j]);
                } else if j == n {
                    assert(y[j] == big_l[0]);
                }
            }
        }
    }
}

/// What the serializer writes for nodes that serialize back (see
/// [`serializes_back`]), the compiler's assembler reads as the instructions
/// of those nodes, given the value of each float constant in order: the
/// compiler's stages agree.
pub proof fn lemma_serialization_assembles(nodes: Seq<NodeV>, decimals: Seq<Option<u64>>)
    requires
        forall|j: int| 0 <= j < nodes.len() ==> serializes_back(#[trigger] nodes[j]),
        floats_given(nodes, decimals),
    ensures
        spec_serialization(nodes) matches Ok(t) && spec_assemble_program(t, Dialect::Compiler, decimals)
            == Ok::<Seq<InstrV>, AsmError>(nodes_program(nodes, decimals).0),
{
    lemma_serialization_lines(nodes);
    lemma_nodes_assemble(nodes, decimals);
    let ls = all_lines(nodes);
    lemma_closed_lines_split(ls);
    let t = closed_lines(ls);
    assert(spec_split_newlines(t) == ls.push(Seq::<char>::empty()));
    assert(ls.push(Seq::<char>::empty()).drop_last() =~= ls);
    assert(spec_words(Seq::<char>::empty()) =~= Seq::<Seq<char>>::empty());
}

/// Each comparison operator of a condition becomes the comparison byte
/// that the machine evaluates as that operator (`<=` as a <= b, and so on);
/// the six operators get six different bytes, no other token gets one, and
/// every byte they get can be written out.
pub proof fn lemma_condition_operators_keep_their_meaning(a: i64, b: i64, t: TokenV)
    ensures
        compare(compare_code(punct2('=', '=')).unwrap(), a, b) == Some(a == b),
        compare(compare_code(punct2('!', '=')).unwrap(), a, b) == Some(a != b),
        compare(compare_code(punct1('>')).unwrap(), a, b) == Some(a > b),
        compare(compare_code(punct2('>', '=')).unwrap(), a, b) == Some(a >= b),
        compare(compare_code(punct1('<')).unwrap(), a, b) == Some(a < b),
        compare(compare_code(punct2('<', '=')).unwrap(), a, b) == Some(a <= b),
        compare_code(t) is Some <==> (t == punct2('=', '=') || t == punct2('!', '=') || t == punct1(
            '>',
        ) || t == punct2('>', '=') || t == punct1('<') || t == punct2('<', '=')),
        compare_code(t) is Some ==> node_text(NodeV::Compare(compare_code(t).unwrap())) is Ok,
{
    let gt = seq!['>'];
    let lt = seq!['<'];
    let ge = seq!['>', '='];
    let le = seq!['<', '='];
    let eq = seq!['=', '='];
    let ne = seq!['!', '='];
    assert(gt[0] == '>' && lt[0] == '<' && gt.len() == 1 && lt.len() == 1);
    assert(ge[0] == '>' && le[0] == '<' && eq[0] == '=' && ne[0] == '!');
    assert(ge.len() == 2 && le.len() == 2 && eq.len() == 2 && ne.len() == 2);
    assert(gt != lt && gt != ge && gt != le && gt != eq && gt != ne);
    assert(lt != ge && lt != le && lt != eq && lt != ne);
    assert(ge != le && ge != eq && ge != ne && le != eq && le != ne && eq != ne);
}

/// Every comparison byte from `EQ` (0xC3) to `NE` (0xC8), and no other, can
/// be written out; its line is `COMPARE` and a name that the assembler reads
/// back as the same byte.
pub proof fn lemma_every_comparison_serializes(op: u8)
    ensures
        (0xC3 <= op <= 0xC8) <==> node_text(NodeV::Compare(op)) is Ok,
        0xC3 <= op <= 0xC8 ==> compare_operand(compare_name(op).unwrap()) == Some(op),
        node_text(NodeV::Compare(0xC8)) == Ok::<Seq<char>, SerializeError>(
            seq!['C', 'O', 'M', 'P', 'A', 'R', 'E', ' ', 'N', 'E', '\n'],
        ),
{
    assert(seq!['C', 'O', 'M', 'P', 'A', 'R', 'E', ' '] + seq!['N', 'E'] + nl() =~= seq![
        'C',
        'O',
        'M',
        'P',
        'A',
        'R',
        'E',
        ' ',
        'N',
        'E',
        '\n',
    ]);
}

} // verus!
