//! The AVM disassembler: reads bytecode back into instructions and writes
//! them as assembly text for the standalone assembler.
use vstd::prelude::*;
use vstd::utf8::encode_utf8;

use crate::bytecode::{
    decode_at, decode_instr, decode_view, encode_instr, encode_program, instrs_view,
    lemma_decode_encode, lemma_encode_decoded, lemma_encode_single, lemma_encode_program_concat,
    well_formed, DecodeError, Instr, InstrV,
};
use crate::encoding::push_chars_utf8;
use crate::number::{decimal, push_i64_text, push_u64_text, spec_int_text};

verus! {

/// The instructions from position `ip` to the end of the code. A `0x00`
/// byte is no instruction here.
pub open spec fn disassemble_from(code: Seq<u8>, ip: int) -> Result<Seq<InstrV>, DecodeError>
    decreases code.len() - ip,
{
    if ip < 0 || ip >= code.len() {
        Ok(seq![])
    } else {
        match decode_at(code, ip) {
            Err(e) => Err(e),
            Ok((i, next)) => {
                if i is Nop {
                    Err(DecodeError::UnknownOpcode(ip as usize))
                } else if next <= ip || next >= code.len() {
                    Ok(seq![i])
                } else {
                    match disassemble_from(code, next) {
                        Err(e) => Err(e),
                        Ok(rest) => Ok(seq![i] + rest),
                    }
                }
            },
        }
    }
}

pub open spec fn disasm_view(r: Result<Vec<Instr>, DecodeError>) -> Result<
    Seq<InstrV>,
    DecodeError,
> {
    match r {
        Ok(v) => Ok(instrs_view(v@)),
        Err(e) => Err(e),
    }
}

/// Reads a whole bytecode program back into instructions, or says where it
/// cannot be read.
pub fn disassemble(code: &Vec<u8>) -> (r: Result<Vec<Instr>, DecodeError>)
    requires
        code@.len() < usize::MAX,
    ensures
        disasm_view(r) == disassemble_from(code@, 0),
{
    let mut out: Vec<Instr> = Vec::new();
    let mut ip: usize = 0;
    assert(instrs_view(out@) =~= Seq::<InstrV>::empty());
    while ip < code.len()
        invariant
            code@.len() < usize::MAX,
            match disassemble_from(code@, ip as int) {
                Ok(rest) => disassemble_from(code@, 0) == Ok::<Seq<InstrV>, DecodeError>(
                    instrs_view(out@) + rest,
                ),
                Err(e) => disassemble_from(code@, 0) == Err::<Seq<InstrV>, DecodeError>(e),
            },
        decreases code@.len() - ip,
    {
        let (i, next) = match decode_instr(code, ip) {
            Ok(x) => x,
            Err(e) => {
                return Err(e);
            },
        };
        if let Instr::Nop = i {
            return Err(DecodeError::UnknownOpcode(ip));
        }
        let ghost before = instrs_view(out@);
        let ghost iv = i@;
        out.push(i);
        assert(instrs_view(out@) =~= before + seq![iv]);
        if next >= code.len() {
            return Ok(out);
        }
        proof {
            match disassemble_from(code@, next as int) {
                Ok(rest) => {
                    assert(before + (seq![iv] + rest) =~= instrs_view(out@) + rest);
                },
                Err(_) => {},
            }
        }
        ip = next;
    }
    assert(instrs_view(out@) + Seq::<InstrV>::empty() =~= instrs_view(out@));
    Ok(out)
}

pub open spec fn bnl() -> Seq<u8> {
    seq![10u8]
}

/// The text of a comparison byte in a listing.
pub open spec fn compare_text(c: u8) -> Seq<u8> {
    if c == 0xC3 {
        seq![69u8, 81u8]
    } else if c == 0xC5 {
        seq![71u8, 84u8]
    } else if c == 0xC4 {
        seq![71u8, 69u8]
    } else if c == 0xC7 {
        seq![76u8, 84u8]
    } else if c == 0xC6 {
        seq![76u8, 69u8]
    } else if c == 0xC8 {
        seq![78u8, 69u8]
    } else {
        seq![85u8, 78u8, 75u8, 78u8, 79u8, 87u8, 78u8]
    }
}

/// The listing line of one instruction, as UTF-8 bytes; `dec` is the text
/// of a float constant.
pub open spec fn listing_line(i: InstrV, dec: Seq<u8>) -> Seq<u8> {
    match i {
        InstrV::Add(c) => seq![65u8, 68u8, 68u8, 32u8] + encode_utf8(decimal(c as nat)) + bnl(),
        InstrV::Sub(c) => seq![83u8, 85u8, 66u8, 32u8] + encode_utf8(decimal(c as nat)) + bnl(),
        InstrV::Mul(c) => seq![77u8, 85u8, 76u8, 32u8] + encode_utf8(decimal(c as nat)) + bnl(),
        InstrV::Div(c) => seq![68u8, 73u8, 86u8, 32u8] + encode_utf8(decimal(c as nat)) + bnl(),
        InstrV::Mod(c) => seq![77u8, 79u8, 68u8, 32u8] + encode_utf8(decimal(c as nat)) + bnl(),
        InstrV::Store(n) => seq![83u8, 84u8, 79u8, 82u8, 69u8, 32u8] + n + bnl(),
        InstrV::PushInt(v) => seq![80u8, 85u8, 83u8, 72u8, 95u8, 73u8, 78u8, 84u8, 32u8] + encode_utf8(spec_int_text(v as int)) + bnl(),
        InstrV::PushStr(n) => seq![80u8, 85u8, 83u8, 72u8, 95u8, 83u8, 84u8, 82u8, 32u8] + n + bnl(),
        InstrV::PushBool(b) => seq![80u8, 85u8, 83u8, 72u8, 95u8, 66u8, 79u8, 79u8, 76u8, 32u8] + (if b == 1 {
            seq![116u8, 114u8, 117u8, 101u8]
        } else {
            seq![102u8, 97u8, 108u8, 115u8, 101u8]
        }) + bnl(),
        InstrV::PushDec(_) => seq![80u8, 85u8, 83u8, 72u8, 95u8, 68u8, 69u8, 67u8, 32u8] + dec + bnl(),
        InstrV::Load(n) => seq![76u8, 79u8, 65u8, 68u8, 95u8, 73u8, 78u8, 84u8, 32u8] + n + bnl(),
        InstrV::LoadStr(n) => seq![76u8, 79u8, 65u8, 68u8, 95u8, 83u8, 84u8, 82u8, 32u8] + n + bnl(),
        InstrV::LoadBool(n) => seq![76u8, 79u8, 65u8, 68u8, 95u8, 66u8, 79u8, 79u8, 76u8, 32u8] + n + bnl(),
        InstrV::LoadDec(n) => seq![76u8, 79u8, 65u8, 68u8, 95u8, 68u8, 69u8, 67u8, 32u8] + n + bnl(),
        InstrV::Compare(c) => seq![67u8, 79u8, 77u8, 80u8, 65u8, 82u8, 69u8, 32u8] + compare_text(c) + bnl(),
        InstrV::JumpIf(n) => seq![74u8, 85u8, 77u8, 80u8, 95u8, 73u8, 70u8, 32u8] + n + bnl(),
        InstrV::CallIf(n) => seq![67u8, 65u8, 76u8, 76u8, 95u8, 73u8, 70u8, 32u8] + n + bnl(),
        InstrV::And => seq![65u8, 78u8, 68u8, 10u8],
        InstrV::Or => seq![79u8, 82u8, 10u8],
        InstrV::Not => seq![78u8, 79u8, 84u8, 10u8],
        InstrV::Xor => seq![88u8, 79u8, 82u8, 10u8],
        InstrV::Label(n) => seq![76u8, 65u8, 66u8, 69u8, 76u8, 32u8] + n + bnl(),
        InstrV::Print => seq![80u8, 82u8, 73u8, 78u8, 84u8, 10u8],
        InstrV::Input => seq![73u8, 78u8, 80u8, 85u8, 84u8, 10u8],
        InstrV::Call(n) => seq![67u8, 65u8, 76u8, 76u8, 32u8] + n + bnl(),
        InstrV::Ret => seq![82u8, 69u8, 84u8, 10u8],
        InstrV::Jump(n) => seq![74u8, 85u8, 77u8, 80u8, 32u8] + n + bnl(),
        InstrV::Start => seq![65u8, 82u8, 67u8, 95u8, 83u8, 84u8, 65u8, 82u8, 84u8, 10u8],
        InstrV::End => seq![65u8, 82u8, 67u8, 95u8, 69u8, 78u8, 68u8, 10u8],
        InstrV::Delim => seq![65u8, 82u8, 67u8, 95u8, 68u8, 69u8, 76u8, 73u8, 77u8, 10u8],
        InstrV::Nop => seq![],
    }
}

/// The listing of instructions, and how many float constants it used;
/// `decs[k]` is the text of the `k`-th float constant (empty when missing).
pub open spec fn listing_fold(is: Seq<InstrV>, decs: Seq<Seq<u8>>) -> (Seq<u8>, nat)
    decreases is.len(),
{
    if is.len() == 0 {
        (seq![], 0)
    } else {
        let (text, k) = listing_fold(is.drop_last(), decs);
        match is.last() {
            InstrV::PushDec(_) => (
                text + listing_line(is.last(), if k < decs.len() {
                    decs[k as int]
                } else {
                    seq![]
                }),
                k + 1,
            ),
            _ => (text + listing_line(is.last(), seq![]), k),
        }
    }
}

pub open spec fn spec_listing(is: Seq<InstrV>, decs: Seq<Seq<u8>>) -> Seq<u8> {
    listing_fold(is, decs).0
}

pub open spec fn byte_views(v: Seq<Vec<u8>>) -> Seq<Seq<u8>> {
    v.map_values(|x: Vec<u8>| x@)
}

/// Appends the bytes of `lit`.
pub fn push_bytes(out: &mut Vec<u8>, lit: &[u8])
    ensures
        final(out)@ == old(out)@ + lit@,
{
    let mut i: usize = 0;
    while i < lit.len()
        invariant
            0 <= i <= lit@.len(),
            out@ == old(out)@ + lit@.take(i as int),
        decreases lit@.len() - i,
    {
        out.push(lit[i]);
        assert(out@ =~= old(out)@ + lit@.take(i + 1));
        i = i + 1;
    }
    assert(lit@.take(lit@.len() as int) =~= lit@);
}

fn push_named(out: &mut Vec<u8>, head: &[u8], n: &Vec<u8>)
    ensures
        final(out)@ == old(out)@ + (head@ + n@ + bnl()),
{
    push_bytes(out, head);
    push_bytes(out, n.as_slice());
    push_bytes(out, &[10u8]);
    assert(final(out)@ =~= old(out)@ + (head@ + n@ + bnl()));
}

fn push_counted(out: &mut Vec<u8>, head: &[u8], c: u8)
    ensures
        final(out)@ == old(out)@ + (head@ + encode_utf8(decimal(c as nat)) + bnl()),
{
    push_bytes(out, head);
    let mut digits: Vec<char> = Vec::new();
    push_u64_text(c as u64, &mut digits);
    assert(digits@ =~= decimal(c as nat));
    push_chars_utf8(&digits, out);
    push_bytes(out, &[10u8]);
    assert(final(out)@ =~= old(out)@ + (head@ + encode_utf8(decimal(c as nat)) + bnl()));
}

fn push_listing_line(out: &mut Vec<u8>, i: &Instr, dec: &Vec<u8>)
    ensures
        final(out)@ == old(out)@ + listing_line(i@, dec@),
{
    match i {
        Instr::Add(c) => push_counted(out, &[65u8, 68u8, 68u8, 32u8], *c),
        Instr::Sub(c) => push_counted(out, &[83u8, 85u8, 66u8, 32u8], *c),
        Instr::Mul(c) => push_counted(out, &[77u8, 85u8, 76u8, 32u8], *c),
        Instr::Div(c) => push_counted(out, &[68u8, 73u8, 86u8, 32u8], *c),
        Instr::Mod(c) => push_counted(out, &[77u8, 79u8, 68u8, 32u8], *c),
        Instr::Store(n) => push_named(out, &[83u8, 84u8, 79u8, 82u8, 69u8, 32u8], n),
        Instr::PushInt(v) => {
            push_bytes(out, &[80u8, 85u8, 83u8, 72u8, 95u8, 73u8, 78u8, 84u8, 32u8]);
            let mut digits: Vec<char> = Vec::new();
            push_i64_text(*v, &mut digits);
            assert(digits@ =~= spec_int_text(*v as int));
            push_chars_utf8(&digits, out);
            push_bytes(out, &[10u8]);
            assert(final(out)@ =~= old(out)@ + listing_line(i@, dec@));
        },
        Instr::PushStr(n) => push_named(out, &[80u8, 85u8, 83u8, 72u8, 95u8, 83u8, 84u8, 82u8, 32u8], n),
        Instr::PushBool(b) => {
            push_bytes(out, &[80u8, 85u8, 83u8, 72u8, 95u8, 66u8, 79u8, 79u8, 76u8, 32u8]);
            if *b == 1 {
                push_bytes(out, &[116u8, 114u8, 117u8, 101u8]);
            } else {
                push_bytes(out, &[102u8, 97u8, 108u8, 115u8, 101u8]);
            }
            push_bytes(out, &[10u8]);
            assert(final(out)@ =~= old(out)@ + listing_line(i@, dec@));
        },
        Instr::PushDec(_) => push_named(out, &[80u8, 85u8, 83u8, 72u8, 95u8, 68u8, 69u8, 67u8, 32u8], dec),
        Instr::Load(n) => push_named(out, &[76u8, 79u8, 65u8, 68u8, 95u8, 73u8, 78u8, 84u8, 32u8], n),
        Instr::LoadStr(n) => push_named(out, &[76u8, 79u8, 65u8, 68u8, 95u8, 83u8, 84u8, 82u8, 32u8], n),
        Instr::LoadBool(n) => push_named(out, &[76u8, 79u8, 65u8, 68u8, 95u8, 66u8, 79u8, 79u8, 76u8, 32u8], n),
        Instr::LoadDec(n) => push_named(out, &[76u8, 79u8, 65u8, 68u8, 95u8, 68u8, 69u8, 67u8, 32u8], n),
        Instr::Compare(c) => {
            push_bytes(out, &[67u8, 79u8, 77u8, 80u8, 65u8, 82u8, 69u8, 32u8]);
            let c = *c;
            if c == 0xC3 {
                push_bytes(out, &[69u8, 81u8]);
            } else if c == 0xC5 {
                push_bytes(out, &[71u8, 84u8]);
            } else if c == 0xC4 {
                push_bytes(out, &[71u8, 69u8]);
            } else if c == 0xC7 {
                push_bytes(out, &[76u8, 84u8]);
            } else if c == 0xC6 {
                push_bytes(out, &[76u8, 69u8]);
            } else if c == 0xC8 {
                push_bytes(out, &[78u8, 69u8]);
            } else {
                push_bytes(out, &[85u8, 78u8, 75u8, 78u8, 79u8, 87u8, 78u8]);
            }
            push_bytes(out, &[10u8]);
            assert(final(out)@ =~= old(out)@ + listing_line(i@, dec@));
        },
        Instr::JumpIf(n) => push_named(out, &[74u8, 85u8, 77u8, 80u8, 95u8, 73u8, 70u8, 32u8], n),
        Instr::CallIf(n) => push_named(out, &[67u8, 65u8, 76u8, 76u8, 95u8, 73u8, 70u8, 32u8], n),
        Instr::And => push_bytes(out, &[65u8, 78u8, 68u8, 10u8]),
        Instr::Or => push_bytes(out, &[79u8, 82u8, 10u8]),
        Instr::Not => push_bytes(out, &[78u8, 79u8, 84u8, 10u8]),
        Instr::Xor => push_bytes(out, &[88u8, 79u8, 82u8, 10u8]),
        Instr::Label(n) => push_named(out, &[76u8, 65u8, 66u8, 69u8, 76u8, 32u8], n),
        Instr::Print => push_bytes(out, &[80u8, 82u8, 73u8, 78u8, 84u8, 10u8]),
        Instr::Input => push_bytes(out, &[73u8, 78u8, 80u8, 85u8, 84u8, 10u8]),
        Instr::Call(n) => push_named(out, &[67u8, 65u8, 76u8, 76u8, 32u8], n),
        Instr::Ret => push_bytes(out, &[82u8, 69u8, 84u8, 10u8]),
        Instr::Jump(n) => push_named(out, &[74u8, 85u8, 77u8, 80u8, 32u8], n),
        Instr::Start => push_bytes(out, &[65u8, 82u8, 67u8, 95u8, 83u8, 84u8, 65u8, 82u8, 84u8, 10u8]),
        Instr::End => push_bytes(out, &[65u8, 82u8, 67u8, 95u8, 69u8, 78u8, 68u8, 10u8]),
        Instr::Delim => push_bytes(out, &[65u8, 82u8, 67u8, 95u8, 68u8, 69u8, 76u8, 73u8, 77u8, 10u8]),
        Instr::Nop => {
            assert(final(out)@ =~= old(out)@ + listing_line(i@, dec@));
        },
    }
}

/// Writes instructions as assembly text (UTF-8 bytes), one line each;
/// `float_texts[k]` is the text of the `k`-th `PUSH_DEC` constant.
pub fn listing(program: &Vec<Instr>, float_texts: &Vec<Vec<u8>>) -> (r: Vec<u8>)
    ensures
        r@ == spec_listing(instrs_view(program@), byte_views(float_texts@)),
{
    let ghost pv = instrs_view(program@);
    let ghost dv = byte_views(float_texts@);
    let mut out: Vec<u8> = Vec::new();
    let mut k: usize = 0;
    let mut i: usize = 0;
    let empty: Vec<u8> = Vec::new();
    assert(pv.take(0) =~= Seq::<InstrV>::empty());
    assert(out@ =~= Seq::<u8>::empty());
    while i < program.len()
        invariant
            0 <= i <= program@.len(),
            k <= i,
            pv == instrs_view(program@),
            dv == byte_views(float_texts@),
            empty@ == Seq::<u8>::empty(),
            listing_fold(pv.take(i as int), dv) == (out@, k as nat),
        decreases program@.len() - i,
    {
        assert(pv.take(i + 1).drop_last() =~= pv.take(i as int));
        assert(pv.take(i + 1).last() == program@[i as int]@);
        match &program[i] {
            Instr::PushDec(_) => {
                if k < float_texts.len() {
                    assert(dv[k as int] == float_texts@[k as int]@);
                    push_listing_line(&mut out, &program[i], &float_texts[k]);
                } else {
                    push_listing_line(&mut out, &program[i], &empty);
                }
                k = k + 1;
            },
            _ => {
                push_listing_line(&mut out, &program[i], &empty);
            },
        }
        i = i + 1;
    }
    assert(pv.take(pv.len() as int) =~= pv);
    out
}


/// A program that the disassembler reads from `ip` to the end is written
/// back by the assembler as the very bytes it was read from.
pub proof fn lemma_disassembled_encodes_back(code: Seq<u8>, ip: int, is: Seq<InstrV>)
    requires
        0 <= ip <= code.len(),
        disassemble_from(code, ip) == Ok::<Seq<InstrV>, DecodeError>(is),
    ensures
        encode_program(is) == code.subrange(ip, code.len() as int),
        forall|j: int| 0 <= j < is.len() ==> well_formed(#[trigger] is[j]),
    decreases code.len() - ip,
{
    if ip == code.len() {
        assert(is =~= Seq::<InstrV>::empty());
        assert(code.subrange(ip, code.len() as int) =~= Seq::<u8>::empty());
    } else {
        let (i, next) = decode_at(code, ip)->Ok_0;
        assert(is[0] == i);
        lemma_encode_decoded(code, ip);
        if next >= code.len() {
            assert(is =~= seq![i]);
            lemma_encode_single(i);
        } else {
            let rest = disassemble_from(code, next)->Ok_0;
            assert(is =~= seq![i] + rest);
            lemma_disassembled_encodes_back(code, next, rest);
            lemma_encode_program_concat(seq![i], rest);
            lemma_encode_single(i);
            assert(code.subrange(ip, code.len() as int) =~= code.subrange(ip, next) + code.subrange(
                next,
                code.len() as int,
            ));
            assert forall|j: int| 0 <= j < is.len() implies well_formed(#[trigger] is[j]) by {
                if j > 0 {
                    assert(is[j] == rest[j - 1]);
                }
            }
        }
    }
}

proof fn lemma_encode_program_nonempty(is: Seq<InstrV>)
    ensures
        is.len() > 0 ==> encode_program(is).len() > 0,
    decreases is.len(),
{
    if is.len() > 0 {
        lemma_encode_program_nonempty(is.drop_last());
    }
}

proof fn lemma_disassemble_suffix(code: Seq<u8>, ip: int, is: Seq<InstrV>)
    requires
        0 <= ip <= code.len(),
        code.subrange(ip, code.len() as int) == encode_program(is),
        forall|j: int|
            0 <= j < is.len() ==> well_formed(#[trigger] is[j]) && !(is[j] is Nop),
    ensures
        disassemble_from(code, ip) == Ok::<Seq<InstrV>, DecodeError>(is),
    decreases is.len(),
{
    if is.len() == 0 {
        assert(code.subrange(ip, code.len() as int).len() == 0);
        assert(is =~= Seq::<InstrV>::empty());
    } else {
        let i = is[0];
        let rest = is.drop_first();
        assert(seq![i] + rest =~= is);
        lemma_encode_program_concat(seq![i], rest);
        lemma_encode_single(i);
        let before = code.subrange(0, ip);
        let after = encode_program(rest);
        assert(code =~= code.subrange(0, ip) + code.subrange(ip, code.len() as int));
        assert(code =~= before + encode_instr(i) + after);
        lemma_decode_encode(i, before, after);
        let next = ip + encode_instr(i).len();
        lemma_encode_program_nonempty(rest);
        if rest.len() == 0 {
            assert(is =~= seq![i]);
        } else {
            assert(code.subrange(next, code.len() as int) =~= after);
            assert forall|j: int|
                0 <= j < rest.len() implies well_formed(#[trigger] rest[j]) && !(rest[j] is Nop) by {
                assert(rest[j] == is[j + 1]);
            }
            lemma_disassemble_suffix(code, next, rest);
        }
    }
}

/// What the assembler writes for instructions that read back (see
/// [`well_formed`]) and hold no `0x00`, the disassembler reads back as the
/// same instructions.
pub proof fn lemma_encoded_disassembles(is: Seq<InstrV>)
    requires
        forall|j: int|
            0 <= j < is.len() ==> well_formed(#[trigger] is[j]) && !(is[j] is Nop),
    ensures
        disassemble_from(encode_program(is), 0) == Ok::<Seq<InstrV>, DecodeError>(is),
{
    let code = encode_program(is);
    assert(code.subrange(0, code.len() as int) =~= code);
    lemma_disassemble_suffix(code, 0, is);
}

} // verus!
