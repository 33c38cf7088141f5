//! AVM bytecode: the instructions, how each is written as bytes, and how an
//! instruction is read back from a byte position.
use vstd::bytes::{
    lemma_auto_spec_u64_to_from_le_bytes, spec_u64_from_le_bytes, spec_u64_to_le_bytes,
    u64_from_le_bytes, u64_to_le_bytes,
};
use vstd::prelude::*;
use vstd::slice::slice_subrange;
use vstd::utf8::valid_utf8;

use crate::encoding::is_valid_utf8;

verus! {

/// One AVM instruction. Names and strings are UTF-8 bytes; a float constant
/// is the bit pattern of an IEEE 754 double; `PushBool` keeps its byte.
#[derive(Debug, PartialEq)]
pub enum Instr {
    Add(u8),
    Sub(u8),
    Mul(u8),
    Div(u8),
    Mod(u8),
    Store(Vec<u8>),
    PushInt(i64),
    PushStr(Vec<u8>),
    PushBool(u8),
    PushDec(u64),
    Load(Vec<u8>),
    LoadStr(Vec<u8>),
    LoadBool(Vec<u8>),
    LoadDec(Vec<u8>),
    Compare(u8),
    JumpIf(Vec<u8>),
    CallIf(Vec<u8>),
    And,
    Or,
    Not,
    Xor,
    Label(Vec<u8>),
    Print,
    Input,
    Call(Vec<u8>),
    Ret,
    Jump(Vec<u8>),
    Start,
    End,
    Delim,
    Nop,
}

/// The mathematical value of an [`Instr`].
pub enum InstrV {
    Add(u8),
    Sub(u8),
    Mul(u8),
    Div(u8),
    Mod(u8),
    Store(Seq<u8>),
    PushInt(i64),
    PushStr(Seq<u8>),
    PushBool(u8),
    PushDec(u64),
    Load(Seq<u8>),
    LoadStr(Seq<u8>),
    LoadBool(Seq<u8>),
    LoadDec(Seq<u8>),
    Compare(u8),
    JumpIf(Seq<u8>),
    CallIf(Seq<u8>),
    And,
    Or,
    Not,
    Xor,
    Label(Seq<u8>),
    Print,
    Input,
    Call(Seq<u8>),
    Ret,
    Jump(Seq<u8>),
    Start,
    End,
    Delim,
    Nop,
}

impl View for Instr {
    type V = InstrV;

    open spec fn view(&self) -> InstrV {
        match self {
            Instr::Add(c) => InstrV::Add(*c),
            Instr::Sub(c) => InstrV::Sub(*c),
            Instr::Mul(c) => InstrV::Mul(*c),
            Instr::Div(c) => InstrV::Div(*c),
            Instr::Mod(c) => InstrV::Mod(*c),
            Instr::Store(n) => InstrV::Store(n@),
            Instr::PushInt(v) => InstrV::PushInt(*v),
            Instr::PushStr(n) => InstrV::PushStr(n@),
            Instr::PushBool(b) => InstrV::PushBool(*b),
            Instr::PushDec(d) => InstrV::PushDec(*d),
            Instr::Load(n) => InstrV::Load(n@),
            Instr::LoadStr(n) => InstrV::LoadStr(n@),
            Instr::LoadBool(n) => InstrV::LoadBool(n@),
            Instr::LoadDec(n) => InstrV::LoadDec(n@),
            Instr::Compare(c) => InstrV::Compare(*c),
            Instr::JumpIf(n) => InstrV::JumpIf(n@),
            Instr::CallIf(n) => InstrV::CallIf(n@),
            Instr::And => InstrV::And,
            Instr::Or => InstrV::Or,
            Instr::Not => InstrV::Not,
            Instr::Xor => InstrV::Xor,
            Instr::Label(n) => InstrV::Label(n@),
            Instr::Print => InstrV::Print,
            Instr::Input => InstrV::Input,
            Instr::Call(n) => InstrV::Call(n@),
            Instr::Ret => InstrV::Ret,
            Instr::Jump(n) => InstrV::Jump(n@),
            Instr::Start => InstrV::Start,
            Instr::End => InstrV::End,
            Instr::Delim => InstrV::Delim,
            Instr::Nop => InstrV::Nop,
        }
    }
}

pub open spec fn instrs_view(v: Seq<Instr>) -> Seq<InstrV> {
    v.map_values(|i: Instr| i@)
}

/// A name or string operand: one byte giving its length, then its bytes.
/// An operand is shorter than 256 bytes wherever bytecode is written (see
/// [`operand_fits`]); the byte is taken modulo 256 only so that the
/// function is total.
pub open spec fn text_field(b: Seq<u8>) -> Seq<u8> {
    seq![(b.len() % 256) as u8] + b
}

/// The name or string operand of an instruction, if it has one.
pub open spec fn text_operand(i: InstrV) -> Option<Seq<u8>> {
    match i {
        InstrV::Store(n) => Some(n),
        InstrV::PushStr(n) => Some(n),
        InstrV::Load(n) => Some(n),
        InstrV::LoadStr(n) => Some(n),
        InstrV::LoadBool(n) => Some(n),
        InstrV::LoadDec(n) => Some(n),
        InstrV::JumpIf(n) => Some(n),
        InstrV::CallIf(n) => Some(n),
        InstrV::Label(n) => Some(n),
        InstrV::Call(n) => Some(n),
        InstrV::Jump(n) => Some(n),
        _ => None,
    }
}

/// An instruction whose name or string operand, if any, fits the one
/// length byte: it is shorter than 256 bytes.
pub open spec fn operand_fits(i: InstrV) -> bool {
    text_operand(i) matches Some(n) ==> n.len() < 256
}

/// The bytes of one instruction.
pub open spec fn encode_instr(i: InstrV) -> Seq<u8> {
    match i {
        InstrV::Add(c) => seq![0x01u8, c],
        InstrV::Sub(c) => seq![0x02u8, c],
        InstrV::Mul(c) => seq![0x03u8, c],
        InstrV::Div(c) => seq![0x04u8, c],
        InstrV::Mod(c) => seq![0x05u8, c],
        InstrV::Store(n) => seq![0x10u8] + text_field(n),
        InstrV::PushInt(v) => seq![0x11u8] + spec_u64_to_le_bytes(v as u64),
        InstrV::PushStr(n) => seq![0x12u8] + text_field(n),
        InstrV::PushBool(b) => seq![0x13u8, b],
        InstrV::PushDec(d) => seq![0x14u8] + spec_u64_to_le_bytes(d),
        InstrV::Load(n) => seq![0x15u8] + text_field(n),
        InstrV::LoadStr(n) => seq![0x16u8] + text_field(n),
        InstrV::LoadBool(n) => seq![0x17u8] + text_field(n),
        InstrV::LoadDec(n) => seq![0x18u8] + text_field(n),
        InstrV::Compare(c) => seq![0xC0u8, c],
        InstrV::JumpIf(n) => seq![0xC1u8] + text_field(n),
        InstrV::CallIf(n) => seq![0xC2u8] + text_field(n),
        InstrV::And => seq![0xD0u8],
        InstrV::Or => seq![0xD1u8],
        InstrV::Not => seq![0xD2u8],
        InstrV::Xor => seq![0xD3u8],
        InstrV::Label(n) => seq![0xD4u8] + text_field(n),
        InstrV::Print => seq![0xE0u8],
        InstrV::Input => seq![0xE1u8],
        InstrV::Call(n) => seq![0xE2u8] + text_field(n),
        InstrV::Ret => seq![0xE3u8],
        InstrV::Jump(n) => seq![0xE4u8] + text_field(n),
        InstrV::Start => seq![0xF0u8],
        InstrV::End => seq![0xF1u8],
        InstrV::Delim => seq![0xF2u8],
        InstrV::Nop => seq![0x00u8],
    }
}

/// The bytes of an instruction sequence.
pub open spec fn encode_program(is: Seq<InstrV>) -> Seq<u8>
    decreases is.len(),
{
    if is.len() == 0 {
        seq![]
    } else {
        encode_program(is.drop_last()) + encode_instr(is.last())
    }
}

fn push_text_field(out: &mut Vec<u8>, n: &Vec<u8>)
    ensures
        final(out)@ == old(out)@ + text_field(n@),
{
    let len_byte = (n.len() % 256) as u8;
    out.push(len_byte);
    let mut i: usize = 0;
    while i < n.len()
        invariant
            0 <= i <= n@.len(),
            out@ == old(out)@ + seq![len_byte] + n@.take(i as int),
            len_byte == (n@.len() % 256) as u8,
        decreases n@.len() - i,
    {
        out.push(n[i]);
        assert(out@ =~= old(out)@ + seq![len_byte] + n@.take(i + 1));
        i = i + 1;
    }
    assert(n@.take(n@.len() as int) =~= n@);
    assert(final(out)@ =~= old(out)@ + text_field(n@));
}

fn push_le8(out: &mut Vec<u8>, x: u64)
    ensures
        final(out)@ == old(out)@ + spec_u64_to_le_bytes(x),
{
    let mut b = u64_to_le_bytes(x);
    out.append(&mut b);
}

/// Appends the bytes of one instruction.
pub fn encode_into(i: &Instr, out: &mut Vec<u8>)
    requires
        operand_fits(i@),
    ensures
        final(out)@ == old(out)@ + encode_instr(i@),
{
    match i {
        Instr::Add(c) => {
            out.push(0x01);
            out.push(*c);
        },
        Instr::Sub(c) => {
            out.push(0x02);
            out.push(*c);
        },
        Instr::Mul(c) => {
            out.push(0x03);
            out.push(*c);
        },
        Instr::Div(c) => {
            out.push(0x04);
            out.push(*c);
        },
        Instr::Mod(c) => {
            out.push(0x05);
            out.push(*c);
        },
        Instr::Store(n) => {
            out.push(0x10);
            push_text_field(out, n);
        },
        Instr::PushInt(v) => {
            out.push(0x11);
            push_le8(out, *v as u64);
        },
        Instr::PushStr(n) => {
            out.push(0x12);
            push_text_field(out, n);
        },
        Instr::PushBool(b) => {
            out.push(0x13);
            out.push(*b);
        },
        Instr::PushDec(d) => {
            out.push(0x14);
            push_le8(out, *d);
        },
        Instr::Load(n) => {
            out.push(0x15);
            push_text_field(out, n);
        },
        Instr::LoadStr(n) => {
            out.push(0x16);
            push_text_field(out, n);
        },
        Instr::LoadBool(n) => {
            out.push(0x17);
            push_text_field(out, n);
        },
        Instr::LoadDec(n) => {
            out.push(0x18);
            push_text_field(out, n);
        },
        Instr::Compare(c) => {
            out.push(0xC0);
            out.push(*c);
        },
        Instr::JumpIf(n) => {
            out.push(0xC1);
            push_text_field(out, n);
        },
        Instr::CallIf(n) => {
            out.push(0xC2);
            push_text_field(out, n);
        },
        Instr::And => {
            out.push(0xD0);
        },
        Instr::Or => {
            out.push(0xD1);
        },
        Instr::Not => {
            out.push(0xD2);
        },
        Instr::Xor => {
            out.push(0xD3);
        },
        Instr::Label(n) => {
            out.push(0xD4);
            push_text_field(out, n);
        },
        Instr::Print => {
            out.push(0xE0);
        },
        Instr::Input => {
            out.push(0xE1);
        },
        Instr::Call(n) => {
            out.push(0xE2);
            push_text_field(out, n);
        },
        Instr::Ret => {
            out.push(0xE3);
        },
        Instr::Jump(n) => {
            out.push(0xE4);
            push_text_field(out, n);
        },
        Instr::Start => {
            out.push(0xF0);
        },
        Instr::End => {
            out.push(0xF1);
        },
        Instr::Delim => {
            out.push(0xF2);
        },
        Instr::Nop => {
            out.push(0x00);
        },
    }
    assert(final(out)@ =~= old(out)@ + encode_instr(i@));
}

/// Why no instruction can be read at a position; the number is that position.
#[derive(Debug, Clone, Copy, PartialEq, Eq, Structural)]
pub enum DecodeError {
    /// The operand runs past the end of the code.
    Truncated(usize),
    /// A name or string operand that is not UTF-8.
    BadText(usize),
    /// A byte that is no opcode.
    UnknownOpcode(usize),
}

/// The instruction a text-operand opcode stands for.
pub open spec fn text_instr(op: u8, n: Seq<u8>) -> InstrV {
    if op == 0x10 {
        InstrV::Store(n)
    } else if op == 0x12 {
        InstrV::PushStr(n)
    } else if op == 0x15 {
        InstrV::Load(n)
    } else if op == 0x16 {
        InstrV::LoadStr(n)
    } else if op == 0x17 {
        InstrV::LoadBool(n)
    } else if op == 0x18 {
        InstrV::LoadDec(n)
    } else if op == 0xC1 {
        InstrV::JumpIf(n)
    } else if op == 0xC2 {
        InstrV::CallIf(n)
    } else if op == 0xD4 {
        InstrV::Label(n)
    } else if op == 0xE2 {
        InstrV::Call(n)
    } else {
        InstrV::Jump(n)
    }
}

pub open spec fn is_text_opcode(op: u8) -> bool {
    op == 0x10 || op == 0x12 || op == 0x15 || op == 0x16 || op == 0x17 || op == 0x18 || op == 0xC1
        || op == 0xC2 || op == 0xD4 || op == 0xE2 || op == 0xE4
}

/// The instruction that takes no operand, for its opcode.
pub open spec fn bare_instr(op: u8) -> Option<InstrV> {
    if op == 0xD0 {
        Some(InstrV::And)
    } else if op == 0xD1 {
        Some(InstrV::Or)
    } else if op == 0xD2 {
        Some(InstrV::Not)
    } else if op == 0xD3 {
        Some(InstrV::Xor)
    } else if op == 0xE0 {
        Some(InstrV::Print)
    } else if op == 0xE1 {
        Some(InstrV::Input)
    } else if op == 0xE3 {
        Some(InstrV::Ret)
    } else if op == 0xF0 {
        Some(InstrV::Start)
    } else if op == 0xF1 {
        Some(InstrV::End)
    } else if op == 0xF2 {
        Some(InstrV::Delim)
    } else if op == 0x00 {
        Some(InstrV::Nop)
    } else {
        None
    }
}

/// The instruction that takes one operand byte, for its opcode.
pub open spec fn byte_instr(op: u8, b: u8) -> Option<InstrV> {
    if op == 0x01 {
        Some(InstrV::Add(b))
    } else if op == 0x02 {
        Some(InstrV::Sub(b))
    } else if op == 0x03 {
        Some(InstrV::Mul(b))
    } else if op == 0x04 {
        Some(InstrV::Div(b))
    } else if op == 0x05 {
        Some(InstrV::Mod(b))
    } else if op == 0x13 {
        Some(InstrV::PushBool(b))
    } else if op == 0xC0 {
        Some(InstrV::Compare(b))
    } else {
        None
    }
}

/// The instruction at `ip` and the position after it. The operand of a text
/// instruction is a length byte at `ip + 1` and the bytes after it.
pub open spec fn decode_at(code: Seq<u8>, ip: int) -> Result<
    (InstrV, int),
    DecodeError,
>
    recommends
        0 <= ip < code.len(),
{
    let op = code[ip];
    if bare_instr(op) is Some {
        Ok((bare_instr(op).unwrap(), ip + 1))
    } else if byte_instr(op, 0) is Some {
        if ip + 1 >= code.len() {
            Err(DecodeError::Truncated(ip as usize))
        } else {
            Ok((byte_instr(op, code[ip + 1]).unwrap(), ip + 2))
        }
    } else if op == 0x11 || op == 0x14 {
        if ip + 9 > code.len() {
            Err(DecodeError::Truncated(ip as usize))
        } else {
            let x = spec_u64_from_le_bytes(code.subrange(ip + 1, ip + 9));
            Ok(
                (
                    if op == 0x11 {
                        InstrV::PushInt(x as i64)
                    } else {
                        InstrV::PushDec(x)
                    },
                    ip + 9,
                ),
            )
        }
    } else if is_text_opcode(op) {
        if ip + 1 >= code.len() {
            Err(DecodeError::Truncated(ip as usize))
        } else {
            let len = code[ip + 1] as int;
            let start = ip + 2;
            if start + len > code.len() {
                Err(DecodeError::Truncated(ip as usize))
            } else if !valid_utf8(code.subrange(start, start + len)) {
                Err(DecodeError::BadText(ip as usize))
            } else {
                Ok((text_instr(op, code.subrange(start, start + len)), ip + 2 + len))
            }
        }
    } else {
        Err(DecodeError::UnknownOpcode(ip as usize))
    }
}

pub open spec fn decode_view(r: Result<(Instr, usize), DecodeError>) -> Result<
    (InstrV, int),
    DecodeError,
> {
    match r {
        Ok((i, n)) => Ok((i@, n as int)),
        Err(e) => Err(e),
    }
}

fn sub_vec(code: &Vec<u8>, start: usize, end: usize) -> (r: Vec<u8>)
    requires
        start <= end <= code@.len(),
    ensures
        r@ == code@.subrange(start as int, end as int),
{
    vstd::slice::slice_to_vec(slice_subrange(code.as_slice(), start, end))
}

/// Reads the instruction at `ip` (see [`decode_at`]).
pub fn decode_instr(code: &Vec<u8>, ip: usize) -> (r: Result<
    (Instr, usize),
    DecodeError,
>)
    requires
        ip < code@.len(),
        code@.len() < usize::MAX,
    ensures
        decode_view(r) == decode_at(code@, ip as int),
        r matches Ok((_, n)) ==> ip < n,
{
    let op = code[ip];
    let len = code.len();
    if op == 0xD0 {
        Ok((Instr::And, ip + 1))
    } else if op == 0xD1 {
        Ok((Instr::Or, ip + 1))
    } else if op == 0xD2 {
        Ok((Instr::Not, ip + 1))
    } else if op == 0xD3 {
        Ok((Instr::Xor, ip + 1))
    } else if op == 0xE0 {
        Ok((Instr::Print, ip + 1))
    } else if op == 0xE1 {
        Ok((Instr::Input, ip + 1))
    } else if op == 0xE3 {
        Ok((Instr::Ret, ip + 1))
    } else if op == 0xF0 {
        Ok((Instr::Start, ip + 1))
    } else if op == 0xF1 {
        Ok((Instr::End, ip + 1))
    } else if op == 0xF2 {
        Ok((Instr::Delim, ip + 1))
    } else if op == 0x00 {
        Ok((Instr::Nop, ip + 1))
    } else if op == 0x01 || op == 0x02 || op == 0x03 || op == 0x04 || op == 0x05 || op == 0x13
        || op == 0xC0 {
        if ip + 1 >= len {
            return Err(DecodeError::Truncated(ip));
        }
        let b = code[ip + 1];
        let i = if op == 0x01 {
            Instr::Add(b)
        } else if op == 0x02 {
            Instr::Sub(b)
        } else if op == 0x03 {
            Instr::Mul(b)
        } else if op == 0x04 {
            Instr::Div(b)
        } else if op == 0x05 {
            Instr::Mod(b)
        } else if op == 0x13 {
            Instr::PushBool(b)
        } else {
            Instr::Compare(b)
        };
        Ok((i, ip + 2))
    } else if op == 0x11 || op == 0x14 {
        if len < 9 || ip > len - 9 {
            return Err(DecodeError::Truncated(ip));
        }
        let x = u64_from_le_bytes(slice_subrange(code.as_slice(), ip + 1, ip + 9));
        if op == 0x11 {
            Ok((Instr::PushInt(#[verifier::truncate] (x as i64)), ip + 9))
        } else {
            Ok((Instr::PushDec(x), ip + 9))
        }
    } else if op == 0x10 || op == 0x12 || op == 0x15 || op == 0x16 || op == 0x17 || op == 0x18
        || op == 0xC1 || op == 0xC2 || op == 0xD4 || op == 0xE2 || op == 0xE4 {
        if ip + 1 >= len {
            return Err(DecodeError::Truncated(ip));
        }
        let n = code[ip + 1] as usize;
        let start = ip + 2;
        if start > len || n > len - start {
            return Err(DecodeError::Truncated(ip));
        }
        if !is_valid_utf8(code, start, start + n) {
            return Err(DecodeError::BadText(ip));
        }
        let t = sub_vec(code, start, start + n);
        let i = if op == 0x10 {
            Instr::Store(t)
        } else if op == 0x12 {
            Instr::PushStr(t)
        } else if op == 0x15 {
            Instr::Load(t)
        } else if op == 0x16 {
            Instr::LoadStr(t)
        } else if op == 0x17 {
            Instr::LoadBool(t)
        } else if op == 0x18 {
            Instr::LoadDec(t)
        } else if op == 0xC1 {
            Instr::JumpIf(t)
        } else if op == 0xC2 {
            Instr::CallIf(t)
        } else if op == 0xD4 {
            Instr::Label(t)
        } else if op == 0xE2 {
            Instr::Call(t)
        } else {
            Instr::Jump(t)
        };
        Ok((i, ip + 2 + n))
    } else {
        Err(DecodeError::UnknownOpcode(ip))
    }
}

/// An instruction whose bytes read back as itself: its text, if any, is
/// UTF-8 and shorter than 256 bytes.
pub open spec fn well_formed(i: InstrV) -> bool {
    match i {
        InstrV::Store(n) => n.len() < 256 && valid_utf8(n),
        InstrV::PushStr(n) => n.len() < 256 && valid_utf8(n),
        InstrV::Load(n) => n.len() < 256 && valid_utf8(n),
        InstrV::LoadStr(n) => n.len() < 256 && valid_utf8(n),
        InstrV::LoadBool(n) => n.len() < 256 && valid_utf8(n),
        InstrV::LoadDec(n) => n.len() < 256 && valid_utf8(n),
        InstrV::JumpIf(n) => n.len() < 256 && valid_utf8(n),
        InstrV::CallIf(n) => n.len() < 256 && valid_utf8(n),
        InstrV::Label(n) => n.len() < 256 && valid_utf8(n),
        InstrV::Call(n) => n.len() < 256 && valid_utf8(n),
        InstrV::Jump(n) => n.len() < 256 && valid_utf8(n),
        _ => true,
    }
}

proof fn lemma_read_text(op: u8, n: Seq<u8>, before: Seq<u8>, after: Seq<u8>)
    requires
        n.len() < 256,
    ensures
        ({
            let code = before + (seq![op] + text_field(n)) + after;
            let ip = before.len() as int;
            &&& code[ip] == op
            &&& code[ip + 1] as int == n.len()
            &&& ip + 2 + n.len() <= code.len()
            &&& code.subrange(ip + 2, ip + 2 + n.len()) == n
        }),
{
    let code = before + (seq![op] + text_field(n)) + after;
    let ip = before.len() as int;
    assert(code[ip] == op);
    assert(code[ip + 1] == (n.len() % 256) as u8);
    assert(code.subrange(ip + 2, ip + 2 + n.len()) =~= n);
}

proof fn lemma_read_word(op: u8, w: u64, before: Seq<u8>, after: Seq<u8>)
    ensures
        ({
            let code = before + (seq![op] + spec_u64_to_le_bytes(w)) + after;
            let ip = before.len() as int;
            &&& code[ip] == op
            &&& ip + 9 <= code.len()
            &&& spec_u64_from_le_bytes(code.subrange(ip + 1, ip + 9)) == w
        }),
{
    lemma_auto_spec_u64_to_from_le_bytes();
    let code = before + (seq![op] + spec_u64_to_le_bytes(w)) + after;
    let ip = before.len() as int;
    assert(spec_u64_to_le_bytes(w).len() == 8);
    assert(code[ip] == op);
    assert(code.subrange(ip + 1, ip + 9) =~= spec_u64_to_le_bytes(w));
}

proof fn lemma_read_bytes(e: Seq<u8>, before: Seq<u8>, after: Seq<u8>)
    requires
        e.len() >= 1,
    ensures
        ({
            let code = before + e + after;
            let ip = before.len() as int;
            &&& code[ip] == e[0]
            &&& e.len() >= 2 ==> code[ip + 1] == e[1]
            &&& ip + e.len() <= code.len()
        }),
{
    let code = before + e + after;
    let ip = before.len() as int;
    assert(code[ip] == e[0]);
    if e.len() >= 2 {
        assert(code[ip + 1] == e[1]);
    }
}

/// Reading back what [`encode_instr`] wrote, at any position of any code,
/// gives the same instruction and the position just after it.
pub proof fn lemma_decode_encode(i: InstrV, before: Seq<u8>, after: Seq<u8>)
    requires
        well_formed(i),
    ensures
        decode_at(before + encode_instr(i) + after, before.len() as int) == Ok::<
            (InstrV, int),
            DecodeError,
        >((i, (before.len() + encode_instr(i).len()) as int)),
{
    lemma_auto_spec_u64_to_from_le_bytes();
    match i {
        InstrV::PushInt(v) => {
            lemma_read_word(0x11, v as u64, before, after);
            assert(((v as u64) as i64) == v) by (bit_vector);
        },
        InstrV::PushDec(d) => {
            lemma_read_word(0x14, d, before, after);
        },
        InstrV::Store(n) => {
            lemma_read_text(0x10, n, before, after);
        },
        InstrV::PushStr(n) => {
            lemma_read_text(0x12, n, before, after);
        },
        InstrV::Load(n) => {
            lemma_read_text(0x15, n, before, after);
        },
        InstrV::LoadStr(n) => {
            lemma_read_text(0x16, n, before, after);
        },
        InstrV::LoadBool(n) => {
            lemma_read_text(0x17, n, before, after);
        },
        InstrV::LoadDec(n) => {
            lemma_read_text(0x18, n, before, after);
        },
        InstrV::JumpIf(n) => {
            lemma_read_text(0xC1, n, before, after);
        },
        InstrV::CallIf(n) => {
            lemma_read_text(0xC2, n, before, after);
        },
        InstrV::Label(n) => {
            lemma_read_text(0xD4, n, before, after);
        },
        InstrV::Call(n) => {
            lemma_read_text(0xE2, n, before, after);
        },
        InstrV::Jump(n) => {
            lemma_read_text(0xE4, n, before, after);
        },
        _ => {
            lemma_read_bytes(encode_instr(i), before, after);
        },
    }
}


/// The bytes of two instruction sequences one after the other.
pub proof fn lemma_encode_program_concat(a: Seq<InstrV>, b: Seq<InstrV>)
    ensures
        encode_program(a + b) == encode_program(a) + encode_program(b),
    decreases b.len(),
{
    if b.len() == 0 {
        assert(a + b =~= a);
        assert(encode_program(a) + encode_program(b) =~= encode_program(a));
    } else {
        lemma_encode_program_concat(a, b.drop_last());
        assert((a + b).drop_last() =~= a + b.drop_last());
        assert((a + b).last() == b.last());
        assert(encode_program(a) + encode_program(b) =~= encode_program(a) + encode_program(
            b.drop_last(),
        ) + encode_instr(b.last()));
    }
}

/// What [`decode_at`] reads is written back by [`encode_instr`] as the very
/// bytes it was read from.
pub proof fn lemma_encode_decoded(code: Seq<u8>, ip: int)
    requires
        0 <= ip < code.len(),
        decode_at(code, ip) is Ok,
    ensures
        ({
            let (i, next) = decode_at(code, ip)->Ok_0;
            &&& well_formed(i)
            &&& ip < next <= code.len()
            &&& encode_instr(i) == code.subrange(ip, next)
        }),
{
    lemma_auto_spec_u64_to_from_le_bytes();
    let op = code[ip];
    let (i, next) = decode_at(code, ip)->Ok_0;
    if bare_instr(op) is Some {
        assert(encode_instr(i) =~= code.subrange(ip, next));
    } else if byte_instr(op, 0) is Some {
        assert(encode_instr(i) =~= code.subrange(ip, next));
    } else if op == 0x11 || op == 0x14 {
        let w = code.subrange(ip + 1, ip + 9);
        let x = spec_u64_from_le_bytes(w);
        assert(spec_u64_to_le_bytes(spec_u64_from_le_bytes(w)) == w);
        assert(((x as i64) as u64) == x) by (bit_vector);
        assert(encode_instr(i) =~= code.subrange(ip, next));
    } else {
        let len = code[ip + 1] as int;
        let n = code.subrange(ip + 2, ip + 2 + len);
        assert(((len % 256) as u8) == code[ip + 1]);
        assert(encode_instr(i) =~= code.subrange(ip, next));
    }
}


/// The bytes of a single instruction.
pub proof fn lemma_encode_single(i: InstrV)
    ensures
        encode_program(seq![i]) == encode_instr(i),
{
    let s = seq![i];
    assert(s.drop_last() =~= Seq::<InstrV>::empty());
    assert(s.last() == i);
    assert(encode_program(s.drop_last()) =~= Seq::<u8>::empty());
    assert(encode_program(s) =~= encode_instr(i));
}

} // verus!
