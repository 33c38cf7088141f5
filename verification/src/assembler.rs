//! The AVM assembler: reads assembly text line by line and writes bytecode.
use vstd::prelude::*;
use vstd::utf8::encode_utf8;

use crate::bytecode::{
    encode_into, encode_program, instrs_view, operand_fits, text_instr, Instr, InstrV,
};
use crate::encoding::utf8_bytes;
use crate::number::{parse_i64, parse_u8, spec_parse_i64, spec_parse_u8};
use crate::text::{
    chars_eq, join_from, lemma_split_newlines_join, spec_join_from, spec_split_newlines, spec_words, split_newlines,
    split_whitespace, views,
};

verus! {

/// Which assembler: the compiler's own (one `LOAD` mnemonic) or the
/// standalone one (`LOAD_INT`, `LOAD_STR`, `LOAD_BOOL`, `LOAD_DEC`).
#[derive(Debug, Clone, Copy, PartialEq, Eq, Structural)]
pub enum Dialect {
    Compiler,
    Standalone,
}

/// Why assembly text is rejected; the number counts the non-blank lines
/// before the one at fault.
#[derive(Debug, Clone, Copy, PartialEq, Eq, Structural)]
pub enum AsmError {
    /// The mnemonic needs an operand and the line has none.
    MissingOperand(usize),
    /// The operand is not a number of the required type.
    BadNumber(usize),
    /// `PUSH_BOOL` with an operand other than `true` and `false`.
    BadBool(usize),
    /// `COMPARE` with an unknown comparison.
    BadCompare(usize),
    /// No value was supplied for this `PUSH_DEC` operand.
    MissingDecimal(usize),
    /// An unknown mnemonic.
    UnknownMnemonic(usize),
    /// A name or string operand of 256 bytes or more, which one length byte
    /// cannot give.
    LongOperand(usize),
}

/// The opcode of a mnemonic that takes a count.
pub open spec fn count_opcode(m: Seq<char>) -> Option<u8> {
    if m == seq!['A', 'D', 'D'] {
        Some(0x01u8)
    } else if m == seq!['S', 'U', 'B'] {
        Some(0x02u8)
    } else if m == seq!['M', 'U', 'L'] {
        Some(0x03u8)
    } else if m == seq!['D', 'I', 'V'] {
        Some(0x04u8)
    } else if m == seq!['M', 'O', 'D'] {
        Some(0x05u8)
    } else {
        None
    }
}

pub open spec fn count_instr(op: u8, c: u8) -> InstrV {
    if op == 0x01 {
        InstrV::Add(c)
    } else if op == 0x02 {
        InstrV::Sub(c)
    } else if op == 0x03 {
        InstrV::Mul(c)
    } else if op == 0x04 {
        InstrV::Div(c)
    } else {
        InstrV::Mod(c)
    }
}

/// The opcode of a mnemonic that takes a name (the rest of the line).
pub open spec fn text_mnemonic(m: Seq<char>, d: Dialect) -> Option<u8> {
    if m == seq!['S', 'T', 'O', 'R', 'E'] {
        Some(0x10u8)
    } else if m == seq!['P', 'U', 'S', 'H', '_', 'S', 'T', 'R'] {
        Some(0x12u8)
    } else if d == Dialect::Compiler && m == seq!['L', 'O', 'A', 'D'] {
        Some(0x15u8)
    } else if d == Dialect::Standalone && m == seq!['L', 'O', 'A', 'D', '_', 'I', 'N', 'T'] {
        Some(0x15u8)
    } else if d == Dialect::Standalone && m == seq!['L', 'O', 'A', 'D', '_', 'S', 'T', 'R'] {
        Some(0x16u8)
    } else if d == Dialect::Standalone && m == seq!['L', 'O', 'A', 'D', '_', 'B', 'O', 'O', 'L'] {
        Some(0x17u8)
    } else if d == Dialect::Standalone && m == seq!['L', 'O', 'A', 'D', '_', 'D', 'E', 'C'] {
        Some(0x18u8)
    } else if m == seq!['J', 'U', 'M', 'P', '_', 'I', 'F'] {
        Some(0xC1u8)
    } else if m == seq!['C', 'A', 'L', 'L', '_', 'I', 'F'] {
        Some(0xC2u8)
    } else if m == seq!['L', 'A', 'B', 'E', 'L'] {
        Some(0xD4u8)
    } else if m == seq!['C', 'A', 'L', 'L'] {
        Some(0xE2u8)
    } else if m == seq!['J', 'U', 'M', 'P'] {
        Some(0xE4u8)
    } else {
        None
    }
}

/// The instruction of a mnemonic that takes no operand.
pub open spec fn bare_mnemonic(m: Seq<char>) -> Option<InstrV> {
    if m == seq!['A', 'N', 'D'] {
        Some(InstrV::And)
    } else if m == seq!['O', 'R'] {
        Some(InstrV::Or)
    } else if m == seq!['N', 'O', 'T'] {
        Some(InstrV::Not)
    } else if m == seq!['X', 'O', 'R'] {
        Some(InstrV::Xor)
    } else if m == seq!['P', 'R', 'I', 'N', 'T'] {
        Some(InstrV::Print)
    } else if m == seq!['I', 'N', 'P', 'U', 'T'] {
        Some(InstrV::Input)
    } else if m == seq!['R', 'E', 'T'] {
        Some(InstrV::Ret)
    } else if m == seq!['A', 'R', 'C', '_', 'S', 'T', 'A', 'R', 'T'] {
        Some(InstrV::Start)
    } else if m == seq!['A', 'R', 'C', '_', 'E', 'N', 'D'] {
        Some(InstrV::End)
    } else if m == seq!['A', 'R', 'C', '_', 'D', 'E', 'L', 'I', 'M'] {
        Some(InstrV::Delim)
    } else {
        None
    }
}

/// The comparison byte of a `COMPARE` operand.
pub open spec fn compare_operand(w: Seq<char>) -> Option<u8> {
    if w == seq!['E', 'Q'] {
        Some(0xC3u8)
    } else if w == seq!['G', 'T'] {
        Some(0xC5u8)
    } else if w == seq!['G', 'E'] {
        Some(0xC4u8)
    } else if w == seq!['L', 'T'] {
        Some(0xC7u8)
    } else if w == seq!['L', 'E'] {
        Some(0xC6u8)
    } else if w == seq!['N', 'E'] {
        Some(0xC8u8)
    } else {
        None
    }
}

pub open spec fn push_dec_word() -> Seq<char> {
    seq!['P', 'U', 'S', 'H', '_', 'D', 'E', 'C']
}

/// The instruction of one non-blank line (its words `w`), the `line`-th
/// such line; `dec` is the value supplied for the `k`-th `PUSH_DEC` operand.
pub open spec fn assemble_words(
    w: Seq<Seq<char>>,
    d: Dialect,
    decimals: Seq<Option<u64>>,
    k: nat,
    line: nat,
) -> Result<InstrV, AsmError>
    recommends
        w.len() > 0,
{
    let m = w[0];
    let at = line as usize;
    if count_opcode(m) is Some {
        if w.len() < 2 {
            Err(AsmError::MissingOperand(at))
        } else {
            match spec_parse_u8(w[1]) {
                Some(c) => Ok(count_instr(count_opcode(m).unwrap(), c)),
                None => Err(AsmError::BadNumber(at)),
            }
        }
    } else if text_mnemonic(m, d) is Some {
        if encode_utf8(spec_join_from(w, 1)).len() > 255 {
            Err(AsmError::LongOperand(at))
        } else {
            Ok(text_instr(text_mnemonic(m, d).unwrap(), encode_utf8(spec_join_from(w, 1))))
        }
    } else if m == seq!['P', 'U', 'S', 'H', '_', 'I', 'N', 'T'] {
        if w.len() < 2 {
            Err(AsmError::MissingOperand(at))
        } else {
            match spec_parse_i64(w[1]) {
                Some(v) => Ok(InstrV::PushInt(v)),
                None => Err(AsmError::BadNumber(at)),
            }
        }
    } else if m == seq!['P', 'U', 'S', 'H', '_', 'B', 'O', 'O', 'L'] {
        if w.len() < 2 {
            Err(AsmError::MissingOperand(at))
        } else if w[1] == seq!['t', 'r', 'u', 'e'] {
            Ok(InstrV::PushBool(1))
        } else if w[1] == seq!['f', 'a', 'l', 's', 'e'] {
            Ok(InstrV::PushBool(0))
        } else {
            Err(AsmError::BadBool(at))
        }
    } else if m == push_dec_word() {
        if w.len() < 2 {
            Err(AsmError::MissingOperand(at))
        } else if k >= decimals.len() {
            Err(AsmError::MissingDecimal(at))
        } else {
            match decimals[k as int] {
                Some(bits) => Ok(InstrV::PushDec(bits)),
                None => Err(AsmError::BadNumber(at)),
            }
        }
    } else if m == seq!['C', 'O', 'M', 'P', 'A', 'R', 'E'] {
        if w.len() < 2 {
            Err(AsmError::MissingOperand(at))
        } else {
            match compare_operand(w[1]) {
                Some(c) => Ok(InstrV::Compare(c)),
                None => Err(AsmError::BadCompare(at)),
            }
        }
    } else if bare_mnemonic(m) is Some {
        Ok(bare_mnemonic(m).unwrap())
    } else {
        Err(AsmError::UnknownMnemonic(at))
    }
}

/// Assembling the lines in order: the instructions so far, the number of
/// non-blank lines read and the number of `PUSH_DEC` instructions among them.
pub open spec fn assemble_fold(lines: Seq<Seq<char>>, d: Dialect, decimals: Seq<Option<u64>>) -> Result<
    (Seq<InstrV>, nat, nat),
    AsmError,
>
    decreases lines.len(),
{
    if lines.len() == 0 {
        Ok((seq![], 0, 0))
    } else {
        match assemble_fold(lines.drop_last(), d, decimals) {
            Err(e) => Err(e),
            Ok((is, n, k)) => {
                let w = spec_words(lines.last());
                if w.len() == 0 {
                    Ok((is, n, k))
                } else {
                    match assemble_words(w, d, decimals, k, n) {
                        Err(e) => Err(e),
                        Ok(i) => Ok(
                            (
                                is.push(i),
                                n + 1,
                                if w[0] == push_dec_word() {
                                    k + 1
                                } else {
                                    k
                                },
                            ),
                        ),
                    }
                }
            },
        }
    }
}

/// Assembling lines that follow `n0` non-blank lines holding `k0`
/// `PUSH_DEC` instructions: the instructions of these lines, and the
/// counts once they are read.
pub open spec fn assemble_fold_after(
    lines: Seq<Seq<char>>,
    d: Dialect,
    decimals: Seq<Option<u64>>,
    n0: nat,
    k0: nat,
) -> Result<(Seq<InstrV>, nat, nat), AsmError>
    decreases lines.len(),
{
    if lines.len() == 0 {
        Ok((seq![], n0, k0))
    } else {
        match assemble_fold_after(lines.drop_last(), d, decimals, n0, k0) {
            Err(e) => Err(e),
            Ok((is, n, k)) => {
                let w = spec_words(lines.last());
                if w.len() == 0 {
                    Ok((is, n, k))
                } else {
                    match assemble_words(w, d, decimals, k, n) {
                        Err(e) => Err(e),
                        Ok(i) => Ok(
                            (
                                is.push(i),
                                n + 1,
                                if w[0] == push_dec_word() {
                                    k + 1
                                } else {
                                    k
                                },
                            ),
                        ),
                    }
                }
            },
        }
    }
}

/// Lines assemble independently: the instructions of two runs of lines are
/// those of the first run followed by those of the second, which depend
/// only on the second run's own lines and on how many non-blank lines and
/// `PUSH_DEC` instructions came before it (the line numbers of errors and
/// the place of the float values). The first line that fails decides.
pub proof fn lemma_lines_assemble_independently(
    a: Seq<Seq<char>>,
    b: Seq<Seq<char>>,
    d: Dialect,
    decimals: Seq<Option<u64>>,
)
    ensures
        assemble_fold(b, d, decimals) == assemble_fold_after(b, d, decimals, 0, 0),
        assemble_fold(a + b, d, decimals) == match assemble_fold(a, d, decimals) {
            Err(e) => Err(e),
            Ok((is, n, k)) => match assemble_fold_after(b, d, decimals, n, k) {
                Err(e) => Err(e),
                Ok((js, n2, k2)) => Ok::<(Seq<InstrV>, nat, nat), AsmError>((is + js, n2, k2)),
            },
        },
    decreases b.len(),
{
    if b.len() == 0 {
        assert(a + b =~= a);
        if let Ok((is, n, k)) = assemble_fold(a, d, decimals) {
            assert(is + seq![] =~= is);
        }
    } else {
        lemma_lines_assemble_independently(a, b.drop_last(), d, decimals);
        assert((a + b).drop_last() =~= a + b.drop_last());
        assert((a + b).last() == b.last());
        if let Ok((is, n, k)) = assemble_fold(a, d, decimals) {
            if let Ok((js, n2, k2)) = assemble_fold_after(b.drop_last(), d, decimals, n, k) {
                let w = spec_words(b.last());
                if w.len() > 0 {
                    if let Ok(i) = assemble_words(w, d, decimals, k2, n2) {
                        assert(is + js.push(i) =~= (is + js).push(i));
                    }
                }
            }
        }
    }
}

/// Assembly texts joined by a newline assemble line by line: the
/// instructions of the first text, then those of the second read after it
/// (its line numbers and `PUSH_DEC` values counted on from the first).
pub proof fn lemma_texts_assemble_independently(
    a: Seq<char>,
    b: Seq<char>,
    d: Dialect,
    decimals: Seq<Option<u64>>,
)
    ensures
        spec_assemble_program(a + seq!['\n'] + b, d, decimals) == match assemble_fold(
            spec_split_newlines(a),
            d,
            decimals,
        ) {
            Err(e) => Err(e),
            Ok((is, n, k)) => match assemble_fold_after(spec_split_newlines(b), d, decimals, n, k) {
                Err(e) => Err(e),
                Ok((js, _, _)) => Ok::<Seq<InstrV>, AsmError>(is + js),
            },
        },
{
    lemma_split_newlines_join(a, b);
    lemma_lines_assemble_independently(spec_split_newlines(a), spec_split_newlines(b), d, decimals);
}

/// The instructions of assembly text: one per non-blank line, blank lines
/// skipped, or the error of the first line that has none. `decimals` holds
/// the values of the `PUSH_DEC` operands, in order.
pub open spec fn spec_assemble_program(code: Seq<char>, d: Dialect, decimals: Seq<Option<u64>>) -> Result<
    Seq<InstrV>,
    AsmError,
> {
    match assemble_fold(spec_split_newlines(code), d, decimals) {
        Ok((is, _, _)) => Ok(is),
        Err(e) => Err(e),
    }
}

/// The bytecode of assembly text.
pub open spec fn spec_assemble(code: Seq<char>, d: Dialect, decimals: Seq<Option<u64>>) -> Result<
    Seq<u8>,
    AsmError,
> {
    match spec_assemble_program(code, d, decimals) {
        Ok(is) => Ok(encode_program(is)),
        Err(e) => Err(e),
    }
}

/// The `PUSH_DEC` operands of the lines, in order.
pub open spec fn decimal_fold(lines: Seq<Seq<char>>) -> Seq<Seq<char>>
    decreases lines.len(),
{
    if lines.len() == 0 {
        seq![]
    } else {
        let w = spec_words(lines.last());
        if w.len() >= 2 && w[0] == push_dec_word() {
            decimal_fold(lines.drop_last()).push(w[1])
        } else {
            decimal_fold(lines.drop_last())
        }
    }
}

/// The operand texts of the `PUSH_DEC` lines of assembly text, in order.
pub open spec fn spec_decimal_operands(code: Seq<char>) -> Seq<Seq<char>> {
    decimal_fold(spec_split_newlines(code))
}

/// The operand texts of the `PUSH_DEC` lines of `code`, in order: the
/// values that [`assemble`] needs in its `decimals` argument.
pub fn decimal_operands(code: &Vec<char>) -> (r: Vec<Vec<char>>)
    ensures
        views(r@) == spec_decimal_operands(code@),
{
    let lines = split_newlines(code);
    let ghost lv = views(lines@);
    let mut out: Vec<Vec<char>> = Vec::new();
    let mut i: usize = 0;
    assert(lv.take(0) =~= Seq::<Seq<char>>::empty());
    assert(views(out@) =~= Seq::<Seq<char>>::empty());
    while i < lines.len()
        invariant
            0 <= i <= lines@.len(),
            lv == views(lines@),
            views(out@) == decimal_fold(lv.take(i as int)),
        decreases lines@.len() - i,
    {
        assert(lv.take(i + 1).drop_last() =~= lv.take(i as int));
        assert(lv.take(i + 1).last() == lines@[i as int]@);
        let w = split_whitespace(&lines[i]);
        assert(views(w@).len() == w@.len());
        if w.len() >= 2 && chars_eq(w[0].as_slice(), &['P', 'U', 'S', 'H', '_', 'D', 'E', 'C']) {
            assert(views(w@)[0] == w@[0]@);
            assert(views(w@)[1] == w@[1]@);
            let ghost before = views(out@);
            out.push(crate::text::copy_chars(&w[1]));
            assert(views(out@) =~= before.push(views(w@)[1]));
        }
        i = i + 1;
    }
    assert(lv.take(lv.len() as int) =~= lv);
    out
}

fn count_opcode_exec(m: &Vec<char>) -> (r: Option<u8>)
    ensures
        r == count_opcode(m@),
{
    let m = m.as_slice();
    if chars_eq(m, &['A', 'D', 'D']) {
        Some(0x01)
    } else if chars_eq(m, &['S', 'U', 'B']) {
        Some(0x02)
    } else if chars_eq(m, &['M', 'U', 'L']) {
        Some(0x03)
    } else if chars_eq(m, &['D', 'I', 'V']) {
        Some(0x04)
    } else if chars_eq(m, &['M', 'O', 'D']) {
        Some(0x05)
    } else {
        None
    }
}

fn text_mnemonic_exec(m: &Vec<char>, d: Dialect) -> (r: Option<u8>)
    ensures
        r == text_mnemonic(m@, d),
{
    let m = m.as_slice();
    if chars_eq(m, &['S', 'T', 'O', 'R', 'E']) {
        Some(0x10)
    } else if chars_eq(m, &['P', 'U', 'S', 'H', '_', 'S', 'T', 'R']) {
        Some(0x12)
    } else if d == Dialect::Compiler && chars_eq(m, &['L', 'O', 'A', 'D']) {
        Some(0x15)
    } else if d == Dialect::Standalone && chars_eq(m, &['L', 'O', 'A', 'D', '_', 'I', 'N', 'T']) {
        Some(0x15)
    } else if d == Dialect::Standalone && chars_eq(m, &['L', 'O', 'A', 'D', '_', 'S', 'T', 'R']) {
        Some(0x16)
    } else if d == Dialect::Standalone && chars_eq(m, &['L', 'O', 'A', 'D', '_', 'B', 'O', 'O', 'L']) {
        Some(0x17)
    } else if d == Dialect::Standalone && chars_eq(m, &['L', 'O', 'A', 'D', '_', 'D', 'E', 'C']) {
        Some(0x18)
    } else if chars_eq(m, &['J', 'U', 'M', 'P', '_', 'I', 'F']) {
        Some(0xC1)
    } else if chars_eq(m, &['C', 'A', 'L', 'L', '_', 'I', 'F']) {
        Some(0xC2)
    } else if chars_eq(m, &['L', 'A', 'B', 'E', 'L']) {
        Some(0xD4)
    } else if chars_eq(m, &['C', 'A', 'L', 'L']) {
        Some(0xE2)
    } else if chars_eq(m, &['J', 'U', 'M', 'P']) {
        Some(0xE4)
    } else {
        None
    }
}

fn bare_mnemonic_exec(m: &Vec<char>) -> (r: Option<Instr>)
    ensures
        match bare_mnemonic(m@) {
            Some(i) => r matches Some(x) && x@ == i,
            None => r is None,
        },
{
    let m = m.as_slice();
    if chars_eq(m, &['A', 'N', 'D']) {
        Some(Instr::And)
    } else if chars_eq(m, &['O', 'R']) {
        Some(Instr::Or)
    } else if chars_eq(m, &['N', 'O', 'T']) {
        Some(Instr::Not)
    } else if chars_eq(m, &['X', 'O', 'R']) {
        Some(Instr::Xor)
    } else if chars_eq(m, &['P', 'R', 'I', 'N', 'T']) {
        Some(Instr::Print)
    } else if chars_eq(m, &['I', 'N', 'P', 'U', 'T']) {
        Some(Instr::Input)
    } else if chars_eq(m, &['R', 'E', 'T']) {
        Some(Instr::Ret)
    } else if chars_eq(m, &['A', 'R', 'C', '_', 'S', 'T', 'A', 'R', 'T']) {
        Some(Instr::Start)
    } else if chars_eq(m, &['A', 'R', 'C', '_', 'E', 'N', 'D']) {
        Some(Instr::End)
    } else if chars_eq(m, &['A', 'R', 'C', '_', 'D', 'E', 'L', 'I', 'M']) {
        Some(Instr::Delim)
    } else {
        None
    }
}

fn compare_operand_exec(w: &Vec<char>) -> (r: Option<u8>)
    ensures
        r == compare_operand(w@),
{
    let w = w.as_slice();
    if chars_eq(w, &['E', 'Q']) {
        Some(0xC3)
    } else if chars_eq(w, &['G', 'T']) {
        Some(0xC5)
    } else if chars_eq(w, &['G', 'E']) {
        Some(0xC4)
    } else if chars_eq(w, &['L', 'T']) {
        Some(0xC7)
    } else if chars_eq(w, &['L', 'E']) {
        Some(0xC6)
    } else if chars_eq(w, &['N', 'E']) {
        Some(0xC8)
    } else {
        None
    }
}

fn text_instr_exec(op: u8, n: Vec<u8>) -> (r: Instr)
    ensures
        r@ == text_instr(op, n@),
{
    if op == 0x10 {
        Instr::Store(n)
    } else if op == 0x12 {
        Instr::PushStr(n)
    } else if op == 0x15 {
        Instr::Load(n)
    } else if op == 0x16 {
        Instr::LoadStr(n)
    } else if op == 0x17 {
        Instr::LoadBool(n)
    } else if op == 0x18 {
        Instr::LoadDec(n)
    } else if op == 0xC1 {
        Instr::JumpIf(n)
    } else if op == 0xC2 {
        Instr::CallIf(n)
    } else if op == 0xD4 {
        Instr::Label(n)
    } else if op == 0xE2 {
        Instr::Call(n)
    } else {
        Instr::Jump(n)
    }
}

fn assemble_words_exec(
    w: &Vec<Vec<char>>,
    d: Dialect,
    decimals: &Vec<Option<u64>>,
    k: usize,
    line: usize,
) -> (r: Result<Instr, AsmError>)
    requires
        w@.len() > 0,
    ensures
        match assemble_words(views(w@), d, decimals@, k as nat, line as nat) {
            Ok(i) => r matches Ok(x) && x@ == i,
            Err(e) => r == Err::<Instr, AsmError>(e),
        },
{
    let ghost wv = views(w@);
    assert(wv[0] == w@[0]@);
    assert(wv.len() == w@.len());
    let m = &w[0];
    if let Some(op) = count_opcode_exec(m) {
        if w.len() < 2 {
            return Err(AsmError::MissingOperand(line));
        }
        assert(wv[1] == w@[1]@);
        match parse_u8(&w[1]) {
            Some(c) => {
                let i = if op == 0x01 {
                    Instr::Add(c)
                } else if op == 0x02 {
                    Instr::Sub(c)
                } else if op == 0x03 {
                    Instr::Mul(c)
                } else if op == 0x04 {
                    Instr::Div(c)
                } else {
                    Instr::Mod(c)
                };
                Ok(i)
            },
            None => Err(AsmError::BadNumber(line)),
        }
    } else if let Some(op) = text_mnemonic_exec(m, d) {
        let name = join_from(w, 1);
        let bytes = utf8_bytes(&name);
        if bytes.len() > 255 {
            return Err(AsmError::LongOperand(line));
        }
        Ok(text_instr_exec(op, bytes))
    } else if chars_eq(m.as_slice(), &['P', 'U', 'S', 'H', '_', 'I', 'N', 'T']) {
        if w.len() < 2 {
            return Err(AsmError::MissingOperand(line));
        }
        assert(wv[1] == w@[1]@);
        match parse_i64(&w[1]) {
            Some(v) => Ok(Instr::PushInt(v)),
            None => Err(AsmError::BadNumber(line)),
        }
    } else if chars_eq(m.as_slice(), &['P', 'U', 'S', 'H', '_', 'B', 'O', 'O', 'L']) {
        if w.len() < 2 {
            return Err(AsmError::MissingOperand(line));
        }
        assert(wv[1] == w@[1]@);
        if chars_eq(w[1].as_slice(), &['t', 'r', 'u', 'e']) {
            Ok(Instr::PushBool(1))
        } else if chars_eq(w[1].as_slice(), &['f', 'a', 'l', 's', 'e']) {
            Ok(Instr::PushBool(0))
        } else {
            Err(AsmError::BadBool(line))
        }
    } else if chars_eq(m.as_slice(), &['P', 'U', 'S', 'H', '_', 'D', 'E', 'C']) {
        if w.len() < 2 {
            return Err(AsmError::MissingOperand(line));
        }
        if k >= decimals.len() {
            return Err(AsmError::MissingDecimal(line));
        }
        match decimals[k] {
            Some(bits) => Ok(Instr::PushDec(bits)),
            None => Err(AsmError::BadNumber(line)),
        }
    } else if chars_eq(m.as_slice(), &['C', 'O', 'M', 'P', 'A', 'R', 'E']) {
        if w.len() < 2 {
            return Err(AsmError::MissingOperand(line));
        }
        assert(wv[1] == w@[1]@);
        match compare_operand_exec(&w[1]) {
            Some(c) => Ok(Instr::Compare(c)),
            None => Err(AsmError::BadCompare(line)),
        }
    } else if let Some(i) = bare_mnemonic_exec(m) {
        Ok(i)
    } else {
        Err(AsmError::UnknownMnemonic(line))
    }
}

proof fn lemma_assemble_error_sticks(
    lines: Seq<Seq<char>>,
    d: Dialect,
    decimals: Seq<Option<u64>>,
    i: int,
    j: int,
)
    requires
        0 <= i <= j <= lines.len(),
        assemble_fold(lines.take(i), d, decimals) is Err,
    ensures
        assemble_fold(lines.take(j), d, decimals) == assemble_fold(lines.take(i), d, decimals),
    decreases j - i,
{
    if j > i {
        lemma_assemble_error_sticks(lines, d, decimals, i, j - 1);
        assert(lines.take(j).drop_last() =~= lines.take(j - 1));
    }
}

/// Every instruction the assembler reads has an operand that fits its
/// length byte.
proof fn lemma_assembled_operands_fit(lines: Seq<Seq<char>>, d: Dialect, decimals: Seq<Option<u64>>)
    ensures
        assemble_fold(lines, d, decimals) matches Ok((is, _, _)) ==> forall|j: int|
            0 <= j < is.len() ==> operand_fits(#[trigger] is[j]),
    decreases lines.len(),
{
    if lines.len() > 0 {
        lemma_assembled_operands_fit(lines.drop_last(), d, decimals);
        if let Ok((is, n, k)) = assemble_fold(lines.drop_last(), d, decimals) {
            let w = spec_words(lines.last());
            if w.len() > 0 {
                if let Ok(i) = assemble_words(w, d, decimals, k, n) {
                    assert(operand_fits(i));
                    assert forall|j: int| 0 <= j < is.push(i).len() implies operand_fits(
                        #[trigger] is.push(i)[j],
                    ) by {
                        if j < is.len() {
                            assert(is.push(i)[j] == is[j]);
                        }
                    }
                }
            }
        }
    }
}

pub open spec fn program_result_view(r: Result<Vec<Instr>, AsmError>) -> Result<
    Seq<InstrV>,
    AsmError,
> {
    match r {
        Ok(v) => Ok(instrs_view(v@)),
        Err(e) => Err(e),
    }
}

pub open spec fn bytes_result_view(r: Result<Vec<u8>, AsmError>) -> Result<Seq<u8>, AsmError> {
    match r {
        Ok(v) => Ok(v@),
        Err(e) => Err(e),
    }
}

/// Reads assembly text into instructions, one per non-blank line.
/// `decimals[k]` is the value of the `k`-th `PUSH_DEC` operand (see
/// [`decimal_operands`]), or `None` when that operand is not a number.
pub fn assemble_program(code: &Vec<char>, dialect: Dialect, decimals: &Vec<Option<u64>>) -> (r: Result<
    Vec<Instr>,
    AsmError,
>)
    ensures
        program_result_view(r) == spec_assemble_program(code@, dialect, decimals@),
{
    let lines = split_newlines(code);
    let ghost lv = views(lines@);
    let mut out: Vec<Instr> = Vec::new();
    let mut n: usize = 0;
    let mut k: usize = 0;
    let mut i: usize = 0;
    assert(lv.take(0) =~= Seq::<Seq<char>>::empty());
    assert(instrs_view(out@) =~= Seq::<InstrV>::empty());
    while i < lines.len()
        invariant
            0 <= i <= lines@.len(),
            lv == views(lines@),
            lv == spec_split_newlines(code@),
            n <= i,
            k <= n,
            assemble_fold(lv.take(i as int), dialect, decimals@) == Ok::<
                (Seq<InstrV>, nat, nat),
                AsmError,
            >((instrs_view(out@), n as nat, k as nat)),
        decreases lines@.len() - i,
    {
        assert(lv.take(i + 1).drop_last() =~= lv.take(i as int));
        assert(lv.take(i + 1).last() == lines@[i as int]@);
        let w = split_whitespace(&lines[i]);
        assert(views(w@).len() == w@.len());
        if w.len() > 0 {
            match assemble_words_exec(&w, dialect, decimals, k, n) {
                Ok(ins) => {
                    assert(views(w@)[0] == w@[0]@);
                    if chars_eq(w[0].as_slice(), &['P', 'U', 'S', 'H', '_', 'D', 'E', 'C']) {
                        k = k + 1;
                    }
                    let ghost before = instrs_view(out@);
                    let ghost iv = ins@;
                    out.push(ins);
                    assert(instrs_view(out@) =~= before.push(iv));
                    n = n + 1;
                },
                Err(e) => {
                    proof {
                        lemma_assemble_error_sticks(lv, dialect, decimals@, i + 1, lv.len() as int);
                        assert(lv.take(lv.len() as int) =~= lv);
                    }
                    return Err(e);
                },
            }
        }
        i = i + 1;
    }
    assert(lv.take(lv.len() as int) =~= lv);
    Ok(out)
}

/// Writes an instruction sequence as bytecode.
pub fn encode(program: &Vec<Instr>) -> (r: Vec<u8>)
    requires
        forall|i: int| 0 <= i < program@.len() ==> operand_fits(#[trigger] program@[i]@),
    ensures
        r@ == encode_program(instrs_view(program@)),
{
    let ghost pv = instrs_view(program@);
    let mut out: Vec<u8> = Vec::new();
    let mut i: usize = 0;
    assert(pv.take(0) =~= Seq::<InstrV>::empty());
    assert(out@ =~= Seq::<u8>::empty());
    while i < program.len()
        invariant
            0 <= i <= program@.len(),
            pv == instrs_view(program@),
            out@ == encode_program(pv.take(i as int)),
            forall|j: int| 0 <= j < program@.len() ==> operand_fits(#[trigger] program@[j]@),
        decreases program@.len() - i,
    {
        assert(pv.take(i + 1).drop_last() =~= pv.take(i as int));
        assert(pv.take(i + 1).last() == program@[i as int]@);
        assert(operand_fits(program@[i as int]@));
        encode_into(&program[i], &mut out);
        i = i + 1;
    }
    assert(pv.take(pv.len() as int) =~= pv);
    out
}

/// Assembles AVM assembly text into bytecode. `decimals[k]` is the bit
/// pattern of the `k`-th `PUSH_DEC` operand (see [`decimal_operands`]), or
/// `None` when that operand is not a number.
pub fn assemble(code: &Vec<char>, dialect: Dialect, decimals: &Vec<Option<u64>>) -> (r: Result<
    Vec<u8>,
    AsmError,
>)
    ensures
        bytes_result_view(r) == spec_assemble(code@, dialect, decimals@),
{
    let program = assemble_program(code, dialect, decimals)?;
    proof {
        lemma_assembled_operands_fit(spec_split_newlines(code@), dialect, decimals@);
        assert forall|i: int| 0 <= i < program@.len() implies operand_fits(#[trigger] program@[i]@) by {
            assert(instrs_view(program@)[i] == program@[i]@);
        }
    }
    Ok(encode(&program))
}

} // verus!
