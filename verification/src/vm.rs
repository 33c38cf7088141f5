//! The AVM interpreter. The machine runs one instruction per [`Vm::step`];
//! what needs the outside world (printing, reading a line, reading or
//! writing a float) is handed back as an [`Outcome`] and, where the machine
//! waits for an answer, resumed with a `resume_*` call.
use vstd::prelude::*;
use vstd::arithmetic::div_mod::{
    lemma_div_basics_4, lemma_div_basics_5, lemma_fundamental_div_mod, lemma_mod_bound,
};
use vstd::utf8::{encode_utf8, valid_utf8};

use crate::bytecode::{decode_at, decode_instr, DecodeError, Instr, InstrV};
use crate::disassembler::push_bytes;
use crate::encoding::{is_valid_utf8, push_chars_utf8};
use crate::number::{push_i64_text, spec_int_text};
use crate::table::Table;
use crate::text::{is_whitespace, spec_is_whitespace};

verus! {

/// A value on the stack or in a variable. A float is the bit pattern of an
/// IEEE 754 double; a string is UTF-8 bytes.
#[derive(Debug, PartialEq)]
pub enum Value {
    Int(i64),
    Float(u64),
    Str(Vec<u8>),
    Bool(bool),
}

/// The mathematical value of a [`Value`].
pub enum ValueV {
    Int(i64),
    Float(u64),
    Str(Seq<u8>),
    Bool(bool),
}

impl View for Value {
    type V = ValueV;

    open spec fn view(&self) -> ValueV {
        match self {
            Value::Int(v) => ValueV::Int(*v),
            Value::Float(b) => ValueV::Float(*b),
            Value::Str(s) => ValueV::Str(s@),
            Value::Bool(b) => ValueV::Bool(*b),
        }
    }
}

impl Value {
    /// A copy of the value.
    pub fn duplicate(&self) -> (r: Value)
        ensures
            r@ == self@,
    {
        match self {
            Value::Int(v) => Value::Int(*v),
            Value::Float(b) => Value::Float(*b),
            Value::Str(s) => {
                let c = s.clone();
                assert(c@ =~= s@);
                Value::Str(c)
            },
            Value::Bool(b) => Value::Bool(*b),
        }
    }

    /// The text that `to_string` gives the value, as UTF-8 bytes; `None` for
    /// a float, whose text is written outside the library.
    pub fn text(&self) -> (r: Option<Vec<u8>>)
        ensures
            match r {
                None => self@ is Float,
                Some(t) => !(self@ is Float) && t@ == value_text(self@),
            },
    {
        match self {
            Value::Int(n) => {
                let mut digits: Vec<char> = Vec::new();
                push_i64_text(*n, &mut digits);
                assert(digits@ =~= spec_int_text(*n as int));
                let mut out: Vec<u8> = Vec::new();
                push_chars_utf8(&digits, &mut out);
                assert(out@ =~= encode_utf8(spec_int_text(*n as int)));
                Some(out)
            },
            Value::Str(s) => {
                let c = s.clone();
                assert(c@ =~= s@);
                Some(c)
            },
            Value::Bool(b) => {
                let mut out: Vec<u8> = Vec::new();
                if *b {
                    push_bytes(&mut out, &[116u8, 114u8, 117u8, 101u8]);
                } else {
                    push_bytes(&mut out, &[102u8, 97u8, 108u8, 115u8, 101u8]);
                }
                assert(out@ =~= value_text(self@));
                Some(out)
            },
            Value::Float(_) => None,
        }
    }
}

pub open spec fn values_view(v: Seq<Value>) -> Seq<ValueV> {
    v.map_values(|x: Value| x@)
}

/// Why the machine stops with a fault.
#[derive(Debug, Clone, Copy, PartialEq, Eq, Structural)]
pub enum VmError {
    /// The instruction at the instruction pointer cannot be read.
    Decode(DecodeError),
    /// An instruction needs more values than the stack holds.
    StackUnderflow,
    /// A value of the wrong type for the instruction.
    TypeMismatch,
    /// Integer overflow, or division or remainder by zero.
    Arithmetic,
    /// A variable that was never stored.
    UndefinedVariable,
    /// A jump or call to a label that the program does not define.
    UndefinedLabel,
    /// `COMPARE` with an unknown comparison byte.
    UnknownComparison,
    /// `RET` with no return address.
    EmptyCallStack,
    /// A float value could not be read from the text of a value.
    BadFloat,
    /// A `resume_*` call while the machine does not wait for it.
    NotWaiting,
}

/// What one step asks of the caller.
#[derive(Debug, PartialEq)]
pub enum Outcome {
    /// The instruction ran; step again.
    Continue,
    /// The program has ended.
    Halt,
    /// Print this value on its own line; the instruction has run.
    Print(Value),
    /// Read a line and hand it to [`Vm::resume_input`].
    NeedInput,
    /// Read this value's text as a float and hand the result to
    /// [`Vm::resume_float`].
    NeedFloat(Value),
    /// Write this float as text and hand the text to [`Vm::resume_text`].
    NeedText(u64),
    /// The byte at this position is no opcode; the machine stops.
    UnknownOpcode(u8, usize),
    /// The machine stops with a fault.
    Fault(VmError),
}

pub enum OutcomeV {
    Continue,
    Halt,
    Print(ValueV),
    NeedInput,
    NeedFloat(ValueV),
    NeedText(u64),
    UnknownOpcode(u8, usize),
    Fault(VmError),
}

impl View for Outcome {
    type V = OutcomeV;

    open spec fn view(&self) -> OutcomeV {
        match self {
            Outcome::Continue => OutcomeV::Continue,
            Outcome::Halt => OutcomeV::Halt,
            Outcome::Print(v) => OutcomeV::Print(v@),
            Outcome::NeedInput => OutcomeV::NeedInput,
            Outcome::NeedFloat(v) => OutcomeV::NeedFloat(v@),
            Outcome::NeedText(b) => OutcomeV::NeedText(*b),
            Outcome::UnknownOpcode(b, at) => OutcomeV::UnknownOpcode(*b, *at),
            Outcome::Fault(e) => OutcomeV::Fault(*e),
        }
    }
}

/// The state of the machine.
#[verifier::ext_equal]
pub struct VmV {
    pub code: Seq<u8>,
    pub ip: int,
    pub stack: Seq<ValueV>,
    pub calls: Seq<usize>,
    pub data: Map<Seq<u8>, ValueV>,
    pub labels: Map<Seq<u8>, usize>,
}

/// Every value of `s` is an integer.
pub open spec fn all_ints(s: Seq<ValueV>) -> bool {
    forall|j: int| 0 <= j < s.len() ==> (#[trigger] s[j]) is Int
}

/// The integer operands of an arithmetic instruction, in the order they were
/// pushed: the `c` topmost values. A non-integer among them is a type error
/// even when there are fewer than `c`.
pub open spec fn int_args(stack: Seq<ValueV>, c: nat) -> Result<Seq<i64>, VmError> {
    let avail = if c <= stack.len() {
        c as int
    } else {
        stack.len() as int
    };
    let taken = stack.subrange(stack.len() - avail, stack.len() as int);
    if !all_ints(taken) {
        Err(VmError::TypeMismatch)
    } else if c > stack.len() {
        Err(VmError::StackUnderflow)
    } else {
        Ok(taken.map_values(|v: ValueV| v->Int_0))
    }
}

/// `ADD` and `MUL`: the values are combined in the order they are popped,
/// starting from `acc`.
pub open spec fn pop_fold(vs: Seq<i64>, acc: i64, mul: bool) -> Option<i64>
    decreases vs.len(),
{
    if vs.len() == 0 {
        Some(acc)
    } else {
        let r = if mul {
            acc.checked_mul(vs.last())
        } else {
            acc.checked_add(vs.last())
        };
        match r {
            None => None,
            Some(a) => pop_fold(vs.drop_last(), a, mul),
        }
    }
}

/// One step of `SUB`, `DIV` or `MOD` (Rust's truncating division).
pub open spec fn left_step(op: u8, acc: i64, v: i64) -> Option<i64> {
    if op == 0x02 {
        acc.checked_sub(v)
    } else if op == 0x04 {
        acc.checked_div(v)
    } else {
        acc.checked_rem(v)
    }
}

/// `SUB`, `DIV` and `MOD`: the first value pushed, combined with each later
/// one in the order they were pushed.
pub open spec fn push_fold(vs: Seq<i64>, j: int, acc: i64, op: u8) -> Option<i64>
    decreases vs.len() - j,
{
    if j < 0 || j >= vs.len() {
        Some(acc)
    } else {
        match left_step(op, acc, vs[j]) {
            None => None,
            Some(a) => push_fold(vs, j + 1, a, op),
        }
    }
}

/// The result of an arithmetic instruction on its operands (in the order
/// they were pushed), `None` on overflow or division by zero. With no
/// operand, `ADD` and `SUB` give 0 and `MUL`, `DIV` and `MOD` give 1.
pub open spec fn arith(op: u8, vs: Seq<i64>) -> Option<i64> {
    if op == 0x01 {
        pop_fold(vs, 0, false)
    } else if op == 0x03 {
        pop_fold(vs, 1, true)
    } else if vs.len() == 0 {
        if op == 0x02 {
            Some(0)
        } else {
            Some(1)
        }
    } else {
        push_fold(vs, 1, vs[0], op)
    }
}

/// The result of a comparison byte on two integers.
pub open spec fn compare(op: u8, a: i64, b: i64) -> Option<bool> {
    if op == 0xC3 {
        Some(a == b)
    } else if op == 0xC4 {
        Some(a >= b)
    } else if op == 0xC5 {
        Some(a > b)
    } else if op == 0xC6 {
        Some(a <= b)
    } else if op == 0xC7 {
        Some(a < b)
    } else if op == 0xC8 {
        Some(a != b)
    } else {
        None
    }
}

/// The text that `to_string` gives a value that is no float, as UTF-8 bytes.
pub open spec fn value_text(v: ValueV) -> Seq<u8> {
    match v {
        ValueV::Int(n) => encode_utf8(spec_int_text(n as int)),
        ValueV::Str(s) => s,
        ValueV::Bool(b) => if b {
            seq![116u8, 114u8, 117u8, 101u8]
        } else {
            seq![102u8, 97u8, 108u8, 115u8, 101u8]
        },
        ValueV::Float(_) => seq![],
    }
}

pub open spec fn arith_opcode(i: InstrV) -> Option<(u8, u8)> {
    match i {
        InstrV::Add(c) => Some((0x01u8, c)),
        InstrV::Sub(c) => Some((0x02u8, c)),
        InstrV::Mul(c) => Some((0x03u8, c)),
        InstrV::Div(c) => Some((0x04u8, c)),
        InstrV::Mod(c) => Some((0x05u8, c)),
        _ => None,
    }
}

pub open spec fn with_stack(s: VmV, stack: Seq<ValueV>, next: int) -> VmV {
    VmV { stack: stack, ip: next, ..s }
}

pub open spec fn logic(i: InstrV, a: bool, b: bool) -> bool {
    match i {
        InstrV::And => a && b,
        InstrV::Or => a || b,
        _ => a != b,
    }
}

/// Running instruction `i`, which ends at `next`. A fault leaves the state
/// as it was, and so does an outcome that waits for the caller.
pub open spec fn run_instr(s: VmV, i: InstrV, next: int) -> (VmV, OutcomeV) {
    let n = s.stack.len();
    if arith_opcode(i) is Some {
        let (op, c) = arith_opcode(i).unwrap();
        match int_args(s.stack, c as nat) {
            Err(e) => (s, OutcomeV::Fault(e)),
            Ok(vs) => match arith(op, vs) {
                None => (s, OutcomeV::Fault(VmError::Arithmetic)),
                Some(r) => (
                    with_stack(s, s.stack.subrange(0, n - c).push(ValueV::Int(r)), next),
                    OutcomeV::Continue,
                ),
            },
        }
    } else {
        match i {
            InstrV::Store(name) => if n == 0 {
                (s, OutcomeV::Fault(VmError::StackUnderflow))
            } else {
                (
                    VmV {
                        stack: s.stack.drop_last(),
                        data: s.data.insert(name, s.stack.last()),
                        ip: next,
                        ..s
                    },
                    OutcomeV::Continue,
                )
            },
            InstrV::PushInt(v) => (
                with_stack(s, s.stack.push(ValueV::Int(v)), next),
                OutcomeV::Continue,
            ),
            InstrV::PushStr(t) => (
                with_stack(s, s.stack.push(ValueV::Str(t)), next),
                OutcomeV::Continue,
            ),
            InstrV::PushBool(b) => (
                with_stack(s, s.stack.push(ValueV::Bool(b != 0)), next),
                OutcomeV::Continue,
            ),
            InstrV::PushDec(bits) => (
                with_stack(s, s.stack.push(ValueV::Float(bits)), next),
                OutcomeV::Continue,
            ),
            InstrV::Load(name) => if s.data.contains_key(name) {
                (with_stack(s, s.stack.push(s.data[name]), next), OutcomeV::Continue)
            } else {
                (s, OutcomeV::Fault(VmError::UndefinedVariable))
            },
            InstrV::LoadStr(name) => if !s.data.contains_key(name) {
                (s, OutcomeV::Fault(VmError::UndefinedVariable))
            } else {
                match s.data[name] {
                    ValueV::Float(bits) => (s, OutcomeV::NeedText(bits)),
                    v => (
                        with_stack(s, s.stack.push(ValueV::Str(value_text(v))), next),
                        OutcomeV::Continue,
                    ),
                }
            },
            InstrV::LoadBool(name) => if s.data.contains_key(name) {
                (
                    with_stack(
                        s,
                        s.stack.push(ValueV::Bool(s.data[name] != ValueV::Int(0))),
                        next,
                    ),
                    OutcomeV::Continue,
                )
            } else {
                (s, OutcomeV::Fault(VmError::UndefinedVariable))
            },
            InstrV::LoadDec(name) => if s.data.contains_key(name) {
                (s, OutcomeV::NeedFloat(s.data[name]))
            } else {
                (s, OutcomeV::Fault(VmError::UndefinedVariable))
            },
            InstrV::Compare(op) => if n < 2 {
                (s, OutcomeV::Fault(VmError::StackUnderflow))
            } else {
                match (s.stack[n - 2], s.stack[n - 1]) {
                    (ValueV::Int(a), ValueV::Int(b)) => match compare(op, a, b) {
                        None => (s, OutcomeV::Fault(VmError::UnknownComparison)),
                        Some(r) => (
                            with_stack(s, s.stack.subrange(0, n - 2).push(ValueV::Bool(r)), next),
                            OutcomeV::Continue,
                        ),
                    },
                    _ => (s, OutcomeV::Fault(VmError::TypeMismatch)),
                }
            },
            InstrV::JumpIf(label) => if n == 0 {
                (s, OutcomeV::Fault(VmError::StackUnderflow))
            } else if s.stack.last() == ValueV::Bool(true) {
                if s.labels.contains_key(label) {
                    (
                        with_stack(s, s.stack.drop_last(), s.labels[label] as int),
                        OutcomeV::Continue,
                    )
                } else {
                    (s, OutcomeV::Fault(VmError::UndefinedLabel))
                }
            } else {
                (with_stack(s, s.stack.drop_last(), next), OutcomeV::Continue)
            },
            InstrV::CallIf(label) => if n == 0 {
                (s, OutcomeV::Fault(VmError::StackUnderflow))
            } else if s.stack.last() == ValueV::Bool(true) {
                if s.labels.contains_key(label) {
                    (
                        VmV {
                            stack: s.stack.drop_last(),
                            calls: s.calls.push(next as usize),
                            ip: s.labels[label] as int,
                            ..s
                        },
                        OutcomeV::Continue,
                    )
                } else {
                    (s, OutcomeV::Fault(VmError::UndefinedLabel))
                }
            } else {
                (with_stack(s, s.stack.drop_last(), next), OutcomeV::Continue)
            },
            InstrV::And | InstrV::Or | InstrV::Xor => if n < 2 {
                (s, OutcomeV::Fault(VmError::StackUnderflow))
            } else {
                match (s.stack[n - 2], s.stack[n - 1]) {
                    (ValueV::Bool(a), ValueV::Bool(b)) => (
                        with_stack(
                            s,
                            s.stack.subrange(0, n - 2).push(ValueV::Bool(logic(i, a, b))),
                            next,
                        ),
                        OutcomeV::Continue,
                    ),
                    _ => (s, OutcomeV::Fault(VmError::TypeMismatch)),
                }
            },
            InstrV::Not => if n == 0 {
                (s, OutcomeV::Fault(VmError::StackUnderflow))
            } else {
                match s.stack.last() {
                    ValueV::Bool(a) => (
                        with_stack(s, s.stack.drop_last().push(ValueV::Bool(!a)), next),
                        OutcomeV::Continue,
                    ),
                    _ => (s, OutcomeV::Fault(VmError::TypeMismatch)),
                }
            },
            InstrV::Print => if n == 0 {
                (s, OutcomeV::Fault(VmError::StackUnderflow))
            } else {
                (with_stack(s, s.stack.drop_last(), next), OutcomeV::Print(s.stack.last()))
            },
            InstrV::Input => (s, OutcomeV::NeedInput),
            InstrV::Call(label) => if s.labels.contains_key(label) {
                (
                    VmV { calls: s.calls.push(next as usize), ip: s.labels[label] as int, ..s },
                    OutcomeV::Continue,
                )
            } else {
                (s, OutcomeV::Fault(VmError::UndefinedLabel))
            },
            InstrV::Ret => if s.calls.len() == 0 {
                (s, OutcomeV::Fault(VmError::EmptyCallStack))
            } else {
                (
                    VmV { calls: s.calls.drop_last(), ip: s.calls.last() as int, ..s },
                    OutcomeV::Continue,
                )
            },
            InstrV::Jump(label) => if s.labels.contains_key(label) {
                (VmV { ip: s.labels[label] as int, ..s }, OutcomeV::Continue)
            } else {
                (s, OutcomeV::Fault(VmError::UndefinedLabel))
            },
            InstrV::End => (s, OutcomeV::Halt),
            _ => (VmV { ip: next, ..s }, OutcomeV::Continue),
        }
    }
}

/// One step of the machine: the state after it and what it asks of the
/// caller. Past the end of the code the program has ended.
pub open spec fn vm_step(s: VmV) -> (VmV, OutcomeV) {
    if s.ip < 0 || s.ip >= s.code.len() {
        (s, OutcomeV::Halt)
    } else {
        match decode_at(s.code, s.ip) {
            Err(DecodeError::UnknownOpcode(_)) => (
                s,
                OutcomeV::UnknownOpcode(s.code[s.ip], s.ip as usize),
            ),
            Err(e) => (s, OutcomeV::Fault(VmError::Decode(e))),
            Ok((i, next)) => run_instr(s, i, next),
        }
    }
}


/// The bytes of a loaded program; their number leaves room for one more
/// position.
struct Bytecode {
    bytes: Vec<u8>,
}

impl Bytecode {
    #[verifier::type_invariant]
    spec fn fits(self) -> bool {
        self.bytes@.len() < usize::MAX
    }
}

/// The machine: its bytecode, instruction pointer, value stack, return
/// addresses, variables and label table.
pub struct Vm {
    code: Bytecode,
    ip: usize,
    stack: Vec<Value>,
    calls: Vec<usize>,
    data: Table<Value>,
    labels: Table<usize>,
}

pub open spec fn value_map(t: Table<Value>) -> Map<Seq<u8>, ValueV> {
    Map::new(|k: Seq<u8>| t.lookup(k) is Some, |k: Seq<u8>| t.lookup(k).unwrap()@)
}

pub open spec fn label_map(t: Table<usize>) -> Map<Seq<u8>, usize> {
    Map::new(|k: Seq<u8>| t.lookup(k) is Some, |k: Seq<u8>| t.lookup(k).unwrap())
}

impl View for Vm {
    type V = VmV;

    closed spec fn view(&self) -> VmV {
        VmV {
            code: self.code.bytes@,
            ip: self.ip as int,
            stack: values_view(self.stack@),
            calls: self.calls@,
            data: value_map(self.data),
            labels: label_map(self.labels),
        }
    }
}

/// Why a bytecode program cannot be loaded.
#[derive(Debug, Clone, Copy, PartialEq, Eq, Structural)]
pub enum LoadError {
    /// The program has no byte.
    Empty,
    /// The program does not start with `ARC_START` and end with `ARC_END`.
    BadFrame,
    /// A `LABEL` whose name cannot be read while building the label table.
    Label(DecodeError),
    /// A `LABEL` byte at this position, which the basic machine cannot load.
    LabelByte(usize),
}

/// Building the label table from position `np` on: every `0xD4` byte starts
/// a label (a length byte, then the name), which maps the name to its
/// position; a later label of the same name wins.
pub open spec fn label_scan(code: Seq<u8>, np: int, m: Map<Seq<u8>, usize>) -> Result<
    Map<Seq<u8>, usize>,
    DecodeError,
>
    decreases code.len() - np,
{
    if np < 0 || np >= code.len() {
        Ok(m)
    } else if code[np] == 0xD4 {
        if np + 1 >= code.len() {
            Err(DecodeError::Truncated(np as usize))
        } else {
            let l = code[np + 1] as int;
            if np + 2 + l > code.len() {
                Err(DecodeError::Truncated(np as usize))
            } else if !valid_utf8(code.subrange(np + 2, np + 2 + l)) {
                Err(DecodeError::BadText(np as usize))
            } else {
                label_scan(code, np + 2 + l, m.insert(code.subrange(np + 2, np + 2 + l), np as usize))
            }
        }
    } else {
        label_scan(code, np + 1, m)
    }
}

/// The machine that a bytecode program starts as.
pub open spec fn spec_load(code: Seq<u8>) -> Result<VmV, LoadError> {
    if code.len() == 0 {
        Err(LoadError::Empty)
    } else if code[0] != 0xF0 || code.last() != 0xF1 {
        Err(LoadError::BadFrame)
    } else {
        match label_scan(code, 0, Map::empty()) {
            Err(e) => Err(LoadError::Label(e)),
            Ok(m) => Ok(
                VmV {
                    code: code,
                    ip: 0,
                    stack: seq![],
                    calls: seq![],
                    data: Map::empty(),
                    labels: m,
                },
            ),
        }
    }
}

/// `s` with its leading white space removed.
pub open spec fn trim_start(s: Seq<char>) -> Seq<char>
    decreases s.len(),
{
    if s.len() > 0 && spec_is_whitespace(s[0]) {
        trim_start(s.drop_first())
    } else {
        s
    }
}

/// `s` with its trailing white space removed.
pub open spec fn trim_end(s: Seq<char>) -> Seq<char>
    decreases s.len(),
{
    if s.len() > 0 && spec_is_whitespace(s.last()) {
        trim_end(s.drop_last())
    } else {
        s
    }
}

/// `s` without leading and trailing white space (what `str::trim` gives).
pub open spec fn spec_trim(s: Seq<char>) -> Seq<char> {
    trim_end(trim_start(s))
}

/// Removes leading and trailing white space.
pub fn trim(s: &Vec<char>) -> (r: Vec<char>)
    ensures
        r@ == spec_trim(s@),
{
    let mut a: usize = 0;
    assert(s@.skip(0) =~= s@);
    while a < s.len() && is_whitespace(s[a])
        invariant
            0 <= a <= s@.len(),
            trim_start(s@) == trim_start(s@.skip(a as int)),
        decreases s@.len() - a,
    {
        assert(s@.skip(a as int).drop_first() =~= s@.skip(a + 1));
        a = a + 1;
    }
    let mut b: usize = s.len();
    let ghost t = s@.skip(a as int);
    assert(trim_start(t) == t);
    assert(t.take(t.len() as int) =~= t);
    while b > a && is_whitespace(s[b - 1])
        invariant
            a <= b <= s@.len(),
            t == s@.skip(a as int),
            trim_end(t) == trim_end(t.take(b - a)),
        decreases b,
    {
        assert(t.take(b - a).drop_last() =~= t.take(b - a - 1));
        assert(t.take(b - a).last() == s@[b - 1]);
        b = b - 1;
    }
    assert(b == a || !spec_is_whitespace(t.take(b - a).last()));
    let r = vstd::slice::slice_to_vec(vstd::slice::slice_subrange(s.as_slice(), a, b));
    assert(r@ =~= t.take(b - a));
    r
}

fn int_args_exec(stack: &Vec<Value>, count: u8) -> (r: Result<Vec<i64>, VmError>)
    ensures
        match int_args(values_view(stack@), count as nat) {
            Ok(vs) => r matches Ok(x) && x@ == vs,
            Err(e) => r == Err::<Vec<i64>, VmError>(e),
        },
{
    let ghost sv = values_view(stack@);
    let n = stack.len();
    let c = count as usize;
    let avail = if c <= n {
        c
    } else {
        n
    };
    let start = n - avail;
    let ghost taken = sv.subrange(start as int, n as int);
    let mut out: Vec<i64> = Vec::new();
    let mut j = start;
    while j < n
        invariant
            start <= j <= n,
            n == stack@.len(),
            sv == values_view(stack@),
            taken == sv.subrange(start as int, n as int),
            c == count as usize,
            start == n - (if count as nat <= n { count as nat } else { n as nat }),
            forall|q: int| 0 <= q < j - start ==> taken[q] is Int,
            out@ == taken.take(j - start).map_values(|v: ValueV| v->Int_0),
        decreases n - j,
    {
        assert(taken[j - start] == stack@[j as int]@);
        match &stack[j] {
            Value::Int(v) => {
                out.push(*v);
                assert(out@ =~= taken.take(j - start + 1).map_values(|v: ValueV| v->Int_0));
            },
            _ => {
                let ghost q = j - start;
                assert(0 <= q < taken.len() && !(taken[q] is Int));
                assert(!all_ints(taken));
                return Err(VmError::TypeMismatch);
            },
        }
        j = j + 1;
    }
    assert(taken.take(j - start) =~= taken);
    if c > n {
        return Err(VmError::StackUnderflow);
    }
    Ok(out)
}

fn arith_exec(op: u8, vs: &Vec<i64>) -> (r: Option<i64>)
    ensures
        r == arith(op, vs@),
{
    if op == 0x01 || op == 0x03 {
        let mul = op == 0x03;
        let mut acc: i64 = if mul {
            1
        } else {
            0
        };
        let mut k = vs.len();
        assert(vs@.take(k as int) =~= vs@);
        while k > 0
            invariant
                k <= vs@.len(),
                arith(op, vs@) == pop_fold(vs@.take(k as int), acc, mul),
                mul == (op == 0x03),
            decreases k,
        {
            assert(vs@.take(k as int).last() == vs@[k - 1]);
            assert(vs@.take(k as int).drop_last() =~= vs@.take(k - 1));
            let v = vs[k - 1];
            let step = if mul {
                acc.checked_mul(v)
            } else {
                acc.checked_add(v)
            };
            match step {
                None => {
                    return None;
                },
                Some(a) => {
                    acc = a;
                },
            }
            k = k - 1;
        }
        Some(acc)
    } else if vs.len() == 0 {
        if op == 0x02 {
            Some(0)
        } else {
            Some(1)
        }
    } else {
        let mut acc = vs[0];
        let mut j: usize = 1;
        while j < vs.len()
            invariant
                1 <= j <= vs@.len(),
                op != 0x01 && op != 0x03,
                arith(op, vs@) == push_fold(vs@, j as int, acc, op),
            decreases vs@.len() - j,
        {
            let v = vs[j];
            let step = if op == 0x02 {
                acc.checked_sub(v)
            } else if op == 0x04 {
                acc.checked_div(v)
            } else {
                acc.checked_rem(v)
            };
            match step {
                None => {
                    return None;
                },
                Some(a) => {
                    acc = a;
                },
            }
            j = j + 1;
        }
        Some(acc)
    }
}

impl Vm {
    /// The instruction pointer.
    pub fn ip(&self) -> (r: usize)
        ensures
            r as int == self@.ip,
    {
        self.ip
    }

    /// The value stack, bottom first.
    pub fn stack(&self) -> (r: &Vec<Value>)
        ensures
            values_view(r@) == self@.stack,
    {
        &self.stack
    }

    /// The return addresses, oldest first.
    pub fn calls(&self) -> (r: &Vec<usize>)
        ensures
            r@ == self@.calls,
    {
        &self.calls
    }

    /// The bytecode.
    pub fn code(&self) -> (r: &Vec<u8>)
        ensures
            r@ == self@.code,
    {
        &self.code.bytes
    }

    /// The variable table.
    pub fn data(&self) -> (r: &Table<Value>)
        ensures
            value_map(*r) == self@.data,
    {
        &self.data
    }

    /// The label table.
    pub fn labels(&self) -> (r: &Table<usize>)
        ensures
            label_map(*r) == self@.labels,
    {
        &self.labels
    }

    /// Loads a bytecode program: it must start with `ARC_START` and end with
    /// `ARC_END`, and its labels are collected before it runs.
    pub fn load(code: Vec<u8>) -> (r: Result<Vm, LoadError>)
        requires
            code@.len() < usize::MAX,
        ensures
            match spec_load(code@) {
                Ok(s) => r matches Ok(vm) && vm@ == s,
                Err(e) => r matches Err(x) && x == e,
            },
    {
        let n = code.len();
        if n == 0 {
            return Err(LoadError::Empty);
        }
        if code[0] != 0xF0 || code[n - 1] != 0xF1 {
            return Err(LoadError::BadFrame);
        }
        let mut labels: Table<usize> = Table::new();
        assert(label_map(labels) =~= Map::<Seq<u8>, usize>::empty());
        let mut np: usize = 0;
        while np < n
            invariant
                n == code@.len(),
                n < usize::MAX,
                code@[0] == 0xF0,
                code@.last() == 0xF1,
                label_scan(code@, 0, Map::empty()) == label_scan(code@, np as int, label_map(labels)),
            decreases n - np,
        {
            if code[np] == 0xD4 {
                if np + 1 >= n {
                    return Err(LoadError::Label(DecodeError::Truncated(np)));
                }
                let l = code[np + 1] as usize;
                if l > n - np - 2 {
                    return Err(LoadError::Label(DecodeError::Truncated(np)));
                }
                if !is_valid_utf8(&code, np + 2, np + 2 + l) {
                    return Err(LoadError::Label(DecodeError::BadText(np)));
                }
                let name = vstd::slice::slice_to_vec(
                    vstd::slice::slice_subrange(code.as_slice(), np + 2, np + 2 + l),
                );
                let ghost before = label_map(labels);
                let ghost key = name@;
                labels.set(name, np);
                assert(label_map(labels) =~= before.insert(key, np));
                np = np + 2 + l;
            } else {
                np = np + 1;
            }
        }
        Ok(
            Vm {
                code: Bytecode { bytes: code },
                ip: 0,
                stack: Vec::new(),
                calls: Vec::new(),
                data: Table::new(),
                labels,
            },
        )
    }
}


fn arith_step(stack: &Vec<Value>, op: u8, count: u8) -> (r: Result<i64, VmError>)
    ensures
        r == match int_args(values_view(stack@), count as nat) {
            Err(e) => Err(e),
            Ok(vs) => match arith(op, vs) {
                None => Err(VmError::Arithmetic),
                Some(x) => Ok(x),
            },
        },
{
    match int_args_exec(stack, count) {
        Err(e) => Err(e),
        Ok(vs) => match arith_exec(op, &vs) {
            None => Err(VmError::Arithmetic),
            Some(x) => Ok(x),
        },
    }
}

fn compare_exec(op: u8, a: i64, b: i64) -> (r: Option<bool>)
    ensures
        r == compare(op, a, b),
{
    if op == 0xC3 {
        Some(a == b)
    } else if op == 0xC4 {
        Some(a >= b)
    } else if op == 0xC5 {
        Some(a > b)
    } else if op == 0xC6 {
        Some(a <= b)
    } else if op == 0xC7 {
        Some(a < b)
    } else if op == 0xC8 {
        Some(a != b)
    } else {
        None
    }
}

fn lookup_value<'a>(t: &'a Table<Value>, k: &Vec<u8>) -> (r: Option<&'a Value>)
    ensures
        value_map(*t).contains_key(k@) == r is Some,
        r matches Some(v) ==> v@ == value_map(*t)[k@],
{
    match t.find(k.as_slice()) {
        None => None,
        Some(i) => Some(&t.entries[i].1),
    }
}

fn lookup_label(t: &Table<usize>, k: &Vec<u8>) -> (r: Option<usize>)
    ensures
        label_map(*t).contains_key(k@) == r is Some,
        r matches Some(v) ==> v == label_map(*t)[k@],
{
    match t.find(k.as_slice()) {
        None => None,
        Some(i) => Some(t.entries[i].1),
    }
}

proof fn lemma_values_view_pop(v: Seq<Value>)
    requires
        v.len() > 0,
    ensures
        values_view(v.drop_last()) == values_view(v).drop_last(),
        values_view(v).last() == v.last()@,
{
    assert(values_view(v.drop_last()) =~= values_view(v).drop_last());
}

proof fn lemma_values_view_push(v: Seq<Value>, x: Value)
    ensures
        values_view(v.push(x)) == values_view(v).push(x@),
{
    assert(values_view(v.push(x)) =~= values_view(v).push(x@));
}

impl Vm {
    /// Runs one instruction (see [`vm_step`]).
    pub fn step(&mut self) -> (o: Outcome)
        ensures
            final(self)@ == vm_step(old(self)@).0,
            o@ == vm_step(old(self)@).1,
    {
        proof {
            use_type_invariant(&self.code);
        }
        let ip = self.ip;
        if ip >= self.code.bytes.len() {
            return Outcome::Halt;
        }
        match decode_instr(&self.code.bytes, ip) {
            Err(DecodeError::UnknownOpcode(_)) => Outcome::UnknownOpcode(self.code.bytes[ip], ip),
            Err(e) => Outcome::Fault(VmError::Decode(e)),
            Ok((i, next)) => self.run(i, next),
        }
    }

    fn run(&mut self, i: Instr, next: usize) -> (o: Outcome)
        ensures
            final(self)@ == run_instr(old(self)@, i@, next as int).0,
            o@ == run_instr(old(self)@, i@, next as int).1,
    {
        match i {
            Instr::Add(c) => self.run_arith(0x01, c, next),
            Instr::Sub(c) => self.run_arith(0x02, c, next),
            Instr::Mul(c) => self.run_arith(0x03, c, next),
            Instr::Div(c) => self.run_arith(0x04, c, next),
            Instr::Mod(c) => self.run_arith(0x05, c, next),
            Instr::Store(_) | Instr::PushInt(_) | Instr::PushStr(_) | Instr::PushBool(_)
            | Instr::PushDec(_) | Instr::Load(_) | Instr::LoadStr(_) | Instr::LoadBool(_)
            | Instr::LoadDec(_) => self.run_data(i, next),
            Instr::Compare(_) | Instr::And | Instr::Or | Instr::Xor | Instr::Not => self.run_logic(
                i,
                next,
            ),
            Instr::JumpIf(_) | Instr::CallIf(_) | Instr::Call(_) | Instr::Ret | Instr::Jump(_) => {
                self.run_flow(i, next)
            },
            Instr::Print => {
                if self.stack.len() == 0 {
                    return Outcome::Fault(VmError::StackUnderflow);
                }
                proof {
                    lemma_values_view_pop(self.stack@);
                }
                let v = self.stack.pop().unwrap();
                self.ip = next;
                Outcome::Print(v)
            },
            Instr::Input => Outcome::NeedInput,
            Instr::End => Outcome::Halt,
            _ => {
                self.ip = next;
                Outcome::Continue
            },
        }
    }
}


impl Vm {
    fn run_arith(&mut self, op: u8, count: u8, next: usize) -> (o: Outcome)
        requires
            op == 0x01 || op == 0x02 || op == 0x03 || op == 0x04 || op == 0x05,
        ensures
            ({
                let i = if op == 0x01 {
                    InstrV::Add(count)
                } else if op == 0x02 {
                    InstrV::Sub(count)
                } else if op == 0x03 {
                    InstrV::Mul(count)
                } else if op == 0x04 {
                    InstrV::Div(count)
                } else {
                    InstrV::Mod(count)
                };
                &&& final(self)@ == run_instr(old(self)@, i, next as int).0
                &&& o@ == run_instr(old(self)@, i, next as int).1
            }),
    {
        match arith_step(&self.stack, op, count) {
            Err(e) => Outcome::Fault(e),
            Ok(x) => {
                let ghost sv = values_view(self.stack@);
                let n = self.stack.len();
                let c = count as usize;
                self.stack.truncate(n - c);
                assert(values_view(self.stack@) =~= sv.subrange(0, n - c));
                self.stack.push(Value::Int(x));
                proof {
                    lemma_values_view_push(self.stack@.drop_last(), Value::Int(x));
                    assert(self.stack@.drop_last().push(Value::Int(x)) =~= self.stack@);
                }
                self.ip = next;
                Outcome::Continue
            },
        }
    }

    fn run_data(&mut self, i: Instr, next: usize) -> (o: Outcome)
        requires
            i is Store || i is PushInt || i is PushStr || i is PushBool || i is PushDec || i is Load
                || i is LoadStr || i is LoadBool || i is LoadDec,
        ensures
            final(self)@ == run_instr(old(self)@, i@, next as int).0,
            o@ == run_instr(old(self)@, i@, next as int).1,
    {
        let ghost sv = values_view(self.stack@);
        let pushed: Value = match i {
            Instr::Store(name) => {
                if self.stack.len() == 0 {
                    return Outcome::Fault(VmError::StackUnderflow);
                }
                proof {
                    lemma_values_view_pop(self.stack@);
                }
                let v = self.stack.pop().unwrap();
                let ghost before = self.data;
                let ghost key = name@;
                let ghost vv = v@;
                self.data.set(name, v);
                assert(value_map(self.data) =~= value_map(before).insert(key, vv));
                self.ip = next;
                return Outcome::Continue;
            },
            Instr::PushInt(v) => Value::Int(v),
            Instr::PushStr(t) => Value::Str(t),
            Instr::PushBool(b) => Value::Bool(b != 0),
            Instr::PushDec(bits) => Value::Float(bits),
            Instr::Load(name) => match lookup_value(&self.data, &name) {
                None => {
                    return Outcome::Fault(VmError::UndefinedVariable);
                },
                Some(v) => v.duplicate(),
            },
            Instr::LoadStr(name) => match lookup_value(&self.data, &name) {
                None => {
                    return Outcome::Fault(VmError::UndefinedVariable);
                },
                Some(v) => match v {
                    Value::Float(bits) => {
                        return Outcome::NeedText(*bits);
                    },
                    _ => Value::Str(v.text().unwrap()),
                },
            },
            Instr::LoadBool(name) => match lookup_value(&self.data, &name) {
                None => {
                    return Outcome::Fault(VmError::UndefinedVariable);
                },
                Some(v) => {
                    let b = match v {
                        Value::Int(x) => *x != 0,
                        _ => true,
                    };
                    Value::Bool(b)
                },
            },
            Instr::LoadDec(name) => match lookup_value(&self.data, &name) {
                None => {
                    return Outcome::Fault(VmError::UndefinedVariable);
                },
                Some(v) => {
                    return Outcome::NeedFloat(v.duplicate());
                },
            },
            _ => Value::Int(0),
        };
        proof {
            lemma_values_view_push(self.stack@, pushed);
        }
        self.stack.push(pushed);
        self.ip = next;
        Outcome::Continue
    }

    fn run_logic(&mut self, i: Instr, next: usize) -> (o: Outcome)
        requires
            i is Compare || i is And || i is Or || i is Xor || i is Not,
        ensures
            final(self)@ == run_instr(old(self)@, i@, next as int).0,
            o@ == run_instr(old(self)@, i@, next as int).1,
    {
        let ghost sv = values_view(self.stack@);
        let n = self.stack.len();
        let r: bool = match i {
            Instr::Not => {
                if n == 0 {
                    return Outcome::Fault(VmError::StackUnderflow);
                }
                proof {
                    lemma_values_view_pop(self.stack@);
                }
                let a = match &self.stack[n - 1] {
                    Value::Bool(a) => *a,
                    _ => {
                        return Outcome::Fault(VmError::TypeMismatch);
                    },
                };
                self.stack.pop();
                !a
            },
            _ => {
                if n < 2 {
                    return Outcome::Fault(VmError::StackUnderflow);
                }
                assert(sv[n - 2] == self.stack@[n - 2]@);
                assert(sv[n - 1] == self.stack@[n - 1]@);
                let r = match (&self.stack[n - 2], &self.stack[n - 1]) {
                    (Value::Int(a), Value::Int(b)) => match i {
                        Instr::Compare(op) => match compare_exec(op, *a, *b) {
                            None => {
                                return Outcome::Fault(VmError::UnknownComparison);
                            },
                            Some(r) => r,
                        },
                        _ => {
                            return Outcome::Fault(VmError::TypeMismatch);
                        },
                    },
                    (Value::Bool(a), Value::Bool(b)) => match i {
                        Instr::And => *a && *b,
                        Instr::Or => *a || *b,
                        Instr::Xor => *a != *b,
                        _ => {
                            return Outcome::Fault(VmError::TypeMismatch);
                        },
                    },
                    _ => {
                        return Outcome::Fault(VmError::TypeMismatch);
                    },
                };
                self.stack.truncate(n - 2);
                assert(values_view(self.stack@) =~= sv.subrange(0, n - 2));
                r
            },
        };
        proof {
            lemma_values_view_push(self.stack@, Value::Bool(r));
        }
        self.stack.push(Value::Bool(r));
        self.ip = next;
        Outcome::Continue
    }

    fn run_flow(&mut self, i: Instr, next: usize) -> (o: Outcome)
        requires
            i is JumpIf || i is CallIf || i is Call || i is Ret || i is Jump,
        ensures
            final(self)@ == run_instr(old(self)@, i@, next as int).0,
            o@ == run_instr(old(self)@, i@, next as int).1,
    {
        let is_call = match &i {
            Instr::CallIf(_) => true,
            _ => false,
        };
        match i {
            Instr::Ret => {
                if self.calls.len() == 0 {
                    return Outcome::Fault(VmError::EmptyCallStack);
                }
                let back = self.calls.pop().unwrap();
                self.ip = back;
                Outcome::Continue
            },
            Instr::Jump(label) => match lookup_label(&self.labels, &label) {
                None => Outcome::Fault(VmError::UndefinedLabel),
                Some(t) => {
                    self.ip = t;
                    Outcome::Continue
                },
            },
            Instr::Call(label) => match lookup_label(&self.labels, &label) {
                None => Outcome::Fault(VmError::UndefinedLabel),
                Some(t) => {
                    self.calls.push(next);
                    self.ip = t;
                    Outcome::Continue
                },
            },
            Instr::JumpIf(label) | Instr::CallIf(label) => {
                let n = self.stack.len();
                if n == 0 {
                    return Outcome::Fault(VmError::StackUnderflow);
                }
                proof {
                    lemma_values_view_pop(self.stack@);
                }
                let taken = match &self.stack[n - 1] {
                    Value::Bool(true) => true,
                    _ => false,
                };
                if taken {
                    match lookup_label(&self.labels, &label) {
                        None => Outcome::Fault(VmError::UndefinedLabel),
                        Some(t) => {
                            self.stack.pop();
                            if is_call {
                                self.calls.push(next);
                            }
                            self.ip = t;
                            Outcome::Continue
                        },
                    }
                } else {
                    self.stack.pop();
                    self.ip = next;
                    Outcome::Continue
                }
            },
            _ => Outcome::Continue,
        }
    }
}


/// The machine after the instruction it waits at has pushed `v`.
pub open spec fn resumed(s: VmV, v: ValueV) -> VmV {
    match decode_at(s.code, s.ip) {
        Ok((_, next)) => with_stack(s, s.stack.push(v), next),
        Err(_) => s,
    }
}

/// `INPUT` resumed with the line that was read: the line, without leading
/// and trailing white space, is pushed as a string.
pub open spec fn spec_resume_input(s: VmV, line: Seq<char>) -> Result<VmV, VmError> {
    if vm_step(s).1 is NeedInput {
        Ok(resumed(s, ValueV::Str(encode_utf8(spec_trim(line)))))
    } else {
        Err(VmError::NotWaiting)
    }
}

/// `LOAD_DEC` resumed with the float read from the variable's text, or
/// `None` where the text is no float.
pub open spec fn spec_resume_float(s: VmV, bits: Option<u64>) -> Result<VmV, VmError> {
    if vm_step(s).1 is NeedFloat {
        match bits {
            Some(b) => Ok(resumed(s, ValueV::Float(b))),
            None => Err(VmError::BadFloat),
        }
    } else {
        Err(VmError::NotWaiting)
    }
}

/// `LOAD_STR` of a float variable resumed with the float's text.
pub open spec fn spec_resume_text(s: VmV, text: Seq<char>) -> Result<VmV, VmError> {
    if vm_step(s).1 is NeedText {
        Ok(resumed(s, ValueV::Str(encode_utf8(text))))
    } else {
        Err(VmError::NotWaiting)
    }
}

/// What a waiting machine waits for.
enum Wait {
    Input,
    Float,
    Text,
}

spec fn waits_for(o: OutcomeV, w: Wait) -> bool {
    match w {
        Wait::Input => o is NeedInput,
        Wait::Float => o is NeedFloat,
        Wait::Text => o is NeedText,
    }
}

impl Vm {
    /// The position after the instruction the machine waits at, where it
    /// waits for `w`.
    fn waiting(&self, w: Wait) -> (r: Option<usize>)
        ensures
            r is Some <==> waits_for(vm_step(self@).1, w),
            r matches Some(n) ==> decode_at(self@.code, self@.ip) matches Ok((_, m)) && m
                == n,
    {
        proof {
            use_type_invariant(&self.code);
        }
        let ip = self.ip;
        if ip >= self.code.bytes.len() {
            return None;
        }
        match decode_instr(&self.code.bytes, ip) {
            Ok((Instr::Input, next)) => match w {
                Wait::Input => Some(next),
                _ => None,
            },
            Ok((Instr::LoadDec(name), next)) => match w {
                Wait::Float => match lookup_value(&self.data, &name) {
                    Some(_) => Some(next),
                    None => None,
                },
                _ => None,
            },
            Ok((Instr::LoadStr(name), next)) => match w {
                Wait::Text => match lookup_value(&self.data, &name) {
                    Some(Value::Float(_)) => Some(next),
                    _ => None,
                },
                _ => None,
            },
            _ => None,
        }
    }

    /// Hands the line that `INPUT` asked for to the machine.
    pub fn resume_input(&mut self, line: &Vec<char>) -> (r: Result<(), VmError>)
        ensures
            match spec_resume_input(old(self)@, line@) {
                Ok(s) => r is Ok && final(self)@ == s,
                Err(e) => r == Err::<(), VmError>(e) && final(self)@ == old(self)@,
            },
    {
        match self.waiting(Wait::Input) {
            None => Err(VmError::NotWaiting),
            Some(next) => {
                let t = trim(line);
                let mut bytes: Vec<u8> = Vec::new();
                push_chars_utf8(&t, &mut bytes);
                assert(bytes@ =~= encode_utf8(spec_trim(line@)));
                proof {
                    lemma_values_view_push(self.stack@, Value::Str(bytes));
                }
                self.stack.push(Value::Str(bytes));
                self.ip = next;
                Ok(())
            },
        }
    }

    /// Hands the float that `LOAD_DEC` asked for to the machine; `None`
    /// where the value's text is no float.
    pub fn resume_float(&mut self, bits: Option<u64>) -> (r: Result<(), VmError>)
        ensures
            match spec_resume_float(old(self)@, bits) {
                Ok(s) => r is Ok && final(self)@ == s,
                Err(e) => r == Err::<(), VmError>(e) && final(self)@ == old(self)@,
            },
    {
        match self.waiting(Wait::Float) {
            None => Err(VmError::NotWaiting),
            Some(next) => match bits {
                None => Err(VmError::BadFloat),
                Some(b) => {
                    proof {
                        lemma_values_view_push(self.stack@, Value::Float(b));
                    }
                    self.stack.push(Value::Float(b));
                    self.ip = next;
                    Ok(())
                },
            },
        }
    }

    /// Hands the text of the float that `LOAD_STR` asked for to the machine.
    pub fn resume_text(&mut self, text: &Vec<char>) -> (r: Result<(), VmError>)
        ensures
            match spec_resume_text(old(self)@, text@) {
                Ok(s) => r is Ok && final(self)@ == s,
                Err(e) => r == Err::<(), VmError>(e) && final(self)@ == old(self)@,
            },
    {
        match self.waiting(Wait::Text) {
            None => Err(VmError::NotWaiting),
            Some(next) => {
                let mut bytes: Vec<u8> = Vec::new();
                push_chars_utf8(text, &mut bytes);
                assert(bytes@ =~= encode_utf8(text@));
                proof {
                    lemma_values_view_push(self.stack@, Value::Str(bytes));
                }
                self.stack.push(Value::Str(bytes));
                self.ip = next;
                Ok(())
            },
        }
    }
}


/// A fault, an unknown opcode, or a request for input, a float or a text
/// leaves the machine as it was.
pub proof fn lemma_waiting_or_fault_keeps_state(s: VmV)
    ensures
        ({
            let (t, o) = vm_step(s);
            (o is Fault || o is UnknownOpcode || o is NeedInput || o is NeedFloat || o is NeedText
                || o is Halt) ==> t == s
        }),
{
    if 0 <= s.ip < s.code.len() {
        match decode_at(s.code, s.ip) {
            Ok((i, next)) => {},
            Err(_) => {},
        }
    }
}

/// `STORE` of a name, then `LOAD_INT` of the same name, leaves the stack as
/// it was: the value read is the value written.
pub proof fn lemma_store_then_load(s: VmV, name: Seq<u8>, n1: int, n2: int)
    requires
        s.stack.len() > 0,
    ensures
        ({
            let (s1, o1) = run_instr(s, InstrV::Store(name), n1);
            let (s2, o2) = run_instr(s1, InstrV::Load(name), n2);
            &&& o1 is Continue
            &&& o2 is Continue
            &&& s2.stack == s.stack
            &&& s2.data == s.data.insert(name, s.stack.last())
            &&& s2.ip == n2
        }),
{
    let (s1, o1) = run_instr(s, InstrV::Store(name), n1);
    assert(s1.data.contains_key(name));
    assert(s1.stack.push(s1.data[name]) =~= s.stack);
}

/// `CALL` of a label that the program defines, then `RET`, goes back to the
/// instruction after the call with the return addresses as they were.
pub proof fn lemma_call_then_ret(s: VmV, label: Seq<u8>, next: int, after: int)
    requires
        s.labels.contains_key(label),
        0 <= next <= usize::MAX,
    ensures
        ({
            let (s1, o1) = run_instr(s, InstrV::Call(label), next);
            let (s2, o2) = run_instr(s1, InstrV::Ret, after);
            &&& o1 is Continue
            &&& s1.ip == s.labels[label]
            &&& o2 is Continue
            &&& s2.ip == next
            &&& s2.calls == s.calls
            &&& s2.stack == s.stack
            &&& s2.data == s.data
        }),
{
    let (s1, o1) = run_instr(s, InstrV::Call(label), next);
    assert(s1.calls.drop_last() =~= s.calls);
}

/// The six comparisons relate as integer order does: `GT` is strict and is
/// `LT` with its operands swapped, `GE` and `LE` are the negations of `LT`
/// and `GT`, `NE` is the negation of `EQ`, `EQ` is equality; no other byte
/// names a comparison.
pub proof fn lemma_comparisons_follow_order(a: i64, b: i64, op: u8)
    ensures
        compare(0xC3, a, b) == Some(a == b),
        compare(0xC7, a, b) == Some(a < b),
        compare(0xC5, a, b) == compare(0xC7, b, a),
        compare(0xC5, a, a) == Some(false),
        compare(0xC4, a, b) == Some(!(compare(0xC7, a, b) == Some(true))),
        compare(0xC6, a, b) == Some(!(compare(0xC5, a, b) == Some(true))),
        compare(0xC8, a, b) == Some(!(compare(0xC3, a, b) == Some(true))),
        compare(op, a, b) is Some <==> 0xC3 <= op <= 0xC8,
{
}

/// `COMPARE` pops two integers, `a` below `b`, and pushes whether `a` and
/// `b` stand in the relation its byte names: `EQ` a == b, `GE` a >= b,
/// `GT` a > b, `LE` a <= b, `LT` a < b, `NE` a != b; the machine moves on.
pub proof fn lemma_compare_pushes_relation(s: VmV, next: int, a: i64, b: i64)
    requires
        s.stack.len() >= 2,
        s.stack[s.stack.len() - 2] == ValueV::Int(a),
        s.stack[s.stack.len() - 1] == ValueV::Int(b),
    ensures
        ({
            let below = s.stack.subrange(0, s.stack.len() - 2);
            &&& run_instr(s, InstrV::Compare(0xC3), next) == (
                with_stack(s, below.push(ValueV::Bool(a == b)), next),
                OutcomeV::Continue,
            )
            &&& run_instr(s, InstrV::Compare(0xC4), next) == (
                with_stack(s, below.push(ValueV::Bool(a >= b)), next),
                OutcomeV::Continue,
            )
            &&& run_instr(s, InstrV::Compare(0xC5), next) == (
                with_stack(s, below.push(ValueV::Bool(a > b)), next),
                OutcomeV::Continue,
            )
            &&& run_instr(s, InstrV::Compare(0xC6), next) == (
                with_stack(s, below.push(ValueV::Bool(a <= b)), next),
                OutcomeV::Continue,
            )
            &&& run_instr(s, InstrV::Compare(0xC7), next) == (
                with_stack(s, below.push(ValueV::Bool(a < b)), next),
                OutcomeV::Continue,
            )
            &&& run_instr(s, InstrV::Compare(0xC8), next) == (
                with_stack(s, below.push(ValueV::Bool(a != b)), next),
                OutcomeV::Continue,
            )
        }),
{
}

/// `AND`, `OR` and `XOR` pop two truth values and push their conjunction,
/// disjunction and exclusive or; `NOT` replaces the top one by its negation.
pub proof fn lemma_logic_pushes_relation(s: VmV, next: int, a: bool, b: bool)
    requires
        s.stack.len() >= 2,
        s.stack[s.stack.len() - 2] == ValueV::Bool(a),
        s.stack[s.stack.len() - 1] == ValueV::Bool(b),
    ensures
        ({
            let below = s.stack.subrange(0, s.stack.len() - 2);
            &&& run_instr(s, InstrV::And, next) == (
                with_stack(s, below.push(ValueV::Bool(a && b)), next),
                OutcomeV::Continue,
            )
            &&& run_instr(s, InstrV::Or, next) == (
                with_stack(s, below.push(ValueV::Bool(a || b)), next),
                OutcomeV::Continue,
            )
            &&& run_instr(s, InstrV::Xor, next) == (
                with_stack(s, below.push(ValueV::Bool(a != b)), next),
                OutcomeV::Continue,
            )
            &&& run_instr(s, InstrV::Not, next) == (
                with_stack(s, s.stack.drop_last().push(ValueV::Bool(!b)), next),
                OutcomeV::Continue,
            )
        }),
{
}

/// With two integer operands, `a` pushed before `b`: `ADD 2` pushes a + b,
/// `SUB 2` pushes a - b and `MUL 2` pushes a * b, where the result fits.
pub proof fn lemma_two_operand_arithmetic(s: VmV, next: int, a: i64, b: i64)
    requires
        s.stack.len() >= 2,
        s.stack[s.stack.len() - 2] == ValueV::Int(a),
        s.stack[s.stack.len() - 1] == ValueV::Int(b),
    ensures
        ({
            let below = s.stack.subrange(0, s.stack.len() - 2);
            &&& i64::MIN <= a + b <= i64::MAX ==> run_instr(s, InstrV::Add(2), next) == (
                with_stack(s, below.push(ValueV::Int((a + b) as i64)), next),
                OutcomeV::Continue,
            )
            &&& i64::MIN <= a - b <= i64::MAX ==> run_instr(s, InstrV::Sub(2), next) == (
                with_stack(s, below.push(ValueV::Int((a - b) as i64)), next),
                OutcomeV::Continue,
            )
            &&& i64::MIN <= a * b <= i64::MAX ==> run_instr(s, InstrV::Mul(2), next) == (
                with_stack(s, below.push(ValueV::Int((a * b) as i64)), next),
                OutcomeV::Continue,
            )
        }),
{
    let n = s.stack.len();
    let taken = s.stack.subrange(n - 2, n as int);
    assert(taken =~= seq![ValueV::Int(a), ValueV::Int(b)]);
    assert(all_ints(taken));
    let vs = taken.map_values(|v: ValueV| v->Int_0);
    assert(vs =~= seq![a, b]);
    assert(int_args(s.stack, 2) == Ok::<Seq<i64>, VmError>(seq![a, b]));
    let ab = seq![a, b];
    assert(ab.drop_last() =~= seq![a]);
    assert(seq![a].drop_last() =~= Seq::<i64>::empty());
    assert(pop_fold(Seq::<i64>::empty(), (0 + b) as i64, false) == Some((0 + b) as i64));
    assert(1 * b == b) by (nonlinear_arith);
    assert(b * a == a * b) by (nonlinear_arith);
    let one = seq![a];
    assert(one.last() == a);
    assert(ab.last() == b);
    assert(ab[1] == b);
    assert(pop_fold(Seq::<i64>::empty(), 0, false) == Some(0i64));
    if i64::MIN <= a * b <= i64::MAX {
        assert((1i64).checked_mul(b) == Some(b));
        assert(b.checked_mul(a) == Some((a * b) as i64));
        assert(pop_fold(one.drop_last(), (a * b) as i64, true) == Some((a * b) as i64));
        assert(pop_fold(one, b, true) == Some((a * b) as i64));
    }
    if i64::MIN <= a + b <= i64::MAX {
        assert((0i64).checked_add(b) == Some(b));
        assert(b.checked_add(a) == Some((a + b) as i64));
        assert(pop_fold(one.drop_last(), (a + b) as i64, false) == Some((a + b) as i64));
        assert(pop_fold(one, b, false) == Some((a + b) as i64));
    }
    if i64::MIN <= a - b <= i64::MAX {
        assert(a.checked_sub(b) == Some((a - b) as i64));
        assert(push_fold(ab, 2, (a - b) as i64, 0x02) == Some((a - b) as i64));
    }
}

/// Division of a natural number by a positive one.
proof fn lemma_nat_div_mod(x: int, d: int)
    requires
        x >= 0,
        d > 0,
    ensures
        x == d * (x / d) + x % d,
        0 <= x % d < d,
        0 <= x / d <= x,
{
    lemma_fundamental_div_mod(x, d);
    lemma_mod_bound(x, d);
    lemma_div_basics_4(x, d);
    lemma_div_basics_5(x, d);
}

/// Rust's `i64` division and remainder truncate: the quotient times the
/// divisor plus the remainder is the dividend, the remainder is smaller
/// than the divisor in size and is zero or has the dividend's sign.
proof fn lemma_truncating_division(a: i64, b: i64)
    requires
        b != 0,
        !(a == i64::MIN && b == -1),
    ensures
        a.checked_div(b) is Some,
        a.checked_rem(b) is Some,
        ({
            let q = a.checked_div(b).unwrap() as int;
            let r = a.checked_rem(b).unwrap() as int;
            &&& q * b + r == a
            &&& -(b as int) < r < b || (b as int) < r < -(b as int)
            &&& r == 0 || (r < 0) == (a < 0)
        }),
{
    let x = a as int;
    let d = b as int;
    if x == 0 {
        assert(a.checked_div(b) == Some(0i64));
        assert(a.checked_rem(b) == Some(0i64));
    } else if x > 0 && d > 0 {
        lemma_nat_div_mod(x, d);
        assert(a.checked_div(b) == Some((x / d) as i64));
        assert(a.checked_rem(b) == Some((x % d) as i64));
        assert(x / d * d == d * (x / d)) by (nonlinear_arith);
        assert(a.checked_div(b).unwrap() as int * b + a.checked_rem(b).unwrap() as int == a);
        assert(-(b as int) < a.checked_rem(b).unwrap() < b || (b as int) < a.checked_rem(b).unwrap() < -(b as int));
    } else if x < 0 && d < 0 {
        lemma_nat_div_mod(-x, -d);
        assert(x * -1 == -x && d * -1 == -d);
        let qq = (-x) / (-d);
        let rr = (-x) % (-d);
        if x == i64::MIN {
            assert(-d >= 2);
            assert(2 * qq <= (-d) * qq) by (nonlinear_arith)
                requires
                    -d >= 2,
                    qq >= 0,
            ;
        }
        assert(qq <= i64::MAX);
        assert(a.checked_div(b) == Some(qq as i64));
        assert(a.checked_rem(b) == Some((rr * -1) as i64));
        assert(qq * d == -((-d) * qq)) by (nonlinear_arith);
        assert(a.checked_div(b).unwrap() as int * b + a.checked_rem(b).unwrap() as int == a);
        assert(-(b as int) < a.checked_rem(b).unwrap() < b || (b as int) < a.checked_rem(b).unwrap() < -(b as int));
    } else if x < 0 {
        lemma_nat_div_mod(-x, d);
        assert(x * -1 == -x);
        let qq = (-x) / d;
        let rr = (-x) % d;
        assert(a.checked_div(b) == Some((qq * -1) as i64));
        assert(a.checked_rem(b) == Some((rr * -1) as i64));
        assert((qq * -1) * d == -(d * qq)) by (nonlinear_arith);
        assert(a.checked_div(b).unwrap() as int * b + a.checked_rem(b).unwrap() as int == a);
        assert(-(b as int) < a.checked_rem(b).unwrap() < b || (b as int) < a.checked_rem(b).unwrap() < -(b as int));
    } else {
        lemma_nat_div_mod(x, -d);
        assert(d * -1 == -d);
        let qq = x / (-d);
        let rr = x % (-d);
        assert(a.checked_div(b) == Some((qq * -1) as i64));
        assert(a.checked_rem(b) == Some(rr as i64));
        assert((qq * -1) * d == (-d) * qq) by (nonlinear_arith);
        assert(a.checked_div(b).unwrap() as int * b + a.checked_rem(b).unwrap() as int == a);
        assert(-(b as int) < a.checked_rem(b).unwrap() < b || (b as int) < a.checked_rem(b).unwrap() < -(b as int));
    }
}

/// With two integer operands, `a` pushed before `b`, and `b` not zero (nor
/// `a` the least `i64` with `b` -1, whose quotient does not fit): `DIV 2`
/// pushes a quotient `q` and `MOD 2` a remainder `r` of truncating
/// division, `q * b + r == a` with `r` smaller than `b` in size and zero or
/// of the sign of `a`.
pub proof fn lemma_two_operand_division(s: VmV, next: int, a: i64, b: i64)
    requires
        s.stack.len() >= 2,
        s.stack[s.stack.len() - 2] == ValueV::Int(a),
        s.stack[s.stack.len() - 1] == ValueV::Int(b),
        b != 0,
        !(a == i64::MIN && b == -1),
    ensures
        ({
            let below = s.stack.subrange(0, s.stack.len() - 2);
            let (sd, od) = run_instr(s, InstrV::Div(2), next);
            let (sm, om) = run_instr(s, InstrV::Mod(2), next);
            let q = sd.stack.last()->Int_0 as int;
            let r = sm.stack.last()->Int_0 as int;
            &&& od == OutcomeV::Continue
            &&& om == OutcomeV::Continue
            &&& sd == with_stack(s, below.push(ValueV::Int(q as i64)), next)
            &&& sm == with_stack(s, below.push(ValueV::Int(r as i64)), next)
            &&& q * b + r == a
            &&& -(b as int) < r < b || (b as int) < r < -(b as int)
            &&& r == 0 || (r < 0) == (a < 0)
        }),
{
    let n = s.stack.len();
    let taken = s.stack.subrange(n - 2, n as int);
    assert(taken =~= seq![ValueV::Int(a), ValueV::Int(b)]);
    assert(all_ints(taken));
    let vs = taken.map_values(|v: ValueV| v->Int_0);
    assert(vs =~= seq![a, b]);
    assert(int_args(s.stack, 2) == Ok::<Seq<i64>, VmError>(seq![a, b]));
    let ab = seq![a, b];
    assert(ab[0] == a && ab[1] == b);
    lemma_truncating_division(a, b);
    let q = a.checked_div(b).unwrap();
    let r = a.checked_rem(b).unwrap();
    assert(push_fold(ab, 2, q, 0x04) == Some(q));
    assert(push_fold(ab, 2, r, 0x05) == Some(r));
}

/// An arithmetic instruction with at least one operand, where the top of
/// the stack is not an integer, is a type error and leaves the machine as
/// it was.
pub proof fn lemma_arith_needs_integers(s: VmV, i: InstrV, next: int)
    requires
        arith_opcode(i) is Some,
        arith_opcode(i).unwrap().1 >= 1,
        s.stack.len() > 0,
        !(s.stack.last() is Int),
    ensures
        run_instr(s, i, next) == (s, OutcomeV::Fault(VmError::TypeMismatch)),
{
    let c = arith_opcode(i).unwrap().1 as nat;
    let n = s.stack.len();
    let avail: int = if c <= n {
        c as int
    } else {
        n as int
    };
    let taken = s.stack.subrange(n - avail, n as int);
    assert(taken[avail - 1] == s.stack.last());
    assert(!all_ints(taken));
}


/// Every name in a label table points at a `LABEL` instruction of that name.
pub open spec fn labels_point_at_labels(code: Seq<u8>, m: Map<Seq<u8>, usize>) -> bool {
    forall|k: Seq<u8>|
        #[trigger] m.contains_key(k) ==> {
            let p = m[k] as int;
            &&& p + 2 + k.len() <= code.len()
            &&& code[p] == 0xD4
            &&& code[p + 1] as int == k.len()
            &&& code.subrange(p + 2, p + 2 + k.len()) == k
        }
}

proof fn lemma_label_scan_sound(code: Seq<u8>, np: int, m: Map<Seq<u8>, usize>)
    requires
        labels_point_at_labels(code, m),
        code.len() < usize::MAX,
    ensures
        label_scan(code, np, m) matches Ok(m2) ==> labels_point_at_labels(code, m2),
    decreases code.len() - np,
{
    if 0 <= np < code.len() {
        if code[np] == 0xD4 && np + 1 < code.len() {
            let l = code[np + 1] as int;
            if np + 2 + l <= code.len() && valid_utf8(code.subrange(np + 2, np + 2 + l)) {
                let k = code.subrange(np + 2, np + 2 + l);
                let m2 = m.insert(k, np as usize);
                assert forall|q: Seq<u8>| #[trigger] m2.contains_key(q) implies {
                    let p = m2[q] as int;
                    &&& p + 2 + q.len() <= code.len()
                    &&& code[p] == 0xD4
                    &&& code[p + 1] as int == q.len()
                    &&& code.subrange(p + 2, p + 2 + q.len()) == q
                } by {
                    if q != k {
                        assert(m.contains_key(q));
                    } else {
                        assert(m2[q] as int == np);
                    }
                }
                lemma_label_scan_sound(code, np + 2 + l, m2);
            }
        } else {
            lemma_label_scan_sound(code, np + 1, m);
        }
    }
}

/// The labels a loaded program starts with all point at a `LABEL`
/// instruction of their name, so that a jump to a label lands on it.
pub proof fn lemma_loaded_labels_point_at_labels(code: Seq<u8>)
    requires
        code.len() < usize::MAX,
    ensures
        spec_load(code) matches Ok(s) ==> labels_point_at_labels(code, s.labels),
{
    lemma_label_scan_sound(code, 0, Map::empty());
}


/// Once the machine has halted it stays halted: stepping again changes
/// nothing and halts again.
pub proof fn lemma_halt_is_final(s: VmV)
    requires
        vm_step(s).1 is Halt,
    ensures
        vm_step(s).0 == s,
        vm_step(vm_step(s).0) == vm_step(s),
{
    lemma_waiting_or_fault_keeps_state(s);
}


/// `input` always yields a string: the line read, without leading and
/// trailing white space, is pushed as a string on the stack as it was.
pub proof fn lemma_input_yields_string(s: VmV, line: Seq<char>)
    requires
        vm_step(s).1 is NeedInput,
    ensures
        spec_resume_input(s, line) matches Ok(t) && t.stack == s.stack.push(
            ValueV::Str(encode_utf8(spec_trim(line))),
        ) && t.data == s.data && t.calls == s.calls,
{
}

} // verus!
