//! The basic AVM: a machine with a smaller instruction set and no label
//! table. It runs constants, arithmetic and printing; a load finds no
//! variable (nothing can store one), a jump or call finds no label, and a
//! program that holds a `LABEL` byte cannot be loaded at all.
use vstd::prelude::*;
use vstd::utf8::valid_utf8;

use crate::bytecode::DecodeError;
use crate::encoding::is_valid_utf8;
use crate::vm::{spec_load, vm_step, LoadError, Outcome, OutcomeV, Vm, VmError, VmV};

verus! {

/// The opcodes of the basic instruction set.
pub open spec fn basic_opcode(op: u8) -> bool {
    ||| 0x01 <= op <= 0x05
    ||| 0x11 <= op <= 0x18
    ||| op == 0xD4
    ||| 0xE2 <= op <= 0xE4
    ||| op == 0xE0
    ||| op == 0xF0 || op == 0xF1 || op == 0xF2
    ||| op == 0x00
}

/// A load instruction: its name is read from the length byte on, one byte
/// early, and no variable of that name exists.
pub open spec fn basic_load(code: Seq<u8>, ip: int) -> VmError {
    if ip + 1 >= code.len() {
        VmError::Decode(DecodeError::Truncated(ip as usize))
    } else if ip + 1 + code[ip + 1] > code.len() {
        VmError::Decode(DecodeError::Truncated(ip as usize))
    } else if !valid_utf8(code.subrange(ip + 1, ip + 1 + code[ip + 1])) {
        VmError::Decode(DecodeError::BadText(ip as usize))
    } else {
        VmError::UndefinedVariable
    }
}

/// One step of the basic machine: an opcode outside its set stops it, a
/// load fails, and every other instruction runs as on the full machine.
pub open spec fn basic_step(s: VmV) -> (VmV, OutcomeV) {
    if 0 <= s.ip < s.code.len() && !basic_opcode(s.code[s.ip]) {
        (s, OutcomeV::UnknownOpcode(s.code[s.ip], s.ip as usize))
    } else if 0 <= s.ip < s.code.len() && 0x15 <= s.code[s.ip] <= 0x18 {
        (s, OutcomeV::Fault(basic_load(s.code, s.ip)))
    } else {
        vm_step(s)
    }
}

/// The first position of a `LABEL` byte, from `i` on.
pub open spec fn first_label_byte(code: Seq<u8>, i: int) -> Option<int>
    decreases code.len() - i,
{
    if i < 0 || i >= code.len() {
        None
    } else if code[i] == 0xD4 {
        Some(i)
    } else {
        first_label_byte(code, i + 1)
    }
}

/// The basic machine that a bytecode program starts as.
pub open spec fn spec_load_basic(code: Seq<u8>) -> Result<VmV, LoadError> {
    if code.len() == 0 {
        Err(LoadError::Empty)
    } else if code[0] != 0xF0 || code.last() != 0xF1 {
        Err(LoadError::BadFrame)
    } else {
        match first_label_byte(code, 0) {
            Some(i) => Err(LoadError::LabelByte(i as usize)),
            None => spec_load(code),
        }
    }
}

/// The basic machine.
pub struct BasicVm {
    vm: Vm,
}

impl View for BasicVm {
    type V = VmV;

    closed spec fn view(&self) -> VmV {
        self.vm@
    }
}

impl BasicVm {
    /// Loads a bytecode program: it must start with `ARC_START`, end with
    /// `ARC_END` and hold no `LABEL` byte.
    pub fn load(code: Vec<u8>) -> (r: Result<BasicVm, LoadError>)
        requires
            code@.len() < usize::MAX,
        ensures
            match spec_load_basic(code@) {
                Ok(s) => r matches Ok(m) && m@ == s,
                Err(e) => r matches Err(x) && x == e,
            },
    {
        let n = code.len();
        if n == 0 {
            return Err(LoadError::Empty);
        }
        if code[0] != 0xF0 || code[n - 1] != 0xF1 {
            return Err(LoadError::BadFrame);
        }
        let mut i: usize = 0;
        while i < n
            invariant
                n == code@.len(),
                0 <= i <= n,
                code@[0] == 0xF0,
                code@.last() == 0xF1,
                first_label_byte(code@, 0) == first_label_byte(code@, i as int),
            decreases n - i,
        {
            if code[i] == 0xD4 {
                return Err(LoadError::LabelByte(i));
            }
            i = i + 1;
        }
        match Vm::load(code) {
            Ok(vm) => Ok(BasicVm { vm }),
            Err(e) => Err(e),
        }
    }

    /// The full machine state.
    pub fn machine(&self) -> (r: &Vm)
        ensures
            r@ == self@,
    {
        &self.vm
    }

    /// Runs one instruction (see [`basic_step`]).
    pub fn step(&mut self) -> (o: Outcome)
        ensures
            final(self)@ == basic_step(old(self)@).0,
            o@ == basic_step(old(self)@).1,
    {
        let ip = self.vm.ip();
        let code = self.vm.code();
        if ip < code.len() {
            let op = code[ip];
            let basic = (0x01 <= op && op <= 0x05) || (0x11 <= op && op <= 0x18) || op == 0xD4 || (0xE2
                <= op && op <= 0xE4) || op == 0xE0 || op == 0xF0 || op == 0xF1 || op == 0xF2 || op
                == 0x00;
            if !basic {
                return Outcome::UnknownOpcode(op, ip);
            }
            if 0x15 <= op && op <= 0x18 {
                if ip + 1 >= code.len() {
                    return Outcome::Fault(VmError::Decode(DecodeError::Truncated(ip)));
                }
                let len = code[ip + 1] as usize;
                if len > code.len() - ip - 1 {
                    return Outcome::Fault(VmError::Decode(DecodeError::Truncated(ip)));
                }
                if !is_valid_utf8(code, ip + 1, ip + 1 + len) {
                    return Outcome::Fault(VmError::Decode(DecodeError::BadText(ip)));
                }
                return Outcome::Fault(VmError::UndefinedVariable);
            }
        }
        self.vm.step()
    }
}

} // verus!
