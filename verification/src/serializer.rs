//! Serialization: writes the node list as AVM assembly text, one
//! instruction per line.
use vstd::prelude::*;

use crate::number::{decimal, push_i64_text, push_u64_text, spec_int_text};
use crate::parser::{and_name, node_view, nodes_view, or_name, xor_name, Node, NodeV};
use crate::text::chars_eq;

verus! {

pub open spec fn nl() -> Seq<char> {
    seq!['\n']
}

pub open spec fn bool_text(b: bool) -> Seq<char> {
    if b {
        seq!['t', 'r', 'u', 'e']
    } else {
        seq!['f', 'a', 'l', 's', 'e']
    }
}

/// The mnemonic of a comparison byte.
pub open spec fn compare_name(op: u8) -> Option<Seq<char>> {
    if op == 0xC3 {
        Some(seq!['E', 'Q'])
    } else if op == 0xC4 {
        Some(seq!['G', 'E'])
    } else if op == 0xC5 {
        Some(seq!['G', 'T'])
    } else if op == 0xC6 {
        Some(seq!['L', 'E'])
    } else if op == 0xC7 {
        Some(seq!['L', 'T'])
    } else if op == 0xC8 {
        Some(seq!['N', 'E'])
    } else {
        None
    }
}

/// Why a node list cannot be written out.
#[derive(Debug, Clone, Copy, PartialEq, Eq, Structural)]
pub enum SerializeError {
    /// A comparison byte that names no comparison.
    BadCompare(u8),
    /// `Print` of a node that is not a value.
    BadPrint,
    /// A logic operator other than `and`, `or` and `xor`.
    BadLogic,
}

/// The assembly line that pushes a value node, if it is one.
pub open spec fn value_text(n: NodeV) -> Option<Seq<char>> {
    match n {
        NodeV::Load(v) => Some(seq!['L', 'O', 'A', 'D', ' '] + v + nl()),
        NodeV::PushInt(i) => Some(seq!['P', 'U', 'S', 'H', '_', 'I', 'N', 'T', ' '] + spec_int_text(i as int) + nl()),
        NodeV::PushFloat(f) => Some(seq!['P', 'U', 'S', 'H', '_', 'D', 'E', 'C', ' '] + f + nl()),
        NodeV::PushString(s) => Some(seq!['P', 'U', 'S', 'H', '_', 'S', 'T', 'R', ' '] + s + nl()),
        NodeV::PushBool(b) => Some(seq!['P', 'U', 'S', 'H', '_', 'B', 'O', 'O', 'L', ' '] + bool_text(b) + nl()),
        _ => None,
    }
}

/// The assembly text of one node.
pub open spec fn node_text(n: NodeV) -> Result<Seq<char>, SerializeError> {
    match n {
        NodeV::Start => Ok(seq!['A', 'R', 'C', '_', 'S', 'T', 'A', 'R', 'T', '\n']),
        NodeV::End => Ok(seq!['A', 'R', 'C', '_', 'E', 'N', 'D', '\n']),
        NodeV::Delim => Ok(seq!['A', 'R', 'C', '_', 'D', 'E', 'L', 'I', 'M', '\n']),
        NodeV::Label(s) => Ok(seq!['L', 'A', 'B', 'E', 'L', ' '] + s + nl()),
        NodeV::Exit => Ok(seq!['A', 'R', 'C', '_', 'E', 'N', 'D', '\n']),
        NodeV::Jump(s) => Ok(seq!['J', 'U', 'M', 'P', ' '] + s + nl()),
        NodeV::Return => Ok(seq!['R', 'E', 'T', '\n']),
        NodeV::Call(s) => Ok(seq!['C', 'A', 'L', 'L', ' '] + s + nl()),
        NodeV::JumpIf(s) => Ok(seq!['J', 'U', 'M', 'P', '_', 'I', 'F', ' '] + s + nl()),
        NodeV::CallIf(s) => Ok(seq!['C', 'A', 'L', 'L', '_', 'I', 'F', ' '] + s + nl()),
        NodeV::Let(s) => Ok(seq!['S', 'T', 'O', 'R', 'E', ' '] + s + nl()),
        NodeV::Add(c) => Ok(seq!['A', 'D', 'D', ' '] + decimal(c as nat) + nl()),
        NodeV::Sub(c) => Ok(seq!['S', 'U', 'B', ' '] + decimal(c as nat) + nl()),
        NodeV::Mul(c) => Ok(seq!['M', 'U', 'L', ' '] + decimal(c as nat) + nl()),
        NodeV::Div(c) => Ok(seq!['D', 'I', 'V', ' '] + decimal(c as nat) + nl()),
        NodeV::Mod(c) => Ok(seq!['M', 'O', 'D', ' '] + decimal(c as nat) + nl()),
        NodeV::Compare(op) => match compare_name(op) {
            Some(name) => Ok(seq!['C', 'O', 'M', 'P', 'A', 'R', 'E', ' '] + name + nl()),
            None => Err(SerializeError::BadCompare(op)),
        },
        NodeV::Print(e) => match value_text(*e) {
            Some(t) => Ok(t + seq!['P', 'R', 'I', 'N', 'T', '\n']),
            None => Err(SerializeError::BadPrint),
        },
        NodeV::Input(s) => Ok(seq!['I', 'N', 'P', 'U', 'T', '\n'] + seq!['S', 'T', 'O', 'R', 'E', ' '] + s + nl()),
        NodeV::Logic(op) => {
            if op == and_name() {
                Ok(seq!['A', 'N', 'D', '\n'])
            } else if op == or_name() {
                Ok(seq!['O', 'R', '\n'])
            } else if op == xor_name() {
                Ok(seq!['X', 'O', 'R', '\n'])
            } else {
                Err(SerializeError::BadLogic)
            }
        },
        NodeV::Load(v) => Ok(seq!['L', 'O', 'A', 'D', ' '] + v + nl()),
        NodeV::PushInt(i) => Ok(seq!['P', 'U', 'S', 'H', '_', 'I', 'N', 'T', ' '] + spec_int_text(i as int) + nl()),
        NodeV::PushFloat(f) => Ok(seq!['P', 'U', 'S', 'H', '_', 'D', 'E', 'C', ' '] + f + nl()),
        NodeV::PushString(s) => Ok(seq!['P', 'U', 'S', 'H', '_', 'S', 'T', 'R', ' '] + s + nl()),
        NodeV::PushBool(b) => Ok(seq!['P', 'U', 'S', 'H', '_', 'B', 'O', 'O', 'L', ' '] + bool_text(b) + nl()),
    }
}

/// The assembly text of a node list: the texts of its nodes in order, or the
/// error of the first node that has none.
pub open spec fn spec_serialization(nodes: Seq<NodeV>) -> Result<Seq<char>, SerializeError>
    decreases nodes.len(),
{
    if nodes.len() == 0 {
        Ok(seq![])
    } else {
        match spec_serialization(nodes.drop_last()) {
            Err(e) => Err(e),
            Ok(t) => match node_text(nodes.last()) {
                Ok(x) => Ok(t + x),
                Err(e) => Err(e),
            },
        }
    }
}

/// Nodes serialize independently: the text of two node lists one after the
/// other is the text of the first followed by the text of the second; where
/// either has no text, the answer is the error of the first node in order
/// that has none.
pub proof fn lemma_serialization_concat(a: Seq<NodeV>, b: Seq<NodeV>)
    ensures
        spec_serialization(a + b) == match spec_serialization(a) {
            Err(e) => Err(e),
            Ok(x) => match spec_serialization(b) {
                Err(e) => Err(e),
                Ok(y) => Ok::<Seq<char>, SerializeError>(x + y),
            },
        },
    decreases b.len(),
{
    if b.len() == 0 {
        assert(a + b =~= a);
        if let Ok(x) = spec_serialization(a) {
            assert(x + seq![] =~= x);
        }
    } else {
        lemma_serialization_concat(a, b.drop_last());
        assert((a + b).drop_last() =~= a + b.drop_last());
        assert((a + b).last() == b.last());
        if let Ok(x) = spec_serialization(a) {
            if let Ok(y) = spec_serialization(b.drop_last()) {
                if let Ok(z) = node_text(b.last()) {
                    assert(x + y + z =~= x + (y + z));
                }
            }
        }
    }
}

pub open spec fn text_result_view(r: Result<Vec<char>, SerializeError>) -> Result<
    Seq<char>,
    SerializeError,
> {
    match r {
        Ok(v) => Ok(v@),
        Err(e) => Err(e),
    }
}

/// Appends the characters of `lit`.
pub fn push_lit(out: &mut Vec<char>, lit: &[char])
    ensures
        final(out)@ == old(out)@ + lit@,
{
    let mut i: usize = 0;
    while i < lit.len()
        invariant
            0 <= i <= lit@.len(),
            out@ == old(out)@ + lit@.take(i as int),
        decreases lit@.len() - i,
    {
        out.push(lit[i]);
        assert(out@ =~= old(out)@ + lit@.take(i + 1));
        i = i + 1;
    }
    assert(lit@.take(lit@.len() as int) =~= lit@);
}

/// Appends `head`, then `body`, then a newline.
fn push_line(out: &mut Vec<char>, head: &[char], body: &Vec<char>)
    ensures
        final(out)@ == old(out)@ + (head@ + body@ + nl()),
{
    push_lit(out, head);
    push_lit(out, body.as_slice());
    push_lit(out, &['\n']);
    assert(final(out)@ =~= old(out)@ + (head@ + body@ + nl()));
}

fn push_count_line(out: &mut Vec<char>, head: &[char], c: u8)
    ensures
        final(out)@ == old(out)@ + (head@ + decimal(c as nat) + nl()),
{
    push_lit(out, head);
    push_u64_text(c as u64, out);
    push_lit(out, &['\n']);
    assert(final(out)@ =~= old(out)@ + (head@ + decimal(c as nat) + nl()));
}

fn push_value_line(out: &mut Vec<char>, n: &Node) -> (ok: bool)
    ensures
        match value_text(n@) {
            Some(t) => ok && final(out)@ == old(out)@ + t,
            None => !ok && final(out)@ == old(out)@,
        },
{
    match n {
        Node::Load(v) => {
            push_line(out, &['L', 'O', 'A', 'D', ' '], v);
            true
        },
        Node::PushInt(i) => {
            push_lit(out, &['P', 'U', 'S', 'H', '_', 'I', 'N', 'T', ' ']);
            push_i64_text(*i, out);
            push_lit(out, &['\n']);
            assert(final(out)@ =~= old(out)@ + (seq!['P', 'U', 'S', 'H', '_', 'I', 'N', 'T', ' '] + spec_int_text(*i as int) + nl()));
            true
        },
        Node::PushFloat(f) => {
            push_line(out, &['P', 'U', 'S', 'H', '_', 'D', 'E', 'C', ' '], f);
            true
        },
        Node::PushString(s) => {
            push_line(out, &['P', 'U', 'S', 'H', '_', 'S', 'T', 'R', ' '], s);
            true
        },
        Node::PushBool(b) => {
            push_lit(out, &['P', 'U', 'S', 'H', '_', 'B', 'O', 'O', 'L', ' ']);
            if *b {
                push_lit(out, &['t', 'r', 'u', 'e']);
            } else {
                push_lit(out, &['f', 'a', 'l', 's', 'e']);
            }
            push_lit(out, &['\n']);
            assert(final(out)@ =~= old(out)@ + (seq!['P', 'U', 'S', 'H', '_', 'B', 'O', 'O', 'L', ' '] + bool_text(*b) + nl()));
            true
        },
        _ => false,
    }
}

fn push_node_text(out: &mut Vec<char>, n: &Node) -> (r: Result<(), SerializeError>)
    ensures
        match node_text(n@) {
            Ok(t) => r is Ok && final(out)@ == old(out)@ + t,
            Err(e) => r == Err::<(), SerializeError>(e),
        },
{
    match n {
        Node::Start => {
            push_lit(out, &['A', 'R', 'C', '_', 'S', 'T', 'A', 'R', 'T', '\n']);
        },
        Node::End => {
            push_lit(out, &['A', 'R', 'C', '_', 'E', 'N', 'D', '\n']);
        },
        Node::Delim => {
            push_lit(out, &['A', 'R', 'C', '_', 'D', 'E', 'L', 'I', 'M', '\n']);
        },
        Node::Label(s) => {
            push_line(out, &['L', 'A', 'B', 'E', 'L', ' '], s);
        },
        Node::Exit => {
            push_lit(out, &['A', 'R', 'C', '_', 'E', 'N', 'D', '\n']);
        },
        Node::Jump(s) => {
            push_line(out, &['J', 'U', 'M', 'P', ' '], s);
        },
        Node::Return => {
            push_lit(out, &['R', 'E', 'T', '\n']);
        },
        Node::Call(s) => {
            push_line(out, &['C', 'A', 'L', 'L', ' '], s);
        },
        Node::JumpIf(s) => {
            push_line(out, &['J', 'U', 'M', 'P', '_', 'I', 'F', ' '], s);
        },
        Node::CallIf(s) => {
            push_line(out, &['C', 'A', 'L', 'L', '_', 'I', 'F', ' '], s);
        },
        Node::Let(s) => {
            push_line(out, &['S', 'T', 'O', 'R', 'E', ' '], s);
        },
        Node::Add(c) => {
            push_count_line(out, &['A', 'D', 'D', ' '], *c);
        },
        Node::Sub(c) => {
            push_count_line(out, &['S', 'U', 'B', ' '], *c);
        },
        Node::Mul(c) => {
            push_count_line(out, &['M', 'U', 'L', ' '], *c);
        },
        Node::Div(c) => {
            push_count_line(out, &['D', 'I', 'V', ' '], *c);
        },
        Node::Mod(c) => {
            push_count_line(out, &['M', 'O', 'D', ' '], *c);
        },
        Node::Compare(op) => {
            let op = *op;
            let name: &[char] = if op == 0xC3 {
                &['E', 'Q']
            } else if op == 0xC4 {
                &['G', 'E']
            } else if op == 0xC5 {
                &['G', 'T']
            } else if op == 0xC6 {
                &['L', 'E']
            } else if op == 0xC7 {
                &['L', 'T']
            } else if op == 0xC8 {
                &['N', 'E']
            } else {
                return Err(SerializeError::BadCompare(op));
            };
            assert(compare_name(op) == Some(name@));
            push_lit(out, &['C', 'O', 'M', 'P', 'A', 'R', 'E', ' ']);
            push_lit(out, name);
            push_lit(out, &['\n']);
            assert(final(out)@ =~= old(out)@ + (seq!['C', 'O', 'M', 'P', 'A', 'R', 'E', ' '] + name@ + nl()));
        },
        Node::Print(e) => {
            let inner: &Node = &**e;
            assert(inner@ == node_view(**e));
            if !push_value_line(out, inner) {
                return Err(SerializeError::BadPrint);
            }
            push_lit(out, &['P', 'R', 'I', 'N', 'T', '\n']);
            assert(final(out)@ =~= old(out)@ + (value_text(inner@).unwrap() + seq!['P', 'R', 'I', 'N', 'T', '\n']));
        },
        Node::Input(s) => {
            push_lit(out, &['I', 'N', 'P', 'U', 'T', '\n']);
            push_line(out, &['S', 'T', 'O', 'R', 'E', ' '], s);
            assert(final(out)@ =~= old(out)@ + (seq!['I', 'N', 'P', 'U', 'T', '\n'] + seq!['S', 'T', 'O', 'R', 'E', ' '] + s@ + nl()));
        },
        Node::Logic(op) => {
            if chars_eq(op.as_slice(), &['a', 'n', 'd']) {
                push_lit(out, &['A', 'N', 'D', '\n']);
            } else if chars_eq(op.as_slice(), &['o', 'r']) {
                push_lit(out, &['O', 'R', '\n']);
            } else if chars_eq(op.as_slice(), &['x', 'o', 'r']) {
                push_lit(out, &['X', 'O', 'R', '\n']);
            } else {
                return Err(SerializeError::BadLogic);
            }
        },
        _ => {
            let ok = push_value_line(out, n);
            assert(ok);
        },
    }
    Ok(())
}

proof fn lemma_serialization_error_sticks(nodes: Seq<NodeV>, i: int, j: int)
    requires
        0 <= i <= j <= nodes.len(),
        spec_serialization(nodes.take(i)) is Err,
    ensures
        spec_serialization(nodes.take(j)) == spec_serialization(nodes.take(i)),
    decreases j - i,
{
    if j > i {
        lemma_serialization_error_sticks(nodes, i, j - 1);
        assert(nodes.take(j).drop_last() =~= nodes.take(j - 1));
    }
}

/// Writes a node list as AVM assembly text, or reports the first node that
/// cannot be written.
pub fn serialization(ast: &Vec<Node>) -> (r: Result<Vec<char>, SerializeError>)
    ensures
        text_result_view(r) == spec_serialization(nodes_view(ast@)),
{
    let ghost nv = nodes_view(ast@);
    let mut out: Vec<char> = Vec::new();
    let mut i: usize = 0;
    assert(nv.take(0) =~= Seq::<NodeV>::empty());
    assert(out@ =~= Seq::<char>::empty());
    while i < ast.len()
        invariant
            0 <= i <= ast@.len(),
            nv == nodes_view(ast@),
            spec_serialization(nv.take(i as int)) == Ok::<Seq<char>, SerializeError>(out@),
        decreases ast@.len() - i,
    {
        assert(nv.take(i + 1).drop_last() =~= nv.take(i as int));
        assert(nv.take(i + 1).last() == ast@[i as int]@);
        match push_node_text(&mut out, &ast[i]) {
            Ok(()) => {},
            Err(e) => {
                proof {
                    lemma_serialization_error_sticks(nv, i + 1, nv.len() as int);
                    assert(nv.take(nv.len() as int) =~= nv);
                }
                return Err(e);
            },
        }
        i = i + 1;
    }
    assert(nv.take(nv.len() as int) =~= nv);
    Ok(out)
}

} // verus!
