//! The ARC parser: turns a token stream into the flat list of nodes that
//! the serializer writes out as AVM assembly.
use vstd::prelude::*;

use crate::lexer::{eof_name, tokens_view, Token, TokenV};
use crate::text::{chars_eq, copy_chars};

verus! {

/// One node of the (flat) syntax tree. A float literal keeps its text.
#[derive(Debug, PartialEq)]
pub enum Node {
    Start,
    End,
    Delim,
    Label(Vec<char>),
    Exit,
    Jump(Vec<char>),
    Return,
    Call(Vec<char>),
    JumpIf(Vec<char>),
    CallIf(Vec<char>),
    Let(Vec<char>),
    Add(u8),
    Sub(u8),
    Mul(u8),
    Div(u8),
    Mod(u8),
    Compare(u8),
    Print(Box<Node>),
    Input(Vec<char>),
    PushInt(i64),
    PushFloat(Vec<char>),
    PushString(Vec<char>),
    PushBool(bool),
    Load(Vec<char>),
    Logic(Vec<char>),
}

/// The mathematical value of a [`Node`].
pub enum NodeV {
    Start,
    End,
    Delim,
    Label(Seq<char>),
    Exit,
    Jump(Seq<char>),
    Return,
    Call(Seq<char>),
    JumpIf(Seq<char>),
    CallIf(Seq<char>),
    Let(Seq<char>),
    Add(u8),
    Sub(u8),
    Mul(u8),
    Div(u8),
    Mod(u8),
    Compare(u8),
    Print(Box<NodeV>),
    Input(Seq<char>),
    PushInt(i64),
    PushFloat(Seq<char>),
    PushString(Seq<char>),
    PushBool(bool),
    Load(Seq<char>),
    Logic(Seq<char>),
}

pub open spec fn node_view(n: Node) -> NodeV
    decreases n,
{
    match n {
        Node::Start => NodeV::Start,
        Node::End => NodeV::End,
        Node::Delim => NodeV::Delim,
        Node::Label(s) => NodeV::Label(s@),
        Node::Exit => NodeV::Exit,
        Node::Jump(s) => NodeV::Jump(s@),
        Node::Return => NodeV::Return,
        Node::Call(s) => NodeV::Call(s@),
        Node::JumpIf(s) => NodeV::JumpIf(s@),
        Node::CallIf(s) => NodeV::CallIf(s@),
        Node::Let(s) => NodeV::Let(s@),
        Node::Add(c) => NodeV::Add(c),
        Node::Sub(c) => NodeV::Sub(c),
        Node::Mul(c) => NodeV::Mul(c),
        Node::Div(c) => NodeV::Div(c),
        Node::Mod(c) => NodeV::Mod(c),
        Node::Compare(c) => NodeV::Compare(c),
        Node::Print(b) => NodeV::Print(Box::new(node_view(*b))),
        Node::Input(s) => NodeV::Input(s@),
        Node::PushInt(v) => NodeV::PushInt(v),
        Node::PushFloat(s) => NodeV::PushFloat(s@),
        Node::PushString(s) => NodeV::PushString(s@),
        Node::PushBool(b) => NodeV::PushBool(b),
        Node::Load(s) => NodeV::Load(s@),
        Node::Logic(s) => NodeV::Logic(s@),
    }
}

impl View for Node {
    type V = NodeV;

    open spec fn view(&self) -> NodeV {
        node_view(*self)
    }
}

pub open spec fn nodes_view(v: Seq<Node>) -> Seq<NodeV> {
    v.map_values(|n: Node| n@)
}

/// Why the parser rejects a token stream; the number is the position of the
/// token at fault.
#[derive(Debug, Clone, Copy, PartialEq, Eq, Structural)]
pub enum ParseError {
    /// A statement needs a token past the end of the stream.
    UnexpectedEnd,
    /// An identifier was required here.
    ExpectedIdentifier(usize),
    /// `return` or `exit` is not followed by `;`.
    ExpectedSemicolon(usize),
    /// `let <name>` is not followed by `=`.
    ExpectedAssign(usize),
    /// A token that the statement being read does not allow.
    UnexpectedToken(usize),
    /// Punctuation that cannot start a statement.
    ImpossiblePunct(usize),
    /// An identifier where a statement should start.
    StrayIdentifier(usize),
}

pub open spec fn tok(ts: Seq<TokenV>, i: int) -> Option<TokenV> {
    if 0 <= i < ts.len() {
        Some(ts[i])
    } else {
        None
    }
}

pub open spec fn punct1(c: char) -> TokenV {
    TokenV::Punct(seq![c])
}

pub open spec fn punct2(a: char, b: char) -> TokenV {
    TokenV::Punct(seq![a, b])
}

/// The node that pushes the value a token stands for, if it stands for one.
pub open spec fn value_node(t: TokenV) -> Option<NodeV> {
    match t {
        TokenV::Identifier(s) => Some(NodeV::Load(s)),
        TokenV::Integer(v) => Some(NodeV::PushInt(v)),
        TokenV::Float(s) => Some(NodeV::PushFloat(s)),
        TokenV::Str(s) => Some(NodeV::PushString(s)),
        TokenV::Bool(b) => Some(NodeV::PushBool(b)),
        _ => None,
    }
}

/// The operands allowed after an arithmetic operator in `let`.
pub open spec fn arith_operand(t: TokenV) -> Option<NodeV> {
    match t {
        TokenV::Identifier(s) => Some(NodeV::Load(s)),
        TokenV::Integer(v) => Some(NodeV::PushInt(v)),
        TokenV::Float(s) => Some(NodeV::PushFloat(s)),
        _ => None,
    }
}

/// The node an arithmetic operator of `let` becomes.
pub open spec fn arith_node(t: TokenV) -> Option<NodeV> {
    if t == punct1('+') {
        Some(NodeV::Add(2))
    } else if t == punct1('-') {
        Some(NodeV::Sub(2))
    } else if t == punct1('*') {
        Some(NodeV::Mul(2))
    } else if t == punct1('/') {
        Some(NodeV::Div(2))
    } else if t == punct1('%') {
        Some(NodeV::Mod(2))
    } else {
        None
    }
}

/// The comparison byte of a comparison operator.
pub open spec fn compare_code(t: TokenV) -> Option<u8> {
    if t == punct1('>') {
        Some(0xC5u8)
    } else if t == punct1('<') {
        Some(0xC7u8)
    } else if t == punct2('>', '=') {
        Some(0xC4u8)
    } else if t == punct2('<', '=') {
        Some(0xC6u8)
    } else if t == punct2('=', '=') {
        Some(0xC3u8)
    } else if t == punct2('!', '=') {
        Some(0xC8u8)
    } else {
        None
    }
}

/// The right-hand side of `let`, from position `q` up to the closing `;`:
/// the nodes it becomes and the position of that `;`.
pub open spec fn let_terms(ts: Seq<TokenV>, q: int) -> Result<(Seq<NodeV>, int), ParseError>
    decreases ts.len() - q,
{
    if q < 0 || q >= ts.len() {
        Err(ParseError::UnexpectedEnd)
    } else if ts[q] == punct1(';') {
        Ok((seq![], q))
    } else if arith_node(ts[q]) is Some {
        if q + 1 >= ts.len() {
            Err(ParseError::UnexpectedEnd)
        } else {
            match arith_operand(ts[q + 1]) {
                None => Err(ParseError::UnexpectedToken((q + 1) as usize)),
                Some(v) => match let_terms(ts, q + 2) {
                    Err(e) => Err(e),
                    Ok((rest, e)) => Ok((seq![v, arith_node(ts[q]).unwrap()] + rest, e)),
                },
            }
        }
    } else {
        match ts[q] {
            TokenV::Punct(_) => Err(ParseError::UnexpectedToken(q as usize)),
            _ => match value_node(ts[q]) {
                None => Err(ParseError::UnexpectedToken(q as usize)),
                Some(v) => match let_terms(ts, q + 1) {
                    Err(e) => Err(e),
                    Ok((rest, e)) => Ok((seq![v] + rest, e)),
                },
            },
        }
    }
}

/// What a condition term adds to the numbers of pending `and`, `xor` and `or`.
pub open spec fn logic_delta(t: TokenV) -> Option<(nat, nat, nat)> {
    if t == punct2('&', '&') {
        Some((1nat, 0nat, 0nat))
    } else if t == punct2('^', '^') {
        Some((0nat, 1nat, 0nat))
    } else if t == punct2('|', '|') {
        Some((0nat, 0nat, 1nat))
    } else {
        None
    }
}

/// The condition of `jumpif`/`callif`, from position `q` up to the closing
/// `;`: the nodes of its values and comparisons, the numbers of `&&`, `^^`
/// and `||`, and the position of that `;`.
pub open spec fn cond_terms(ts: Seq<TokenV>, q: int) -> Result<
    (Seq<NodeV>, nat, nat, nat, int),
    ParseError,
>
    decreases ts.len() - q,
{
    if q < 0 || q >= ts.len() {
        Err(ParseError::UnexpectedEnd)
    } else if ts[q] == punct1(';') {
        Ok((seq![], 0, 0, 0, q))
    } else if compare_code(ts[q]) is Some {
        if q + 1 >= ts.len() {
            Err(ParseError::UnexpectedEnd)
        } else {
            match value_node(ts[q + 1]) {
                None => Err(ParseError::UnexpectedToken((q + 1) as usize)),
                Some(v) => match cond_terms(ts, q + 2) {
                    Err(e) => Err(e),
                    Ok((rest, a, x, o, e)) => Ok(
                        (seq![v, NodeV::Compare(compare_code(ts[q]).unwrap())] + rest, a, x, o, e),
                    ),
                },
            }
        }
    } else if logic_delta(ts[q]) is Some {
        match cond_terms(ts, q + 1) {
            Err(e) => Err(e),
            Ok((rest, a, x, o, e)) => {
                let (da, dx, dor) = logic_delta(ts[q]).unwrap();
                Ok((rest, a + da, x + dx, o + dor, e))
            },
        }
    } else {
        match ts[q] {
            TokenV::Punct(_) => Err(ParseError::UnexpectedToken(q as usize)),
            _ => match value_node(ts[q]) {
                None => Err(ParseError::UnexpectedToken(q as usize)),
                Some(v) => match cond_terms(ts, q + 1) {
                    Err(e) => Err(e),
                    Ok((rest, a, x, o, e)) => Ok((seq![v] + rest, a, x, o, e)),
                },
            },
        }
    }
}

/// The identifier after the keyword at `p`.
pub open spec fn name_after(ts: Seq<TokenV>, p: int) -> Result<Seq<char>, ParseError> {
    match tok(ts, p + 1) {
        None => Err(ParseError::UnexpectedEnd),
        Some(TokenV::Identifier(n)) => Ok(n),
        Some(_) => Err(ParseError::ExpectedIdentifier((p + 1) as usize)),
    }
}

/// A statement of the form `<keyword> <identifier>`.
pub open spec fn named_stmt(ts: Seq<TokenV>, p: int, which: int) -> Result<
    (Seq<NodeV>, int, bool),
    ParseError,
> {
    match name_after(ts, p) {
        Err(e) => Err(e),
        Ok(n) => Ok(
            (
                seq![
                    if which == 0 {
                        NodeV::Label(n)
                    } else if which == 1 {
                        NodeV::Jump(n)
                    } else if which == 2 {
                        NodeV::Call(n)
                    } else {
                        NodeV::Input(n)
                    },
                ],
                p + 2,
                false,
            ),
        ),
    }
}

/// A statement of the form `<keyword> ;`.
pub open spec fn bare_stmt(ts: Seq<TokenV>, p: int, node: NodeV) -> Result<
    (Seq<NodeV>, int, bool),
    ParseError,
> {
    match tok(ts, p + 1) {
        None => Err(ParseError::UnexpectedEnd),
        Some(t) => if t == punct1(';') {
            Ok((seq![node], p + 1, false))
        } else {
            Err(ParseError::ExpectedSemicolon((p + 1) as usize))
        },
    }
}

pub open spec fn repeat_node(n: NodeV, k: nat) -> Seq<NodeV> {
    Seq::new(k, |i: int| n)
}

pub open spec fn and_name() -> Seq<char> {
    seq!['a', 'n', 'd']
}

pub open spec fn xor_name() -> Seq<char> {
    seq!['x', 'o', 'r']
}

pub open spec fn or_name() -> Seq<char> {
    seq!['o', 'r']
}

/// `jumpif`/`callif`: the target label, then a condition up to `;`. The
/// condition's nodes come first, then one `and` per `&&`, one `xor` per `^^`
/// and one `or` per `||`, then the jump itself.
pub open spec fn cond_stmt(ts: Seq<TokenV>, p: int, is_call: bool) -> Result<
    (Seq<NodeV>, int, bool),
    ParseError,
> {
    match name_after(ts, p) {
        Err(e) => Err(e),
        Ok(n) => match cond_terms(ts, p + 2) {
            Err(e) => Err(e),
            Ok((vals, a, x, o, e)) => Ok(
                (
                    vals + repeat_node(NodeV::Logic(and_name()), a) + repeat_node(
                        NodeV::Logic(xor_name()),
                        x,
                    ) + repeat_node(NodeV::Logic(or_name()), o) + seq![
                        if is_call {
                            NodeV::CallIf(n)
                        } else {
                            NodeV::JumpIf(n)
                        },
                    ],
                    e + 1,
                    false,
                ),
            ),
        },
    }
}

/// `let <name> = <terms> ;`
pub open spec fn let_stmt(ts: Seq<TokenV>, p: int) -> Result<(Seq<NodeV>, int, bool), ParseError> {
    match name_after(ts, p) {
        Err(e) => Err(e),
        Ok(n) => match tok(ts, p + 2) {
            None => Err(ParseError::UnexpectedEnd),
            Some(t) => if t != punct1('=') {
                Err(ParseError::ExpectedAssign((p + 2) as usize))
            } else {
                match let_terms(ts, p + 3) {
                    Err(e) => Err(e),
                    Ok((nodes, e)) => Ok((nodes.push(NodeV::Let(n)), e, false)),
                }
            },
        },
    }
}

/// `print <value>`
pub open spec fn print_stmt(ts: Seq<TokenV>, p: int) -> Result<(Seq<NodeV>, int, bool), ParseError> {
    match tok(ts, p + 1) {
        None => Err(ParseError::UnexpectedEnd),
        Some(t) => match value_node(t) {
            None => Err(ParseError::UnexpectedToken((p + 1) as usize)),
            Some(v) => Ok((seq![NodeV::Print(Box::new(v))], p + 2, false)),
        },
    }
}

pub open spec fn is_skipped_punct(t: TokenV) -> bool {
    t == punct1(';') || t == punct1(',') || t == punct1('(') || t == punct1(')') || t == punct1('[')
        || t == punct1(']') || t == punct1(':')
}

/// The statement that starts at position `p`: its nodes, where the next
/// statement starts, and whether the end-of-stream marker was reached.
pub open spec fn parse_stmt(ts: Seq<TokenV>, p: int) -> Result<(Seq<NodeV>, int, bool), ParseError>
    recommends
        0 <= p < ts.len(),
{
    match ts[p] {
        TokenV::Keyword(k) => {
            if k == seq!['l', 'a', 'b', 'e', 'l'] {
                named_stmt(ts, p, 0)
            } else if k == seq!['r', 'e', 't', 'u', 'r', 'n'] {
                bare_stmt(ts, p, NodeV::Return)
            } else if k == seq!['e', 'x', 'i', 't'] {
                bare_stmt(ts, p, NodeV::Exit)
            } else if k == seq!['j', 'u', 'm', 'p'] {
                named_stmt(ts, p, 1)
            } else if k == seq!['c', 'a', 'l', 'l'] {
                named_stmt(ts, p, 2)
            } else if k == seq!['i', 'n', 'p', 'u', 't'] {
                named_stmt(ts, p, 3)
            } else if k == seq!['p', 'r', 'i', 'n', 't'] {
                print_stmt(ts, p)
            } else if k == seq!['l', 'e', 't'] {
                let_stmt(ts, p)
            } else if k == seq!['j', 'u', 'm', 'p', 'i', 'f'] {
                cond_stmt(ts, p, false)
            } else if k == seq!['c', 'a', 'l', 'l', 'i', 'f'] {
                cond_stmt(ts, p, true)
            } else {
                Err(ParseError::UnexpectedToken(p as usize))
            }
        },
        TokenV::Punct(_) => {
            if ts[p] == punct1('{') {
                Ok((seq![NodeV::Start], p + 1, false))
            } else if ts[p] == punct1('}') {
                match tok(ts, p + 1) {
                    None => Err(ParseError::UnexpectedEnd),
                    Some(t) => if t == punct1('{') {
                        Ok((seq![NodeV::Delim], p + 2, false))
                    } else {
                        Ok((seq![NodeV::End], p + 1, false))
                    },
                }
            } else if is_skipped_punct(ts[p]) {
                Ok((seq![], p + 1, false))
            } else {
                Err(ParseError::ImpossiblePunct(p as usize))
            }
        },
        TokenV::Identifier(s) => {
            if s == eof_name() {
                Ok((seq![], p + 1, true))
            } else {
                Err(ParseError::StrayIdentifier(p as usize))
            }
        },
        _ => Err(ParseError::UnexpectedToken(p as usize)),
    }
}

/// The nodes of the statements from position `p` on.
pub open spec fn parse_from(ts: Seq<TokenV>, p: int) -> Result<Seq<NodeV>, ParseError>
    decreases ts.len() - p,
{
    if p < 0 || p >= ts.len() {
        Ok(seq![])
    } else {
        match parse_stmt(ts, p) {
            Err(e) => Err(e),
            Ok((nodes, next, stop)) => {
                if stop || next <= p || next >= ts.len() {
                    Ok(nodes)
                } else {
                    match parse_from(ts, next) {
                        Err(e) => Err(e),
                        Ok(rest) => Ok(nodes + rest),
                    }
                }
            },
        }
    }
}

/// The node list of a whole token stream: statement after statement until
/// the stream ends or the end-of-stream marker `HYD_EOF` is reached.
pub open spec fn spec_parse(ts: Seq<TokenV>) -> Result<Seq<NodeV>, ParseError> {
    parse_from(ts, 0)
}


pub open spec fn terms_view(r: Result<(Vec<Node>, usize), ParseError>) -> Result<
    (Seq<NodeV>, int),
    ParseError,
> {
    match r {
        Ok((v, e)) => Ok((nodes_view(v@), e as int)),
        Err(e) => Err(e),
    }
}

pub open spec fn stmt_view(r: Result<(Vec<Node>, usize, bool), ParseError>) -> Result<
    (Seq<NodeV>, int, bool),
    ParseError,
> {
    match r {
        Ok((v, n, s)) => Ok((nodes_view(v@), n as int, s)),
        Err(e) => Err(e),
    }
}

pub open spec fn parse_result_view(r: Result<Vec<Node>, ParseError>) -> Result<
    Seq<NodeV>,
    ParseError,
> {
    match r {
        Ok(v) => Ok(nodes_view(v@)),
        Err(e) => Err(e),
    }
}

fn push_node(v: &mut Vec<Node>, n: Node)
    ensures
        nodes_view(final(v)@) == nodes_view(old(v)@).push(n@),
{
    let ghost nv = n@;
    v.push(n);
    assert(nodes_view(final(v)@) =~= nodes_view(old(v)@).push(nv));
}

fn punct1_is(t: &Token, c: char) -> (r: bool)
    ensures
        r == (t@ == punct1(c)),
{
    match t {
        Token::Punct(s) => {
            if s.len() == 1 && s[0] == c {
                assert(s@ =~= seq![c]);
                true
            } else {
                false
            }
        },
        _ => false,
    }
}

fn punct2_is(t: &Token, a: char, b: char) -> (r: bool)
    ensures
        r == (t@ == punct2(a, b)),
{
    match t {
        Token::Punct(s) => {
            if s.len() == 2 && s[0] == a && s[1] == b {
                assert(s@ =~= seq![a, b]);
                true
            } else {
                false
            }
        },
        _ => false,
    }
}

fn value_node_exec(t: &Token) -> (r: Option<Node>)
    ensures
        match value_node(t@) {
            Some(n) => r matches Some(x) && x@ == n,
            None => r is None,
        },
{
    match t {
        Token::Identifier(s) => Some(Node::Load(copy_chars(s))),
        Token::Integer(v) => Some(Node::PushInt(*v)),
        Token::Float(s) => Some(Node::PushFloat(copy_chars(s))),
        Token::Str(s) => Some(Node::PushString(copy_chars(s))),
        Token::Bool(b) => Some(Node::PushBool(*b)),
        _ => None,
    }
}

fn arith_operand_exec(t: &Token) -> (r: Option<Node>)
    ensures
        match arith_operand(t@) {
            Some(n) => r matches Some(x) && x@ == n,
            None => r is None,
        },
{
    match t {
        Token::Identifier(s) => Some(Node::Load(copy_chars(s))),
        Token::Integer(v) => Some(Node::PushInt(*v)),
        Token::Float(s) => Some(Node::PushFloat(copy_chars(s))),
        _ => None,
    }
}

fn arith_node_exec(t: &Token) -> (r: Option<Node>)
    ensures
        match arith_node(t@) {
            Some(n) => r matches Some(x) && x@ == n,
            None => r is None,
        },
{
    if punct1_is(t, '+') {
        Some(Node::Add(2))
    } else if punct1_is(t, '-') {
        Some(Node::Sub(2))
    } else if punct1_is(t, '*') {
        Some(Node::Mul(2))
    } else if punct1_is(t, '/') {
        Some(Node::Div(2))
    } else if punct1_is(t, '%') {
        Some(Node::Mod(2))
    } else {
        None
    }
}

fn compare_code_exec(t: &Token) -> (r: Option<u8>)
    ensures
        r == compare_code(t@),
{
    if punct1_is(t, '>') {
        Some(0xC5)
    } else if punct1_is(t, '<') {
        Some(0xC7)
    } else if punct2_is(t, '>', '=') {
        Some(0xC4)
    } else if punct2_is(t, '<', '=') {
        Some(0xC6)
    } else if punct2_is(t, '=', '=') {
        Some(0xC3)
    } else if punct2_is(t, '!', '=') {
        Some(0xC8)
    } else {
        None
    }
}

fn let_terms_exec(ts: &Vec<Token>, q0: usize) -> (r: Result<(Vec<Node>, usize), ParseError>)
    ensures
        terms_view(r) == let_terms(tokens_view(ts@), q0 as int),
{
    let ghost tv = tokens_view(ts@);
    let mut acc: Vec<Node> = Vec::new();
    let mut q = q0;
    assert(nodes_view(acc@) =~= Seq::<NodeV>::empty());
    loop
        invariant
            tv == tokens_view(ts@),
            q0 <= q,
            match let_terms(tv, q as int) {
                Ok((rest, e)) => let_terms(tv, q0 as int) == Ok::<(Seq<NodeV>, int), ParseError>(
                    (nodes_view(acc@) + rest, e),
                ),
                Err(err) => let_terms(tv, q0 as int) == Err::<(Seq<NodeV>, int), ParseError>(err),
            },
        decreases ts@.len() - q,
    {
        if q >= ts.len() {
            return Err(ParseError::UnexpectedEnd);
        }
        let t = &ts[q];
        assert(tv[q as int] == t@);
        if punct1_is(t, ';') {
            assert(nodes_view(acc@) + Seq::<NodeV>::empty() =~= nodes_view(acc@));
            return Ok((acc, q));
        }
        match arith_node_exec(t) {
            Some(op) => {
                if q + 1 >= ts.len() {
                    return Err(ParseError::UnexpectedEnd);
                }
                assert(tv[q + 1] == ts@[q + 1]@);
                match arith_operand_exec(&ts[q + 1]) {
                    None => {
                        return Err(ParseError::UnexpectedToken(q + 1));
                    },
                    Some(v) => {
                        let ghost before = nodes_view(acc@);
                        let ghost pair = seq![v@, op@];
                        push_node(&mut acc, v);
                        push_node(&mut acc, op);
                        assert(nodes_view(acc@) =~= before + pair);
                        proof {
                            match let_terms(tv, q + 2) {
                                Ok((rest, e)) => {
                                    assert(before + (pair + rest) =~= nodes_view(acc@) + rest);
                                },
                                Err(_) => {},
                            }
                        }
                        q = q + 2;
                    },
                }
            },
            None => {
                match t {
                    Token::Punct(_) => {
                        return Err(ParseError::UnexpectedToken(q));
                    },
                    _ => {},
                }
                match value_node_exec(t) {
                    None => {
                        return Err(ParseError::UnexpectedToken(q));
                    },
                    Some(v) => {
                        let ghost before = nodes_view(acc@);
                        let ghost one = seq![v@];
                        push_node(&mut acc, v);
                        assert(nodes_view(acc@) =~= before + one);
                        proof {
                            match let_terms(tv, q + 1) {
                                Ok((rest, e)) => {
                                    assert(before + (one + rest) =~= nodes_view(acc@) + rest);
                                },
                                Err(_) => {},
                            }
                        }
                        q = q + 1;
                    },
                }
            },
        }
    }
}


pub open spec fn cond_view(r: Result<(Vec<Node>, usize, usize, usize, usize), ParseError>) -> Result<
    (Seq<NodeV>, nat, nat, nat, int),
    ParseError,
> {
    match r {
        Ok((v, a, x, o, e)) => Ok((nodes_view(v@), a as nat, x as nat, o as nat, e as int)),
        Err(e) => Err(e),
    }
}

fn cond_terms_exec(ts: &Vec<Token>, q0: usize) -> (r: Result<
    (Vec<Node>, usize, usize, usize, usize),
    ParseError,
>)
    ensures
        cond_view(r) == cond_terms(tokens_view(ts@), q0 as int),
        r matches Ok((_, _, _, _, e)) ==> e < ts@.len(),
{
    let ghost tv = tokens_view(ts@);
    let mut acc: Vec<Node> = Vec::new();
    let mut ands: usize = 0;
    let mut xors: usize = 0;
    let mut ors: usize = 0;
    let mut q = q0;
    assert(nodes_view(acc@) =~= Seq::<NodeV>::empty());
    loop
        invariant
            tv == tokens_view(ts@),
            q0 <= q,
            ands + xors + ors <= q - q0,
            match cond_terms(tv, q as int) {
                Ok((rest, a, x, o, e)) => cond_terms(tv, q0 as int) == Ok::<
                    (Seq<NodeV>, nat, nat, nat, int),
                    ParseError,
                >((nodes_view(acc@) + rest, (ands + a) as nat, (xors + x) as nat, (ors + o) as nat, e)),
                Err(err) => cond_terms(tv, q0 as int) == Err::<
                    (Seq<NodeV>, nat, nat, nat, int),
                    ParseError,
                >(err),
            },
        decreases ts@.len() - q,
    {
        if q >= ts.len() {
            return Err(ParseError::UnexpectedEnd);
        }
        let t = &ts[q];
        assert(tv[q as int] == t@);
        if punct1_is(t, ';') {
            assert(nodes_view(acc@) + Seq::<NodeV>::empty() =~= nodes_view(acc@));
            return Ok((acc, ands, xors, ors, q));
        }
        match compare_code_exec(t) {
            Some(code) => {
                if q + 1 >= ts.len() {
                    return Err(ParseError::UnexpectedEnd);
                }
                assert(tv[q + 1] == ts@[q + 1]@);
                match value_node_exec(&ts[q + 1]) {
                    None => {
                        return Err(ParseError::UnexpectedToken(q + 1));
                    },
                    Some(v) => {
                        let ghost before = nodes_view(acc@);
                        let comparison = Node::Compare(code);
                        let ghost pair = seq![v@, comparison@];
                        push_node(&mut acc, v);
                        push_node(&mut acc, comparison);
                        assert(nodes_view(acc@) =~= before + pair);
                        proof {
                            match cond_terms(tv, q + 2) {
                                Ok((rest, a, x, o, e)) => {
                                    assert(before + (pair + rest) =~= nodes_view(acc@) + rest);
                                },
                                Err(_) => {},
                            }
                        }
                        q = q + 2;
                    },
                }
            },
            None => {
                if punct2_is(t, '&', '&') {
                    ands = ands + 1;
                    q = q + 1;
                } else if punct2_is(t, '^', '^') {
                    xors = xors + 1;
                    q = q + 1;
                } else if punct2_is(t, '|', '|') {
                    ors = ors + 1;
                    q = q + 1;
                } else {
                    match t {
                        Token::Punct(_) => {
                            return Err(ParseError::UnexpectedToken(q));
                        },
                        _ => {},
                    }
                    match value_node_exec(t) {
                        None => {
                            return Err(ParseError::UnexpectedToken(q));
                        },
                        Some(v) => {
                            let ghost before = nodes_view(acc@);
                            let ghost one = seq![v@];
                            push_node(&mut acc, v);
                            assert(nodes_view(acc@) =~= before + one);
                            proof {
                                match cond_terms(tv, q + 1) {
                                    Ok((rest, a, x, o, e)) => {
                                        assert(before + (one + rest) =~= nodes_view(acc@) + rest);
                                    },
                                    Err(_) => {},
                                }
                            }
                            q = q + 1;
                        },
                    }
                }
            },
        }
    }
}

fn name_after_exec(ts: &Vec<Token>, p: usize) -> (r: Result<Vec<char>, ParseError>)
    requires
        p < ts.len(),
    ensures
        r is Ok ==> p + 1 < ts@.len(),
        match name_after(tokens_view(ts@), p as int) {
            Ok(n) => r matches Ok(v) && v@ == n,
            Err(e) => r == Err::<Vec<char>, ParseError>(e),
        },
{
    if p + 1 >= ts.len() {
        return Err(ParseError::UnexpectedEnd);
    }
    assert(tokens_view(ts@)[p + 1] == ts@[p + 1]@);
    match &ts[p + 1] {
        Token::Identifier(n) => Ok(copy_chars(n)),
        _ => Err(ParseError::ExpectedIdentifier(p + 1)),
    }
}

fn single_node(n: Node) -> (r: Vec<Node>)
    ensures
        nodes_view(r@) == seq![n@],
{
    let mut v: Vec<Node> = Vec::new();
    push_node(&mut v, n);
    assert(nodes_view(v@) =~= seq![n@]);
    v
}

fn repeat_logic(acc: &mut Vec<Node>, name: &[char], k: usize)
    ensures
        nodes_view(final(acc)@) == nodes_view(old(acc)@) + repeat_node(NodeV::Logic(name@), k as nat),
{
    let mut i: usize = 0;
    while i < k
        invariant
            0 <= i <= k,
            nodes_view(acc@) == nodes_view(old(acc)@) + repeat_node(NodeV::Logic(name@), i as nat),
        decreases k - i,
    {
        let n = Node::Logic(vstd::slice::slice_to_vec(name));
        assert(n@ == NodeV::Logic(name@));
        push_node(acc, n);
        assert(nodes_view(acc@) =~= nodes_view(old(acc)@) + repeat_node(
            NodeV::Logic(name@),
            (i + 1) as nat,
        ));
        i = i + 1;
    }
}

fn parse_stmt_exec(ts: &Vec<Token>, p: usize) -> (r: Result<(Vec<Node>, usize, bool), ParseError>)
    requires
        p < ts.len(),
    ensures
        stmt_view(r) == parse_stmt(tokens_view(ts@), p as int),
{
    let ghost tv = tokens_view(ts@);
    assert(tv[p as int] == ts@[p as int]@);
    match &ts[p] {
        Token::Keyword(k) => {
            let k = k.as_slice();
            if chars_eq(k, &['l', 'a', 'b', 'e', 'l']) || chars_eq(k, &['j', 'u', 'm', 'p'])
                || chars_eq(k, &['c', 'a', 'l', 'l']) || chars_eq(k, &['i', 'n', 'p', 'u', 't']) {
                let n = name_after_exec(ts, p)?;
                let node = if chars_eq(k, &['l', 'a', 'b', 'e', 'l']) {
                    Node::Label(n)
                } else if chars_eq(k, &['j', 'u', 'm', 'p']) {
                    Node::Jump(n)
                } else if chars_eq(k, &['c', 'a', 'l', 'l']) {
                    Node::Call(n)
                } else {
                    Node::Input(n)
                };
                Ok((single_node(node), p + 2, false))
            } else if chars_eq(k, &['r', 'e', 't', 'u', 'r', 'n']) || chars_eq(
                k,
                &['e', 'x', 'i', 't'],
            ) {
                if p + 1 >= ts.len() {
                    return Err(ParseError::UnexpectedEnd);
                }
                assert(tv[p + 1] == ts@[p + 1]@);
                if !punct1_is(&ts[p + 1], ';') {
                    return Err(ParseError::ExpectedSemicolon(p + 1));
                }
                let node = if chars_eq(k, &['r', 'e', 't', 'u', 'r', 'n']) {
                    Node::Return
                } else {
                    Node::Exit
                };
                Ok((single_node(node), p + 1, false))
            } else if chars_eq(k, &['p', 'r', 'i', 'n', 't']) {
                if p + 1 >= ts.len() {
                    return Err(ParseError::UnexpectedEnd);
                }
                assert(tv[p + 1] == ts@[p + 1]@);
                match value_node_exec(&ts[p + 1]) {
                    None => Err(ParseError::UnexpectedToken(p + 1)),
                    Some(v) => Ok((single_node(Node::Print(Box::new(v))), p + 2, false)),
                }
            } else if chars_eq(k, &['l', 'e', 't']) {
                let n = name_after_exec(ts, p)?;
                if p + 2 >= ts.len() {
                    return Err(ParseError::UnexpectedEnd);
                }
                assert(tv[p + 2] == ts@[p + 2]@);
                if !punct1_is(&ts[p + 2], '=') {
                    return Err(ParseError::ExpectedAssign(p + 2));
                }
                let (mut nodes, e) = let_terms_exec(ts, p + 3)?;
                push_node(&mut nodes, Node::Let(n));
                Ok((nodes, e, false))
            } else if chars_eq(k, &['j', 'u', 'm', 'p', 'i', 'f']) || chars_eq(
                k,
                &['c', 'a', 'l', 'l', 'i', 'f'],
            ) {
                let is_call = chars_eq(k, &['c', 'a', 'l', 'l', 'i', 'f']);
                let n = name_after_exec(ts, p)?;
                let ghost nv = n@;
                let (mut nodes, a, x, o, e) = cond_terms_exec(ts, p + 2)?;
                let ghost vals = nodes_view(nodes@);
                let and_lit = ['a', 'n', 'd'];
                let xor_lit = ['x', 'o', 'r'];
                let or_lit = ['o', 'r'];
                assert(and_lit@ =~= and_name());
                assert(xor_lit@ =~= xor_name());
                assert(or_lit@ =~= or_name());
                repeat_logic(&mut nodes, &and_lit, a);
                repeat_logic(&mut nodes, &xor_lit, x);
                repeat_logic(&mut nodes, &or_lit, o);
                let ghost mid = nodes_view(nodes@);
                assert(mid == vals + repeat_node(NodeV::Logic(and_name()), a as nat) + repeat_node(
                    NodeV::Logic(xor_name()),
                    x as nat,
                ) + repeat_node(NodeV::Logic(or_name()), o as nat));
                let jump = if is_call {
                    Node::CallIf(n)
                } else {
                    Node::JumpIf(n)
                };
                let ghost jv = jump@;
                push_node(&mut nodes, jump);
                assert(nodes_view(nodes@) =~= mid + seq![jv]);
                Ok((nodes, e + 1, false))
            } else {
                Err(ParseError::UnexpectedToken(p))
            }
        },
        Token::Punct(_) => {
            if punct1_is(&ts[p], '{') {
                Ok((single_node(Node::Start), p + 1, false))
            } else if punct1_is(&ts[p], '}') {
                if p + 1 >= ts.len() {
                    return Err(ParseError::UnexpectedEnd);
                }
                assert(tv[p + 1] == ts@[p + 1]@);
                if punct1_is(&ts[p + 1], '{') {
                    Ok((single_node(Node::Delim), p + 2, false))
                } else {
                    Ok((single_node(Node::End), p + 1, false))
                }
            } else if punct1_is(&ts[p], ';') || punct1_is(&ts[p], ',') || punct1_is(&ts[p], '(')
                || punct1_is(&ts[p], ')') || punct1_is(&ts[p], '[') || punct1_is(&ts[p], ']')
                || punct1_is(&ts[p], ':') {
                let v: Vec<Node> = Vec::new();
                assert(nodes_view(v@) =~= Seq::<NodeV>::empty());
                Ok((v, p + 1, false))
            } else {
                Err(ParseError::ImpossiblePunct(p))
            }
        },
        Token::Identifier(s) => {
            if chars_eq(s.as_slice(), &['H', 'Y', 'D', '_', 'E', 'O', 'F']) {
                let v: Vec<Node> = Vec::new();
                assert(nodes_view(v@) =~= Seq::<NodeV>::empty());
                Ok((v, p + 1, true))
            } else {
                Err(ParseError::StrayIdentifier(p))
            }
        },
        _ => Err(ParseError::UnexpectedToken(p)),
    }
}

/// Parses a token stream into the flat node list, or says where it is
/// malformed.
pub fn parse(tokens: &Vec<Token>) -> (r: Result<Vec<Node>, ParseError>)
    ensures
        parse_result_view(r) == spec_parse(tokens_view(tokens@)),
{
    let ghost tv = tokens_view(tokens@);
    let mut ast: Vec<Node> = Vec::new();
    let mut p: usize = 0;
    assert(nodes_view(ast@) =~= Seq::<NodeV>::empty());
    while p < tokens.len()
        invariant
            tv == tokens_view(tokens@),
            match parse_from(tv, p as int) {
                Ok(rest) => parse_from(tv, 0) == Ok::<Seq<NodeV>, ParseError>(
                    nodes_view(ast@) + rest,
                ),
                Err(err) => parse_from(tv, 0) == Err::<Seq<NodeV>, ParseError>(err),
            },
        decreases tokens@.len() - p,
    {
        let (nodes, next, stop) = parse_stmt_exec(tokens, p)?;
        let ghost before = nodes_view(ast@);
        let ghost added = nodes_view(nodes@);
        let mut nodes = nodes;
        ast.append(&mut nodes);
        assert(nodes_view(ast@) =~= before + added);
        if stop || next <= p || next >= tokens.len() {
            return Ok(ast);
        }
        proof {
            match parse_from(tv, next as int) {
                Ok(rest) => {
                    assert(before + (added + rest) =~= nodes_view(ast@) + rest);
                },
                Err(_) => {},
            }
        }
        p = next;
    }
    assert(nodes_view(ast@) + Seq::<NodeV>::empty() =~= nodes_view(ast@));
    Ok(ast)
}

/// The right-hand side of `let` reads only up to its closing `;`, which
/// lies inside the tokens: tokens after them change nothing.
proof fn lemma_let_terms_extend(ts: Seq<TokenV>, u: Seq<TokenV>, q: int)
    requires
        let_terms(ts, q) is Ok,
    ensures
        let_terms(ts + u, q) == let_terms(ts, q),
        let_terms(ts, q) matches Ok((_, e)) ==> q <= e < ts.len() && ts[e] == punct1(';'),
    decreases ts.len() - q,
{
    let v = ts + u;
    assert(v[q] == ts[q]);
    if ts[q] == punct1(';') {
    } else if arith_node(ts[q]) is Some {
        assert(v[q + 1] == ts[q + 1]);
        lemma_let_terms_extend(ts, u, q + 2);
    } else {
        match ts[q] {
            TokenV::Punct(_) => {},
            _ => {
                lemma_let_terms_extend(ts, u, q + 1);
            },
        }
    }
}

/// A condition reads only up to its closing `;`, which lies inside the
/// tokens: tokens after them change nothing.
proof fn lemma_cond_terms_extend(ts: Seq<TokenV>, u: Seq<TokenV>, q: int)
    requires
        cond_terms(ts, q) is Ok,
    ensures
        cond_terms(ts + u, q) == cond_terms(ts, q),
        cond_terms(ts, q) matches Ok((_, _, _, _, e)) ==> q <= e < ts.len() && ts[e] == punct1(';'),
    decreases ts.len() - q,
{
    let v = ts + u;
    assert(v[q] == ts[q]);
    if ts[q] == punct1(';') {
    } else if compare_code(ts[q]) is Some {
        assert(v[q + 1] == ts[q + 1]);
        lemma_cond_terms_extend(ts, u, q + 2);
    } else if logic_delta(ts[q]) is Some {
        lemma_cond_terms_extend(ts, u, q + 1);
    } else {
        match ts[q] {
            TokenV::Punct(_) => {},
            _ => {
                lemma_cond_terms_extend(ts, u, q + 1);
            },
        }
    }
}

/// Tokens that end with the end marker, with a `;` or a `}` before it.
pub open spec fn ends_at_marker(ts: Seq<TokenV>) -> bool {
    &&& ts.len() >= 2
    &&& ts.last() == TokenV::Identifier(eof_name())
    &&& (ts[ts.len() - 2] == punct1(';') || ts[ts.len() - 2] == punct1('}'))
}

/// A statement that parses reads only tokens it has: tokens after them
/// change nothing. Where the tokens end at the marker, the statement either
/// is the marker or is followed by another statement.
proof fn lemma_stmt_extend(ts: Seq<TokenV>, u: Seq<TokenV>, p: int)
    requires
        0 <= p < ts.len(),
        parse_stmt(ts, p) is Ok,
    ensures
        parse_stmt(ts + u, p) == parse_stmt(ts, p),
        ends_at_marker(ts) ==> (parse_stmt(ts, p) matches Ok((_, next, stop)) ==> (stop || p < next
            < ts.len())),
{
    let v = ts + u;
    assert(v[p] == ts[p]);
    assert(tok(ts, p + 1) is Some ==> tok(v, p + 1) == tok(ts, p + 1)) by {
        if p + 1 < ts.len() {
            assert(v[p + 1] == ts[p + 1]);
        }
    }
    assert(tok(ts, p + 2) is Some ==> tok(v, p + 2) == tok(ts, p + 2)) by {
        if p + 2 < ts.len() {
            assert(v[p + 2] == ts[p + 2]);
        }
    }
    match ts[p] {
        TokenV::Keyword(k) => {
            if k == seq!['l', 'e', 't'] {
                lemma_let_terms_extend(ts, u, p + 3);
            } else if k == seq!['j', 'u', 'm', 'p', 'i', 'f'] {
                assert(k.len() == 6 && k[0] == 'j');
                assert(seq!['r', 'e', 't', 'u', 'r', 'n'][0] == 'r');
                assert(k != seq!['r', 'e', 't', 'u', 'r', 'n']);
                assert(parse_stmt(ts, p) == cond_stmt(ts, p, false));
                assert(name_after(ts, p) is Ok);
                lemma_cond_terms_extend(ts, u, p + 2);
            } else if k == seq!['c', 'a', 'l', 'l', 'i', 'f'] {
                assert(k.len() == 6 && k[0] == 'c');
                assert(seq!['r', 'e', 't', 'u', 'r', 'n'][0] == 'r');
                assert(seq!['j', 'u', 'm', 'p', 'i', 'f'][0] == 'j');
                assert(k != seq!['r', 'e', 't', 'u', 'r', 'n']);
                assert(k != seq!['j', 'u', 'm', 'p', 'i', 'f']);
                assert(parse_stmt(ts, p) == cond_stmt(ts, p, true));
                assert(name_after(ts, p) is Ok);
                lemma_cond_terms_extend(ts, u, p + 2);
            }
        },
        _ => {},
    }
}

/// Parsing from a statement start in tokens that end at the marker reads
/// nothing after the marker.
proof fn lemma_parse_from_extend(ts: Seq<TokenV>, u: Seq<TokenV>, p: int)
    requires
        0 <= p < ts.len(),
        ends_at_marker(ts),
        parse_from(ts, p) is Ok,
    ensures
        parse_from(ts + u, p) == parse_from(ts, p),
    decreases ts.len() - p,
{
    lemma_stmt_extend(ts, u, p);
    if let Ok((nodes, next, stop)) = parse_stmt(ts, p) {
        if !stop {
            lemma_parse_from_extend(ts, u, next);
        }
    }
}

/// Parsing stops at the end marker: where the tokens before `HYD_EOF` end
/// with `;` or `}` and parse, whatever follows the marker is never read.
pub proof fn lemma_parse_stops_at_marker(t: Seq<TokenV>, u: Seq<TokenV>)
    requires
        t.len() > 0,
        t.last() == punct1(';') || t.last() == punct1('}'),
        spec_parse(t.push(TokenV::Identifier(eof_name()))) is Ok,
    ensures
        spec_parse(t.push(TokenV::Identifier(eof_name())) + u) == spec_parse(
            t.push(TokenV::Identifier(eof_name())),
        ),
{
    let ts = t.push(TokenV::Identifier(eof_name()));
    assert(ts[ts.len() - 2] == t.last());
    lemma_parse_from_extend(ts, u, 0);
}

} // verus!
