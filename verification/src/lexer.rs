//! The ARC lexer: a character-by-character state machine that turns source
//! text into tokens.
use vstd::prelude::*;

use crate::number::{is_ascii_digit, parse_i64, spec_parse_i64};
use crate::text::{
    chars_eq, copy_chars, is_alphanumeric, is_numeric, is_whitespace, spec_is_whitespace,
    unicode_alphanumeric, unicode_numeric,
};

verus! {

/// A lexical token. A float literal is kept as the text it was written with
/// (ASCII digits and one `.`); its numeric value is not computed here.
#[derive(Debug, PartialEq)]
pub enum Token {
    Punct(Vec<char>),
    Keyword(Vec<char>),
    Identifier(Vec<char>),
    Integer(i64),
    Float(Vec<char>),
    Str(Vec<char>),
    Bool(bool),
}

/// The mathematical value of a [`Token`].
pub enum TokenV {
    Punct(Seq<char>),
    Keyword(Seq<char>),
    Identifier(Seq<char>),
    Integer(i64),
    Float(Seq<char>),
    Str(Seq<char>),
    Bool(bool),
}

impl View for Token {
    type V = TokenV;

    open spec fn view(&self) -> TokenV {
        match self {
            Token::Punct(s) => TokenV::Punct(s@),
            Token::Keyword(s) => TokenV::Keyword(s@),
            Token::Identifier(s) => TokenV::Identifier(s@),
            Token::Integer(v) => TokenV::Integer(*v),
            Token::Float(s) => TokenV::Float(s@),
            Token::Str(s) => TokenV::Str(s@),
            Token::Bool(b) => TokenV::Bool(*b),
        }
    }
}

impl Token {
    /// A copy of the token.
    pub fn duplicate(&self) -> (r: Token)
        ensures
            r@ == self@,
    {
        match self {
            Token::Punct(s) => Token::Punct(copy_chars(s)),
            Token::Keyword(s) => Token::Keyword(copy_chars(s)),
            Token::Identifier(s) => Token::Identifier(copy_chars(s)),
            Token::Integer(v) => Token::Integer(*v),
            Token::Float(s) => Token::Float(copy_chars(s)),
            Token::Str(s) => Token::Str(copy_chars(s)),
            Token::Bool(b) => Token::Bool(*b),
        }
    }
}

pub open spec fn tokens_view(v: Seq<Token>) -> Seq<TokenV> {
    v.map_values(|t: Token| t@)
}

/// The state of the lexer between two characters.
#[derive(Debug, Clone, Copy, PartialEq, Eq, Structural)]
pub enum LexState {
    /// Between tokens.
    Idle,
    /// Outside the blocks, after a `}` or where a backslash comment starts:
    /// skipping up to the next `{` or to a character that ends a comment.
    Inactive,
    /// Inside a `#` comment, up to the next `#`.
    Comment,
    /// Gathering an operator.
    Punct,
    /// Gathering a word.
    Word,
    /// Inside a string literal.
    Str,
    /// Gathering a number.
    Number,
}

/// Why the lexer rejects a source text.
#[derive(Debug, Clone, Copy, PartialEq, Eq, Structural)]
pub enum LexError {
    /// A character that cannot start a token.
    UnexpectedChar(char),
    /// A number without `.` that is not a valid `i64`.
    BadInteger,
    /// A number with `.` that is not a valid float literal.
    BadFloat,
}

/// How the lexer knows comments (text it skips). In both, the text after a
/// `}` is skipped up to the next `{` (which is a token) or up to a character
/// that ends a comment.
#[derive(Debug, Clone, Copy, PartialEq, Eq, Structural)]
pub enum Comments {
    /// `#` between tokens starts a comment that runs to the next `#`.
    Hash,
    /// The first character of the source decides: where it is `x`, a
    /// backslash starts a comment (and is a token); where it is a backslash,
    /// `x` ends one. Elsewhere a backslash between tokens is skipped.
    Backslash(char),
}

/// Whether the punctuation `ch` that ends an operator, a word or a number
/// starts a comment.
pub open spec fn starts_comment(rules: Comments, ch: char) -> bool {
    ch == '}' || (rules matches Comments::Backslash(f) && ch == '\\' && f == 'x')
}

/// Whether `ch` ends a comment (without becoming a token).
pub open spec fn ends_comment(rules: Comments, ch: char) -> bool {
    match rules {
        Comments::Hash => ch == '#',
        Comments::Backslash(f) => ch == 'x' && f == '\\',
    }
}

/// The characters that start or continue an operator.
pub open spec fn is_op_char(c: char) -> bool {
    c == '+' || c == '-' || c == '*' || c == '/' || c == '%' || c == '=' || c == '!' || c == '<'
        || c == '>' || c == '&' || c == '|' || c == '^'
}

/// The one-character punctuation recognised between tokens.
pub open spec fn is_idle_delim(c: char) -> bool {
    c == ';' || c == ',' || c == '(' || c == ')' || c == '{' || c == '[' || c == ']' || c == ':'
}

/// The one-character punctuation that ends an operator, a word or a number.
pub open spec fn is_delim(c: char) -> bool {
    c == ';' || c == ',' || c == '(' || c == ')' || c == '{' || c == '}' || c == '[' || c == ']'
        || c == ':' || c == '\\'
}

pub open spec fn keyword_list() -> Seq<Seq<char>> {
    seq![
        seq!['l', 'a', 'b', 'e', 'l'],
        seq!['e', 'x', 'i', 't'],
        seq!['j', 'u', 'm', 'p'],
        seq!['r', 'e', 't', 'u', 'r', 'n'],
        seq!['c', 'a', 'l', 'l'],
        seq!['j', 'u', 'm', 'p', 'i', 'f'],
        seq!['c', 'a', 'l', 'l', 'i', 'f'],
        seq!['l', 'e', 't'],
        seq!['p', 'r', 'i', 'n', 't'],
        seq!['i', 'n', 'p', 'u', 't'],
    ]
}

pub open spec fn goto_word() -> Seq<char> {
    seq!['g', 'o', 't', 'o']
}

/// The reserved words: with backslash comments `goto` is one too.
pub open spec fn is_keyword(rules: Comments, s: Seq<char>) -> bool {
    keyword_list().contains(s) || (rules is Backslash && s == goto_word())
}

/// The token that a finished word becomes.
pub open spec fn word_token(rules: Comments, cur: Seq<char>) -> TokenV {
    if is_keyword(rules, cur) {
        TokenV::Keyword(cur)
    } else if cur == seq!['t', 'r', 'u', 'e'] {
        TokenV::Bool(true)
    } else if cur == seq!['f', 'a', 'l', 's', 'e'] {
        TokenV::Bool(false)
    } else {
        TokenV::Identifier(cur)
    }
}

/// The number of `.` characters in `s`.
pub open spec fn dots(s: Seq<char>) -> nat
    decreases s.len(),
{
    if s.len() == 0 {
        0
    } else {
        dots(s.drop_last()) + if s.last() == '.' {
            1nat
        } else {
            0nat
        }
    }
}

/// A float literal: an optional leading `-`, then ASCII digits and exactly
/// one `.`. For a number that starts with a digit, or with `-` and a digit,
/// these are the texts that `str::parse::<f64>` accepts.
pub open spec fn is_float_lexeme(s: Seq<char>) -> bool {
    &&& dots(s) == 1
    &&& forall|i: int|
        0 <= i < s.len() ==> (s[i] == '.' || is_ascii_digit(#[trigger] s[i]) || (i == 0 && s[i]
            == '-'))
}

/// Whether the next token is an operand: at the start, or after a
/// punctuation token or a keyword. There a `-` followed by a digit starts a
/// negative number.
pub open spec fn operand_expected(toks: Seq<TokenV>) -> bool {
    toks.len() == 0 || toks.last() is Punct || toks.last() is Keyword
}

/// The token that a finished number becomes.
pub open spec fn number_token(cur: Seq<char>) -> Result<TokenV, LexError> {
    if dots(cur) > 0 {
        if is_float_lexeme(cur) {
            Ok(TokenV::Float(cur))
        } else {
            Err(LexError::BadFloat)
        }
    } else {
        match spec_parse_i64(cur) {
            Some(v) => Ok(TokenV::Integer(v)),
            None => Err(LexError::BadInteger),
        }
    }
}

/// One step of the lexer: the state, the text being gathered and the tokens
/// so far, after reading `ch`.
pub open spec fn lex_step(rules: Comments, st: LexState, cur: Seq<char>, toks: Seq<TokenV>, ch: char) -> Result<
    (LexState, Seq<char>, Seq<TokenV>),
    LexError,
> {
    let one = TokenV::Punct(seq![ch]);
    match st {
        LexState::Idle => {
            if ch == '}' {
                Ok((LexState::Inactive, cur, toks.push(one)))
            } else if rules is Hash && ch == '#' {
                Ok((LexState::Comment, cur, toks))
            } else if rules is Backslash && ch == '\\' {
                if starts_comment(rules, ch) {
                    Ok((LexState::Inactive, cur, toks.push(one)))
                } else {
                    Ok((LexState::Idle, cur, toks))
                }
            } else if is_op_char(ch) {
                Ok((LexState::Punct, cur.push(ch), toks))
            } else if is_idle_delim(ch) {
                Ok((LexState::Idle, cur, toks.push(one)))
            } else if ch == '"' {
                Ok((LexState::Str, cur, toks))
            } else if unicode_numeric(ch) {
                Ok((LexState::Number, cur.push(ch), toks))
            } else if unicode_alphanumeric(ch) {
                Ok((LexState::Word, cur.push(ch), toks))
            } else if spec_is_whitespace(ch) {
                Ok((LexState::Idle, cur, toks))
            } else {
                Err(LexError::UnexpectedChar(ch))
            }
        },
        LexState::Punct => {
            let done = toks.push(TokenV::Punct(cur));
            if cur == seq!['-'] && unicode_numeric(ch) && operand_expected(toks) {
                Ok((LexState::Number, cur.push(ch), toks))
            } else if spec_is_whitespace(ch) {
                Ok((LexState::Idle, seq![], done))
            } else if ch == '"' {
                Ok((LexState::Str, seq![], done))
            } else if unicode_numeric(ch) {
                Ok((LexState::Number, seq![ch], done))
            } else if unicode_alphanumeric(ch) {
                Ok((LexState::Word, seq![ch], done))
            } else if is_delim(ch) {
                Ok(
                    (
                        if starts_comment(rules, ch) {
                            LexState::Inactive
                        } else {
                            LexState::Punct
                        },
                        seq![],
                        done.push(one),
                    ),
                )
            } else {
                Ok((LexState::Punct, cur.push(ch), toks))
            }
        },
        LexState::Word => {
            let done = toks.push(word_token(rules, cur));
            if spec_is_whitespace(ch) {
                Ok((LexState::Idle, seq![], done))
            } else if is_op_char(ch) {
                Ok((LexState::Punct, seq![ch], done))
            } else if ch == '"' {
                Ok((LexState::Str, seq![], done))
            } else if is_delim(ch) {
                Ok(
                    (
                        if starts_comment(rules, ch) {
                            LexState::Inactive
                        } else {
                            LexState::Word
                        },
                        seq![],
                        done.push(one),
                    ),
                )
            } else {
                Ok((LexState::Word, cur.push(ch), toks))
            }
        },
        LexState::Inactive => {
            if ch == '{' {
                Ok((LexState::Idle, cur, toks.push(one)))
            } else if ends_comment(rules, ch) {
                Ok((LexState::Idle, cur, toks))
            } else {
                Ok((LexState::Inactive, cur, toks))
            }
        },
        LexState::Comment => {
            if ch == '#' {
                Ok((LexState::Idle, cur, toks))
            } else {
                Ok((LexState::Comment, cur, toks))
            }
        },
        LexState::Str => {
            if ch == '"' {
                Ok((LexState::Idle, seq![], toks.push(TokenV::Str(cur))))
            } else {
                Ok((LexState::Str, cur.push(ch), toks))
            }
        },
        LexState::Number => {
            if !unicode_numeric(ch) && ch != '.' {
                match number_token(cur) {
                    Err(e) => Err(e),
                    Ok(t) => {
                        let done = toks.push(t);
                        if is_op_char(ch) {
                            Ok((LexState::Punct, seq![ch], done))
                        } else if spec_is_whitespace(ch) {
                            Ok((LexState::Idle, seq![], done))
                        } else if is_delim(ch) {
                            Ok(
                                (
                                    if starts_comment(rules, ch) {
                                        LexState::Inactive
                                    } else {
                                        LexState::Idle
                                    },
                                    seq![],
                                    done.push(one),
                                ),
                            )
                        } else if ch == '"' {
                            Ok((LexState::Str, seq![], done))
                        } else {
                            Ok((LexState::Word, seq![ch], done))
                        }
                    },
                }
            } else {
                Ok((LexState::Number, cur.push(ch), toks))
            }
        },
    }
}

/// The lexer after reading the first `n` characters of `s`.
pub open spec fn lex_run(rules: Comments, s: Seq<char>, n: nat) -> Result<
    (LexState, Seq<char>, Seq<TokenV>),
    LexError,
>
    decreases n,
{
    if n == 0 {
        Ok((LexState::Idle, seq![], seq![]))
    } else {
        match lex_run(rules, s, (n - 1) as nat) {
            Err(e) => Err(e),
            Ok((st, cur, toks)) => lex_step(rules, st, cur, toks, s[n - 1]),
        }
    }
}

/// `t` without its empty identifiers.
pub open spec fn drop_empty_identifiers(t: Seq<TokenV>) -> Seq<TokenV>
    decreases t.len(),
{
    if t.len() == 0 {
        seq![]
    } else {
        let rest = drop_empty_identifiers(t.drop_last());
        match t.last() {
            TokenV::Identifier(s) => if s.len() == 0 {
                rest
            } else {
                rest.push(t.last())
            },
            _ => rest.push(t.last()),
        }
    }
}

pub open spec fn eof_name() -> Seq<char> {
    seq!['H', 'Y', 'D', '_', 'E', 'O', 'F']
}

/// The token stream of a source text: what the state machine produced once
/// every character is read (what is still being gathered at the end is
/// dropped), without empty identifiers, closed by the identifier `HYD_EOF`.
pub open spec fn spec_lex(s: Seq<char>) -> Result<Seq<TokenV>, LexError> {
    match lex_run(Comments::Hash, s, s.len()) {
        Err(e) => Err(e),
        Ok((_, _, toks)) => Ok(
            drop_empty_identifiers(toks).push(TokenV::Identifier(eof_name())),
        ),
    }
}

/// The rules of the backslash-comment lexer for a source text.
pub open spec fn backslash_rules(s: Seq<char>) -> Comments {
    Comments::Backslash(if s.len() > 0 {
        s[0]
    } else {
        ' '
    })
}

/// The token stream of a source text with backslash comments (see
/// [`Comments::Backslash`]): what the state machine produced once every
/// character is read, without empty identifiers; no end marker is added.
pub open spec fn spec_lex_backslash(s: Seq<char>) -> Result<Seq<TokenV>, LexError> {
    match lex_run(backslash_rules(s), s, s.len()) {
        Err(e) => Err(e),
        Ok((_, _, toks)) => Ok(drop_empty_identifiers(toks)),
    }
}

pub open spec fn lex_result_view(r: Result<Vec<Token>, LexError>) -> Result<Seq<TokenV>, LexError> {
    match r {
        Ok(v) => Ok(tokens_view(v@)),
        Err(e) => Err(e),
    }
}

fn push_token(toks: &mut Vec<Token>, t: Token)
    ensures
        tokens_view(final(toks)@) == tokens_view(old(toks)@).push(t@),
{
    let ghost t_view = t@;
    toks.push(t);
    assert(tokens_view(final(toks)@) =~= tokens_view(old(toks)@).push(t_view));
}

fn single(ch: char) -> (r: Vec<char>)
    ensures
        r@ == seq![ch],
{
    let mut v: Vec<char> = Vec::new();
    v.push(ch);
    assert(v@ =~= seq![ch]);
    v
}

fn is_op_char_exec(c: char) -> (r: bool)
    ensures
        r == is_op_char(c),
{
    c == '+' || c == '-' || c == '*' || c == '/' || c == '%' || c == '=' || c == '!' || c == '<'
        || c == '>' || c == '&' || c == '|' || c == '^'
}

fn is_idle_delim_exec(c: char) -> (r: bool)
    ensures
        r == is_idle_delim(c),
{
    c == ';' || c == ',' || c == '(' || c == ')' || c == '{' || c == '[' || c == ']' || c == ':'
}

fn is_delim_exec(c: char) -> (r: bool)
    ensures
        r == is_delim(c),
{
    c == ';' || c == ',' || c == '(' || c == ')' || c == '{' || c == '}' || c == '[' || c == ']'
        || c == ':' || c == '\\'
}

fn is_listed_keyword(cur: &Vec<char>) -> (r: bool)
    ensures
        r == keyword_list().contains(cur@),
{
    let ghost k = keyword_list();
    let w = cur.as_slice();
    assert(w@ == cur@);
    let r = chars_eq(w, &['l', 'a', 'b', 'e', 'l']) || chars_eq(w, &['e', 'x', 'i', 't'])
        || chars_eq(w, &['j', 'u', 'm', 'p']) || chars_eq(w, &['r', 'e', 't', 'u', 'r', 'n'])
        || chars_eq(w, &['c', 'a', 'l', 'l']) || chars_eq(w, &['j', 'u', 'm', 'p', 'i', 'f'])
        || chars_eq(w, &['c', 'a', 'l', 'l', 'i', 'f']) || chars_eq(w, &['l', 'e', 't'])
        || chars_eq(w, &['p', 'r', 'i', 'n', 't']) || chars_eq(w, &['i', 'n', 'p', 'u', 't']);
    proof {
        if r {
            assert(exists|i: int| 0 <= i < k.len() && k[i] == cur@) by {
                if cur@ == k[0] {} else if cur@ == k[1] {} else if cur@ == k[2] {} else if cur@
                    == k[3] {} else if cur@ == k[4] {} else if cur@ == k[5] {} else if cur@ == k[6] {
                } else if cur@ == k[7] {} else if cur@ == k[8] {} else {
                    assert(cur@ == k[9]);
                }
            }
        } else {
            assert(!k.contains(cur@)) by {
                assert forall|i: int| 0 <= i < k.len() implies k[i] != cur@ by {}
            }
        }
    }
    r
}

fn is_keyword_exec(rules: Comments, cur: &Vec<char>) -> (r: bool)
    ensures
        r == is_keyword(rules, cur@),
{
    let listed = is_listed_keyword(cur);
    match rules {
        Comments::Hash => listed,
        Comments::Backslash(_) => listed || chars_eq(cur.as_slice(), &['g', 'o', 't', 'o']),
    }
}

fn word_token_exec(rules: Comments, cur: Vec<char>) -> (r: Token)
    ensures
        r@ == word_token(rules, cur@),
{
    if is_keyword_exec(rules, &cur) {
        Token::Keyword(cur)
    } else if chars_eq(cur.as_slice(), &['t', 'r', 'u', 'e']) {
        Token::Bool(true)
    } else if chars_eq(cur.as_slice(), &['f', 'a', 'l', 's', 'e']) {
        Token::Bool(false)
    } else {
        Token::Identifier(cur)
    }
}

fn number_token_exec(cur: Vec<char>) -> (r: Result<Token, LexError>)
    ensures
        match number_token(cur@) {
            Ok(t) => r matches Ok(x) && x@ == t,
            Err(e) => r == Err::<Token, LexError>(e),
        },
{
    let mut n_dots: usize = 0;
    let mut shape_ok = true;
    let mut i: usize = 0;
    while i < cur.len()
        invariant
            0 <= i <= cur@.len(),
            n_dots as nat == dots(cur@.take(i as int)),
            n_dots <= i,
            shape_ok == (forall|j: int|
                0 <= j < i ==> (cur@[j] == '.' || is_ascii_digit(#[trigger] cur@[j]) || (j == 0
                    && cur@[j] == '-'))),
        decreases cur@.len() - i,
    {
        assert(cur@.take(i + 1).drop_last() =~= cur@.take(i as int));
        let c = cur[i];
        if c == '.' {
            n_dots = n_dots + 1;
        } else if !('0' <= c && c <= '9') && !(i == 0 && c == '-') {
            shape_ok = false;
        }
        i = i + 1;
    }
    assert(cur@.take(cur@.len() as int) =~= cur@);
    if n_dots > 0 {
        if n_dots == 1 && shape_ok {
            Ok(Token::Float(cur))
        } else {
            Err(LexError::BadFloat)
        }
    } else {
        match parse_i64(&cur) {
            Some(v) => Ok(Token::Integer(v)),
            None => Err(LexError::BadInteger),
        }
    }
}

/// Ends the operator, word or number being gathered, as the state requires.
fn flush_punct(cur: Vec<char>, toks: &mut Vec<Token>)
    ensures
        tokens_view(final(toks)@) == tokens_view(old(toks)@).push(TokenV::Punct(cur@)),
{
    push_token(toks, Token::Punct(cur));
}

fn starts_comment_exec(rules: Comments, ch: char) -> (r: bool)
    ensures
        r == starts_comment(rules, ch),
{
    ch == '}' || match rules {
        Comments::Hash => false,
        Comments::Backslash(f) => ch == '\\' && f == 'x',
    }
}

fn step(rules: Comments, st: LexState, cur: Vec<char>, toks: Vec<Token>, ch: char) -> (r: Result<
    (LexState, Vec<char>, Vec<Token>),
    LexError,
>)
    ensures
        match lex_step(rules, st, cur@, tokens_view(toks@), ch) {
            Ok((s2, c2, t2)) => r matches Ok((a, b, c)) && a == s2 && b@ == c2 && tokens_view(c@)
                == t2,
            Err(e) => r == Err::<(LexState, Vec<char>, Vec<Token>), LexError>(e),
        },
{
    let mut toks = toks;
    let mut cur = cur;
    match st {
        LexState::Idle => {
            let hash = match rules {
                Comments::Hash => true,
                Comments::Backslash(_) => false,
            };
            if ch == '}' {
                push_token(&mut toks, Token::Punct(single(ch)));
                Ok((LexState::Inactive, cur, toks))
            } else if hash && ch == '#' {
                Ok((LexState::Comment, cur, toks))
            } else if !hash && ch == '\\' {
                if starts_comment_exec(rules, ch) {
                    push_token(&mut toks, Token::Punct(single(ch)));
                    Ok((LexState::Inactive, cur, toks))
                } else {
                    Ok((LexState::Idle, cur, toks))
                }
            } else if is_op_char_exec(ch) {
                cur.push(ch);
                Ok((LexState::Punct, cur, toks))
            } else if is_idle_delim_exec(ch) {
                push_token(&mut toks, Token::Punct(single(ch)));
                Ok((LexState::Idle, cur, toks))
            } else if ch == '"' {
                Ok((LexState::Str, cur, toks))
            } else if is_numeric(ch) {
                cur.push(ch);
                Ok((LexState::Number, cur, toks))
            } else if is_alphanumeric(ch) {
                cur.push(ch);
                Ok((LexState::Word, cur, toks))
            } else if is_whitespace(ch) {
                Ok((LexState::Idle, cur, toks))
            } else {
                Err(LexError::UnexpectedChar(ch))
            }
        },
        LexState::Punct => {
            let operand = toks.len() == 0 || match &toks[toks.len() - 1] {
                Token::Punct(_) | Token::Keyword(_) => true,
                _ => false,
            };
            if operand && cur.len() == 1 && cur[0] == '-' && is_numeric(ch) {
                proof {
                    assert(cur@ =~= seq!['-']);
                    if toks@.len() > 0 {
                        assert(tokens_view(toks@).last() == toks@.last()@);
                    }
                }
                cur.push(ch);
                Ok((LexState::Number, cur, toks))
            } else if is_whitespace(ch) {
                flush_punct(cur, &mut toks);
                Ok((LexState::Idle, Vec::new(), toks))
            } else if ch == '"' {
                flush_punct(cur, &mut toks);
                Ok((LexState::Str, Vec::new(), toks))
            } else if is_numeric(ch) {
                flush_punct(cur, &mut toks);
                Ok((LexState::Number, single(ch), toks))
            } else if is_alphanumeric(ch) {
                flush_punct(cur, &mut toks);
                Ok((LexState::Word, single(ch), toks))
            } else if is_delim_exec(ch) {
                flush_punct(cur, &mut toks);
                push_token(&mut toks, Token::Punct(single(ch)));
                let next = if starts_comment_exec(rules, ch) {
                    LexState::Inactive
                } else {
                    LexState::Punct
                };
                Ok((next, Vec::new(), toks))
            } else {
                cur.push(ch);
                Ok((LexState::Punct, cur, toks))
            }
        },
        LexState::Word => {
            if is_whitespace(ch) {
                push_token(&mut toks, word_token_exec(rules, cur));
                Ok((LexState::Idle, Vec::new(), toks))
            } else if is_op_char_exec(ch) {
                push_token(&mut toks, word_token_exec(rules, cur));
                Ok((LexState::Punct, single(ch), toks))
            } else if ch == '"' {
                push_token(&mut toks, word_token_exec(rules, cur));
                Ok((LexState::Str, Vec::new(), toks))
            } else if is_delim_exec(ch) {
                push_token(&mut toks, word_token_exec(rules, cur));
                push_token(&mut toks, Token::Punct(single(ch)));
                let next = if starts_comment_exec(rules, ch) {
                    LexState::Inactive
                } else {
                    LexState::Word
                };
                Ok((next, Vec::new(), toks))
            } else {
                cur.push(ch);
                Ok((LexState::Word, cur, toks))
            }
        },
        LexState::Inactive => {
            let ends = match rules {
                Comments::Hash => ch == '#',
                Comments::Backslash(f) => ch == 'x' && f == '\\',
            };
            if ch == '{' {
                push_token(&mut toks, Token::Punct(single(ch)));
                Ok((LexState::Idle, cur, toks))
            } else if ends {
                Ok((LexState::Idle, cur, toks))
            } else {
                Ok((LexState::Inactive, cur, toks))
            }
        },
        LexState::Comment => {
            if ch == '#' {
                Ok((LexState::Idle, cur, toks))
            } else {
                Ok((LexState::Comment, cur, toks))
            }
        },
        LexState::Str => {
            if ch == '"' {
                push_token(&mut toks, Token::Str(cur));
                Ok((LexState::Idle, Vec::new(), toks))
            } else {
                cur.push(ch);
                Ok((LexState::Str, cur, toks))
            }
        },
        LexState::Number => {
            if !is_numeric(ch) && ch != '.' {
                let t = number_token_exec(cur)?;
                push_token(&mut toks, t);
                if is_op_char_exec(ch) {
                    Ok((LexState::Punct, single(ch), toks))
                } else if is_whitespace(ch) {
                    Ok((LexState::Idle, Vec::new(), toks))
                } else if is_delim_exec(ch) {
                    push_token(&mut toks, Token::Punct(single(ch)));
                    let next = if starts_comment_exec(rules, ch) {
                        LexState::Inactive
                    } else {
                        LexState::Idle
                    };
                    Ok((next, Vec::new(), toks))
                } else if ch == '"' {
                    Ok((LexState::Str, Vec::new(), toks))
                } else {
                    Ok((LexState::Word, single(ch), toks))
                }
            } else {
                cur.push(ch);
                Ok((LexState::Number, cur, toks))
            }
        },
    }
}

/// Once the lexer has failed, reading more characters does not change the error.
proof fn lemma_lex_error_sticks(rules: Comments, s: Seq<char>, i: nat, j: nat)
    requires
        i <= j,
        lex_run(rules, s, i) is Err,
    ensures
        lex_run(rules, s, j) == lex_run(rules, s, i),
    decreases j - i,
{
    if j > i {
        lemma_lex_error_sticks(rules, s, i, (j - 1) as nat);
    }
}

/// Runs the state machine over the whole source and drops the empty
/// identifiers it produced.
fn run_lexer(rules: Comments, source: &Vec<char>) -> (r: Result<Vec<Token>, LexError>)
    ensures
        match lex_run(rules, source@, source@.len()) {
            Err(e) => r == Err::<Vec<Token>, LexError>(e),
            Ok((_, _, toks)) => r matches Ok(v) && tokens_view(v@) == drop_empty_identifiers(toks),
        },
{
    let mut st = LexState::Idle;
    let mut cur: Vec<char> = Vec::new();
    let mut toks: Vec<Token> = Vec::new();
    let mut i: usize = 0;
    assert(tokens_view(toks@) =~= Seq::<TokenV>::empty());
    while i < source.len()
        invariant
            0 <= i <= source@.len(),
            lex_run(rules, source@, i as nat) == Ok::<(LexState, Seq<char>, Seq<TokenV>), LexError>(
                (st, cur@, tokens_view(toks@)),
            ),
        decreases source@.len() - i,
    {
        match step(rules, st, cur, toks, source[i]) {
            Ok((a, b, c)) => {
                st = a;
                cur = b;
                toks = c;
            },
            Err(e) => {
                proof {
                    lemma_lex_error_sticks(rules, source@, (i + 1) as nat, source@.len());
                }
                return Err(e);
            },
        }
        i = i + 1;
    }
    let mut kept: Vec<Token> = Vec::new();
    let mut k: usize = 0;
    let ghost all = tokens_view(toks@);
    while k < toks.len()
        invariant
            0 <= k <= toks@.len(),
            all == tokens_view(toks@),
            tokens_view(kept@) == drop_empty_identifiers(all.take(k as int)),
        decreases toks@.len() - k,
    {
        assert(all.take(k + 1).drop_last() =~= all.take(k as int));
        assert(all.take(k + 1).last() == toks@[k as int]@);
        let keep = match &toks[k] {
            Token::Identifier(s) => s.len() > 0,
            _ => true,
        };
        if keep {
            push_token(&mut kept, toks[k].duplicate());
        }
        k = k + 1;
    }
    assert(all.take(toks@.len() as int) =~= all);
    Ok(kept)
}

/// Turns ARC source text into tokens (the tokens end with the identifier
/// `HYD_EOF`), or says why the text cannot be lexed.
pub fn lex(source: &Vec<char>) -> (r: Result<Vec<Token>, LexError>)
    ensures
        lex_result_view(r) == spec_lex(source@),
{
    let mut kept = run_lexer(Comments::Hash, source)?;
    let eof = vec!['H', 'Y', 'D', '_', 'E', 'O', 'F'];
    assert(eof@ =~= eof_name());
    push_token(&mut kept, Token::Identifier(eof));
    Ok(kept)
}

/// Turns source text with backslash comments into tokens (see
/// [`Comments::Backslash`]; no end marker is added), or says why the text
/// cannot be lexed.
pub fn lex_backslash(source: &Vec<char>) -> (r: Result<Vec<Token>, LexError>)
    ensures
        lex_result_view(r) == spec_lex_backslash(source@),
{
    let first = if source.len() > 0 {
        source[0]
    } else {
        ' '
    };
    run_lexer(Comments::Backslash(first), source)
}

/// No token that [`drop_empty_identifiers`] keeps is an empty identifier.
proof fn lemma_no_empty_identifiers(t: Seq<TokenV>)
    ensures
        forall|j: int|
            0 <= j < drop_empty_identifiers(t).len() ==> !(#[trigger] drop_empty_identifiers(t)[j]
                matches TokenV::Identifier(x) && x.len() == 0),
    decreases t.len(),
{
    if t.len() > 0 {
        lemma_no_empty_identifiers(t.drop_last());
        let rest = drop_empty_identifiers(t.drop_last());
        assert forall|j: int| 0 <= j < rest.len() implies rest.push(t.last())[j] == rest[j] by {}
    }
}

/// A token stream ends with the identifier `HYD_EOF`, and no token before
/// it is an empty identifier.
pub proof fn lemma_lex_ends_with_eof(s: Seq<char>)
    ensures
        spec_lex(s) matches Ok(ts) ==> {
            &&& ts.len() > 0
            &&& ts.last() == TokenV::Identifier(eof_name())
            &&& forall|j: int|
                0 <= j < ts.len() - 1 ==> !(#[trigger] ts[j] matches TokenV::Identifier(x) && x.len()
                    == 0)
        },
{
    if let Ok((_, _, toks)) = lex_run(Comments::Hash, s, s.len()) {
        lemma_no_empty_identifiers(toks);
        let d = drop_empty_identifiers(toks);
        assert forall|j: int| 0 <= j < d.len() implies d.push(TokenV::Identifier(eof_name()))[j]
            == d[j] by {}
    }
}

/// The lexer's state (with `#` comments) after reading `s` from the given
/// state.
pub open spec fn lex_chars(st: LexState, cur: Seq<char>, toks: Seq<TokenV>, s: Seq<char>) -> Result<
    (LexState, Seq<char>, Seq<TokenV>),
    LexError,
>
    decreases s.len(),
{
    if s.len() == 0 {
        Ok((st, cur, toks))
    } else {
        match lex_step(Comments::Hash, st, cur, toks, s[0]) {
            Err(e) => Err(e),
            Ok((st2, cur2, toks2)) => lex_chars(st2, cur2, toks2, s.drop_first()),
        }
    }
}

/// A comment, from `#` to the next `#`, read between tokens, adds no token
/// and leaves the lexer between tokens, whatever the comment holds: what
/// follows it is read as if the comment were not there.
pub proof fn lemma_comment_is_skipped(cur: Seq<char>, toks: Seq<TokenV>, c: Seq<char>, rest: Seq<char>)
    requires
        forall|j: int| 0 <= j < c.len() ==> #[trigger] c[j] != '#',
    ensures
        lex_chars(LexState::Idle, cur, toks, seq!['#'] + c + seq!['#'] + rest) == lex_chars(
            LexState::Idle,
            cur,
            toks,
            rest,
        ),
{
    let all = seq!['#'] + c + seq!['#'] + rest;
    assert(all[0] == '#');
    assert(all.drop_first() =~= c + (seq!['#'] + rest));
    assert(lex_step(Comments::Hash, LexState::Idle, cur, toks, '#') == Ok::<
        (LexState, Seq<char>, Seq<TokenV>),
        LexError,
    >((LexState::Comment, cur, toks)));
    lemma_comment_chars_then(cur, toks, c, seq!['#'] + rest);
    let h = seq!['#'] + rest;
    assert(h[0] == '#');
    assert(h.drop_first() =~= rest);
    assert(lex_step(Comments::Hash, LexState::Comment, cur, toks, '#') == Ok::<
        (LexState, Seq<char>, Seq<TokenV>),
        LexError,
    >((LexState::Idle, cur, toks)));
}

/// The lexer reads only the characters it has reached.
proof fn lemma_run_prefix(rules: Comments, a: Seq<char>, b: Seq<char>, n: nat)
    requires
        n <= a.len(),
        n <= b.len(),
        forall|i: int| 0 <= i < n ==> a[i] == b[i],
    ensures
        lex_run(rules, a, n) == lex_run(rules, b, n),
    decreases n,
{
    if n > 0 {
        lemma_run_prefix(rules, a, b, (n - 1) as nat);
        assert(a[n - 1] == b[n - 1]);
    }
}

/// Reading a whole source is reading its first `n` characters, then the
/// rest from where that left the lexer.
proof fn lemma_run_then_chars(s: Seq<char>, n: nat)
    requires
        n <= s.len(),
    ensures
        lex_run(Comments::Hash, s, s.len()) == match lex_run(Comments::Hash, s, n) {
            Err(e) => Err(e),
            Ok((st, cur, toks)) => lex_chars(st, cur, toks, s.skip(n as int)),
        },
    decreases s.len() - n,
{
    if n < s.len() {
        lemma_run_then_chars(s, n + 1);
        match lex_run(Comments::Hash, s, n) {
            Err(e) => {
                lemma_lex_error_sticks(Comments::Hash, s, n, (n + 1) as nat);
            },
            Ok((st, cur, toks)) => {
                let rest = s.skip(n as int);
                assert(rest[0] == s[n as int]);
                assert(rest.drop_first() =~= s.skip((n + 1) as int));
            },
        }
    } else {
        assert(s.skip(n as int) =~= Seq::<char>::empty());
    }
}

/// Comments are skipped: where the text before it leaves the lexer between
/// tokens, a comment from `#` to the next `#` changes nothing in the token
/// stream, whatever the comment holds and whatever follows it.
pub proof fn lemma_comment_adds_nothing(s: Seq<char>, c: Seq<char>, r: Seq<char>)
    requires
        forall|j: int| 0 <= j < c.len() ==> #[trigger] c[j] != '#',
        lex_run(Comments::Hash, s, s.len()) matches Ok((st, _, _)) && st == LexState::Idle,
    ensures
        spec_lex(s + seq!['#'] + c + seq!['#'] + r) == spec_lex(s + r),
{
    let k = s.len();
    let x = s + seq!['#'] + c + seq!['#'] + r;
    let y = s + r;
    lemma_run_prefix(Comments::Hash, x, s, k);
    lemma_run_prefix(Comments::Hash, y, s, k);
    lemma_run_then_chars(x, k);
    lemma_run_then_chars(y, k);
    assert(x.skip(k as int) =~= seq!['#'] + c + seq!['#'] + r);
    assert(y.skip(k as int) =~= r);
    if let Ok((st, cur, toks)) = lex_run(Comments::Hash, s, k) {
        lemma_comment_is_skipped(cur, toks, c, r);
    }
}

/// Reading a comment body, then more text.
proof fn lemma_comment_chars_then(cur: Seq<char>, toks: Seq<TokenV>, c: Seq<char>, rest: Seq<char>)
    requires
        forall|j: int| 0 <= j < c.len() ==> #[trigger] c[j] != '#',
    ensures
        lex_chars(LexState::Comment, cur, toks, c + rest) == lex_chars(LexState::Comment, cur, toks, rest),
    decreases c.len(),
{
    if c.len() > 0 {
        assert(c[0] != '#');
        let d = c.drop_first();
        assert forall|j: int| 0 <= j < d.len() implies #[trigger] d[j] != '#' by {
            assert(d[j] == c[j + 1]);
        }
        assert((c + rest)[0] == c[0]);
        assert((c + rest).drop_first() =~= d + rest);
        lemma_comment_chars_then(cur, toks, d, rest);
    } else {
        assert(c + rest =~= rest);
    }
}

/// Every keyword token is a reserved word of the rules.
pub open spec fn keywords_reserved(rules: Comments, toks: Seq<TokenV>) -> bool {
    forall|j: int|
        0 <= j < toks.len() ==> (#[trigger] toks[j] matches TokenV::Keyword(k) ==> is_keyword(
            rules,
            k,
        ))
}

proof fn lemma_lex_run_keywords(rules: Comments, s: Seq<char>, n: nat)
    requires
        n <= s.len(),
    ensures
        lex_run(rules, s, n) matches Ok((_, _, toks)) ==> keywords_reserved(rules, toks),
    decreases n,
{
    if n > 0 {
        lemma_lex_run_keywords(rules, s, (n - 1) as nat);
        if let Ok((st, cur, toks)) = lex_run(rules, s, (n - 1) as nat) {
            if let Ok((_, _, t2)) = lex_step(rules, st, cur, toks, s[n - 1]) {
                assert forall|j: int| 0 <= j < t2.len() implies (#[trigger] t2[j] matches TokenV::Keyword(
                    k,
                ) ==> is_keyword(rules, k)) by {
                    if j >= toks.len() {
                        let w = word_token(rules, cur);
                        assert(w matches TokenV::Keyword(k) ==> is_keyword(rules, k));
                    } else {
                        assert(toks[j] matches TokenV::Keyword(k) ==> is_keyword(rules, k));
                    }
                }
            }
        }
    }
}

proof fn lemma_drop_keeps_keywords(rules: Comments, t: Seq<TokenV>)
    requires
        keywords_reserved(rules, t),
    ensures
        keywords_reserved(rules, drop_empty_identifiers(t)),
    decreases t.len(),
{
    if t.len() > 0 {
        let p = t.drop_last();
        assert(keywords_reserved(rules, p)) by {
            assert forall|j: int| 0 <= j < p.len() implies (#[trigger] p[j] matches TokenV::Keyword(k)
                ==> is_keyword(rules, k)) by {
                assert(p[j] == t[j]);
            }
        }
        lemma_drop_keeps_keywords(rules, p);
        let rest = drop_empty_identifiers(p);
        assert(t[t.len() - 1] matches TokenV::Keyword(k) ==> is_keyword(rules, k));
        assert forall|j: int| 0 <= j < rest.len() implies rest.push(t.last())[j] == rest[j] by {}
    }
}

/// Only the reserved words become keyword tokens: with `#` comments the
/// ten words of [`keyword_list`], with backslash comments those and `goto`.
pub proof fn lemma_keywords_are_reserved(s: Seq<char>)
    ensures
        spec_lex(s) matches Ok(ts) ==> keywords_reserved(Comments::Hash, ts),
        spec_lex_backslash(s) matches Ok(ts) ==> keywords_reserved(backslash_rules(s), ts),
{
    lemma_lex_run_keywords(Comments::Hash, s, s.len());
    lemma_lex_run_keywords(backslash_rules(s), s, s.len());
    if let Ok((_, _, toks)) = lex_run(Comments::Hash, s, s.len()) {
        lemma_drop_keeps_keywords(Comments::Hash, toks);
        let d = drop_empty_identifiers(toks);
        let ts = d.push(TokenV::Identifier(eof_name()));
        assert forall|j: int| 0 <= j < ts.len() implies (#[trigger] ts[j] matches TokenV::Keyword(k)
            ==> is_keyword(Comments::Hash, k)) by {
            if j < d.len() {
                assert(ts[j] == d[j]);
            }
        }
    }
    if let Ok((_, _, toks)) = lex_run(backslash_rules(s), s, s.len()) {
        lemma_drop_keeps_keywords(backslash_rules(s), toks);
    }
}

/// A `-` followed by a digit: after an operand token (a name, a number, a
/// string or a truth value) the `-` is the subtraction operator and the
/// digit starts a new number of its own, so `x-3` is `x`, `-`, `3`; at the
/// start, or after punctuation or a keyword, the `-` begins a negative
/// number, so `= -3` is `=`, `-3`. (Every ASCII digit is numeric for
/// `char::is_numeric`, as [`crate::text::is_numeric`] states.)
pub proof fn lemma_minus_before_digit(rules: Comments, toks: Seq<TokenV>, ch: char)
    requires
        is_ascii_digit(ch),
        unicode_numeric(ch),
    ensures
        (toks.len() > 0 && (toks.last() is Identifier || toks.last() is Integer || toks.last() is Float
            || toks.last() is Str || toks.last() is Bool)) ==> lex_step(
            rules,
            LexState::Punct,
            seq!['-'],
            toks,
            ch,
        ) == Ok::<(LexState, Seq<char>, Seq<TokenV>), LexError>(
            (LexState::Number, seq![ch], toks.push(TokenV::Punct(seq!['-']))),
        ),
        (toks.len() == 0 || toks.last() is Punct || toks.last() is Keyword) ==> lex_step(
            rules,
            LexState::Punct,
            seq!['-'],
            toks,
            ch,
        ) == Ok::<(LexState, Seq<char>, Seq<TokenV>), LexError>(
            (LexState::Number, seq!['-', ch], toks),
        ),
{
    assert(seq!['-'].push(ch) =~= seq!['-', ch]);
}

} // verus!
