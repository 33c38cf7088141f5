//! `%define <name> as <address>` directives: a table of identifier
//! substitutions, built from the source lines and applied to the tokens.
//! A directive applies to every identifier of the token stream, before or
//! after the line it stands on.
use vstd::prelude::*;

use crate::lexer::{eof_name, lemma_lex_ends_with_eof, lex, spec_lex, tokens_view, LexError, Token, TokenV};
use crate::text::{chars_eq, copy_chars, spec_split_newlines, spec_words, split_newlines, split_whitespace, views};

verus! {

pub open spec fn define_word() -> Seq<char> {
    seq!['%', 'd', 'e', 'f', 'i', 'n', 'e']
}

pub open spec fn as_word() -> Seq<char> {
    seq!['a', 's']
}

/// Why a `%define` line is refused; each carries the index of the line.
#[derive(Debug, Clone, Copy, PartialEq, Eq, Structural)]
pub enum DefineError {
    /// The third word of the line is not `as`.
    MissingAs(usize),
    /// The line ends after `as`.
    MissingAddress(usize),
}

/// Reading the lines in order: the substitutions defined so far, each a name
/// and what replaces it, or the first malformed `%define` line. A line is a
/// directive when its first word is `%define`.
pub open spec fn define_fold(lines: Seq<Seq<char>>) -> Result<Seq<(Seq<char>, Seq<char>)>, DefineError>
    decreases lines.len(),
{
    if lines.len() == 0 {
        Ok(seq![])
    } else {
        match define_fold(lines.drop_last()) {
            Err(e) => Err(e),
            Ok(entries) => {
                let w = spec_words(lines.last());
                let at = (lines.len() - 1) as usize;
                if w.len() > 0 && w[0] == define_word() {
                    if w.len() < 3 || w[2] != as_word() {
                        Err(DefineError::MissingAs(at))
                    } else if w.len() < 4 {
                        Err(DefineError::MissingAddress(at))
                    } else {
                        Ok(entries.push((w[1], w[3])))
                    }
                } else {
                    Ok(entries)
                }
            },
        }
    }
}

/// `%define` lines are read one by one: the entries of two runs of lines
/// are those of the first run followed by those of the second, and the
/// first malformed line decides (counted among all the lines).
pub proof fn lemma_define_lines_accumulate(a: Seq<Seq<char>>, b: Seq<Seq<char>>)
    ensures
        define_fold(a + b) == match define_fold(a) {
            Err(e) => Err(e),
            Ok(ea) => match define_fold(b) {
                Ok(eb) => Ok::<Seq<(Seq<char>, Seq<char>)>, DefineError>(ea + eb),
                Err(_) => define_fold(a + b),
            },
        },
        define_fold(b) is Err ==> define_fold(a + b) is Err,
    decreases b.len(),
{
    if b.len() == 0 {
        assert(a + b =~= a);
        if let Ok(ea) = define_fold(a) {
            assert(ea + Seq::<(Seq<char>, Seq<char>)>::empty() =~= ea);
        }
    } else {
        lemma_define_lines_accumulate(a, b.drop_last());
        assert((a + b).drop_last() =~= a + b.drop_last());
        assert((a + b).last() == b.last());
        if let Ok(ea) = define_fold(a) {
            if let Ok(eb) = define_fold(b.drop_last()) {
                let w = spec_words(b.last());
                if w.len() >= 4 {
                    assert(ea + eb.push((w[1], w[3])) =~= (ea + eb).push((w[1], w[3])));
                }
            }
        }
    }
}

/// The view of a table of substitutions.
pub open spec fn table_view(t: Seq<(Vec<char>, Vec<char>)>) -> Seq<(Seq<char>, Seq<char>)> {
    t.map_values(|e: (Vec<char>, Vec<char>)| (e.0@, e.1@))
}

/// What replaces `name`: the value of its last entry in the table, where
/// there is one.
pub open spec fn lookup(table: Seq<(Seq<char>, Seq<char>)>, name: Seq<char>) -> Option<Seq<char>>
    decreases table.len(),
{
    if table.len() == 0 {
        None
    } else if table.last().0 == name {
        Some(table.last().1)
    } else {
        lookup(table.drop_last(), name)
    }
}

/// A token after substitution: an identifier with an entry is replaced by
/// its value; every other token stays as it is.
pub open spec fn substituted(table: Seq<(Seq<char>, Seq<char>)>, t: TokenV) -> TokenV {
    match t {
        TokenV::Identifier(n) => match lookup(table, n) {
            Some(v) => TokenV::Identifier(v),
            None => t,
        },
        _ => t,
    }
}

/// The substitution table of a source text, in the order of its `%define`
/// lines, or the first malformed one.
pub fn define_table(input: &Vec<char>) -> (r: Result<Vec<(Vec<char>, Vec<char>)>, DefineError>)
    ensures
        match r {
            Ok(t) => define_fold(spec_split_newlines(input@)) == Ok::<
                Seq<(Seq<char>, Seq<char>)>,
                DefineError,
            >(table_view(t@)),
            Err(e) => define_fold(spec_split_newlines(input@)) == Err::<
                Seq<(Seq<char>, Seq<char>)>,
                DefineError,
            >(e),
        },
{
    let lines = split_newlines(input);
    let ghost lv = views(lines@);
    let mut table: Vec<(Vec<char>, Vec<char>)> = Vec::new();
    let mut i: usize = 0;
    assert(lv.take(0) =~= Seq::<Seq<char>>::empty());
    assert(table_view(table@) =~= Seq::<(Seq<char>, Seq<char>)>::empty());
    while i < lines.len()
        invariant
            0 <= i <= lines@.len(),
            lv == views(lines@),
            lv == spec_split_newlines(input@),
            define_fold(lv.take(i as int)) == Ok::<Seq<(Seq<char>, Seq<char>)>, DefineError>(
                table_view(table@),
            ),
        decreases lines@.len() - i,
    {
        assert(lv.take(i + 1).drop_last() =~= lv.take(i as int));
        assert(lv.take(i + 1).last() == lines@[i as int]@);
        let w = split_whitespace(&lines[i]);
        assert(views(w@).len() == w@.len());
        if w.len() > 0 && chars_eq(w[0].as_slice(), &['%', 'd', 'e', 'f', 'i', 'n', 'e']) {
            assert(views(w@)[0] == w@[0]@);
            if w.len() < 3 || !chars_eq(w[2].as_slice(), &['a', 's']) {
                proof {
                    if w.len() >= 3 {
                        assert(views(w@)[2] == w@[2]@);
                    }
                    lemma_define_error_sticks(lv, i + 1, lv.len() as int);
                    assert(lv.take(lv.len() as int) =~= lv);
                }
                return Err(DefineError::MissingAs(i));
            }
            assert(views(w@)[2] == w@[2]@);
            if w.len() < 4 {
                proof {
                    lemma_define_error_sticks(lv, i + 1, lv.len() as int);
                    assert(lv.take(lv.len() as int) =~= lv);
                }
                return Err(DefineError::MissingAddress(i));
            }
            assert(views(w@)[1] == w@[1]@);
            assert(views(w@)[3] == w@[3]@);
            let ghost before = table_view(table@);
            table.push((copy_chars(&w[1]), copy_chars(&w[3])));
            assert(table_view(table@) =~= before.push((views(w@)[1], views(w@)[3])));
        }
        i = i + 1;
    }
    assert(lv.take(lv.len() as int) =~= lv);
    Ok(table)
}

/// Once a prefix of the lines is refused, every longer prefix is refused for
/// the same line.
proof fn lemma_define_error_sticks(lines: Seq<Seq<char>>, i: int, j: int)
    requires
        0 <= i <= j <= lines.len(),
        define_fold(lines.take(i)) is Err,
    ensures
        define_fold(lines.take(j)) == define_fold(lines.take(i)),
    decreases j - i,
{
    if j > i {
        lemma_define_error_sticks(lines, i, j - 1);
        assert(lines.take(j).drop_last() =~= lines.take(j - 1));
    }
}

/// What replaces `name` in `table`, where anything does.
pub fn lookup_define(table: &Vec<(Vec<char>, Vec<char>)>, name: &Vec<char>) -> (r: Option<Vec<char>>)
    ensures
        match r {
            Some(v) => lookup(table_view(table@), name@) == Some(v@),
            None => lookup(table_view(table@), name@) is None,
        },
{
    let ghost tv = table_view(table@);
    let mut k: usize = table.len();
    assert(tv.take(k as int) =~= tv);
    while k > 0
        invariant
            k <= table@.len(),
            tv == table_view(table@),
            lookup(tv, name@) == lookup(tv.take(k as int), name@),
        decreases k,
    {
        let ghost pre = tv.take(k as int);
        assert(pre.last() == (table@[k - 1].0@, table@[k - 1].1@));
        assert(pre.drop_last() =~= tv.take(k - 1));
        if chars_eq(table[k - 1].0.as_slice(), name.as_slice()) {
            return Some(copy_chars(&table[k - 1].1));
        }
        k = k - 1;
    }
    None
}

/// The tokens with every identifier that has an entry in `table` replaced
/// by its value (the last entry for a name counts); keywords, literals and
/// punctuation stay as they are.
pub fn apply_defines(tokens: &Vec<Token>, table: &Vec<(Vec<char>, Vec<char>)>) -> (r: Vec<Token>)
    ensures
        r@.len() == tokens@.len(),
        forall|i: int|
            0 <= i < r@.len() ==> #[trigger] r@[i]@ == substituted(table_view(table@), tokens@[i]@),
{
    let mut out: Vec<Token> = Vec::new();
    let mut i: usize = 0;
    while i < tokens.len()
        invariant
            i <= tokens@.len(),
            out@.len() == i,
            forall|j: int|
                0 <= j < i ==> #[trigger] out@[j]@ == substituted(table_view(table@), tokens@[j]@),
        decreases tokens@.len() - i,
    {
        let t = match &tokens[i] {
            Token::Identifier(n) => match lookup_define(table, n) {
                Some(v) => Token::Identifier(v),
                None => tokens[i].duplicate(),
            },
            other => other.duplicate(),
        };
        out.push(t);
        i = i + 1;
    }
    out
}

/// Why the lexing stage refuses a source text.
#[derive(Debug, Clone, Copy, PartialEq, Eq)]
pub enum LexStageError {
    /// A malformed `%define` line.
    Define(DefineError),
    /// The lexer refused the text.
    Lex(LexError),
}

/// The tokens of the lexing stage: the `%define` table is built from the
/// lines first (a malformed directive is refused before anything is
/// lexed), the text is lexed, and every identifier of the stream that the
/// table names, wherever in the source it stands, is replaced; the end
/// marker `HYD_EOF`, appended after substitution, stays as it is.
pub open spec fn spec_lex_stage(s: Seq<char>) -> Result<Seq<TokenV>, LexStageError> {
    match define_fold(spec_split_newlines(s)) {
        Err(e) => Err(LexStageError::Define(e)),
        Ok(table) => match spec_lex(s) {
            Err(e) => Err(LexStageError::Lex(e)),
            Ok(ts) => Ok(
                ts.drop_last().map_values(|t: TokenV| substituted(table, t)).push(
                    TokenV::Identifier(eof_name()),
                ),
            ),
        },
    }
}

/// The lexing stage of the compiler: `%define` substitution applied to the
/// tokens of the source text.
pub fn lex_stage(source: &Vec<char>) -> (r: Result<Vec<Token>, LexStageError>)
    ensures
        match r {
            Ok(v) => spec_lex_stage(source@) == Ok::<Seq<TokenV>, LexStageError>(tokens_view(v@)),
            Err(e) => spec_lex_stage(source@) == Err::<Seq<TokenV>, LexStageError>(e),
        },
{
    let table = match define_table(source) {
        Ok(t) => t,
        Err(e) => return Err(LexStageError::Define(e)),
    };
    let mut toks = match lex(source) {
        Ok(v) => v,
        Err(e) => return Err(LexStageError::Lex(e)),
    };
    proof {
        lemma_lex_ends_with_eof(source@);
    }
    let ghost ts = tokens_view(toks@);
    assert(ts.len() == toks@.len());
    let marker = toks.pop().unwrap();
    assert(tokens_view(toks@) =~= ts.drop_last());
    let mut out = apply_defines(&toks, &table);
    out.push(marker);
    let ghost tv = table_view(table@);
    assert(tokens_view(out@) =~= ts.drop_last().map_values(|t: TokenV| substituted(tv, t)).push(
        TokenV::Identifier(eof_name()),
    ));
    Ok(out)
}

} // verus!
