//! The preprocessor: `%scope <file>` directives and the exit block that
//! every program gets.
use vstd::prelude::*;

use crate::serializer::push_lit;
use crate::text::{
    chars_eq, copy_chars, spec_split_newlines, spec_words, split_newlines, split_whitespace, views,
};

verus! {

/// The block appended to every source text, so that a program that runs off
/// its end stops.
pub open spec fn exit_block() -> Seq<char> {
    seq!['{', ' ', 'l', 'a', 'b', 'e', 'l', ' ', 'H', 'Y', 'D', '_', 'E', 'X', 'I', 'T', 'B', 'L', 'O', 'C', 'K', ';', ' ', 'e', 'x', 'i', 't', ';', ' ', 'l', 'a', 'b', 'e', 'l', ' ', 'H', 'Y', 'D', '_', 'E', 'X', 'I', 'T', 'B', 'L', 'O', 'C', 'K', '_', 'E', 'N', 'D', ';', ' ', '}']
}

pub open spec fn scope_word() -> Seq<char> {
    seq!['%', 's', 'c', 'o', 'p', 'e']
}

/// Reading the lines in order: the files named by `%scope` lines so far, and
/// whether a `%scope` line without a file name has been met (reading stops
/// there).
pub open spec fn scope_fold(lines: Seq<Seq<char>>) -> (Seq<Seq<char>>, bool)
    decreases lines.len(),
{
    if lines.len() == 0 {
        (seq![], false)
    } else {
        let (names, bad) = scope_fold(lines.drop_last());
        if bad {
            (names, true)
        } else {
            let w = spec_words(lines.last());
            if w.len() > 0 && w[0] == scope_word() {
                if w.len() > 1 {
                    (names.push(w[1]), false)
                } else {
                    (names, true)
                }
            } else {
                (names, false)
            }
        }
    }
}

/// The `%scope` directives of a source text.
pub struct ScopeScan {
    /// The files to include, in the order of their directives.
    pub targets: Vec<Vec<char>>,
    /// Whether a `%scope` line without a file name follows them.
    pub malformed: bool,
}

/// The files that the `%scope` lines of `input` name (a line is such a
/// directive when its first word is `%scope`; its second word is the file),
/// up to the first such line that names no file.
pub fn scope_targets(input: &Vec<char>) -> (r: ScopeScan)
    ensures
        (views(r.targets@), r.malformed) == scope_fold(spec_split_newlines(input@)),
{
    let lines = split_newlines(input);
    let ghost lv = views(lines@);
    let mut targets: Vec<Vec<char>> = Vec::new();
    let mut i: usize = 0;
    assert(lv.take(0) =~= Seq::<Seq<char>>::empty());
    assert(views(targets@) =~= Seq::<Seq<char>>::empty());
    while i < lines.len()
        invariant
            0 <= i <= lines@.len(),
            lv == views(lines@),
            lv == spec_split_newlines(input@),
            scope_fold(lv.take(i as int)) == (views(targets@), false),
        decreases lines@.len() - i,
    {
        assert(lv.take(i + 1).drop_last() =~= lv.take(i as int));
        assert(lv.take(i + 1).last() == lines@[i as int]@);
        let w = split_whitespace(&lines[i]);
        assert(views(w@).len() == w@.len());
        if w.len() > 0 && chars_eq(w[0].as_slice(), &['%', 's', 'c', 'o', 'p', 'e']) {
            assert(views(w@)[0] == w@[0]@);
            if w.len() > 1 {
                assert(views(w@)[1] == w@[1]@);
                let ghost before = views(targets@);
                targets.push(copy_chars(&w[1]));
                assert(views(targets@) =~= before.push(views(w@)[1]));
            } else {
                assert(scope_fold(lv.take(i + 1)) == (views(targets@), true));
                proof {
                    lemma_scope_bad_sticks(lv, i + 1, lv.len() as int);
                    assert(lv.take(lv.len() as int) =~= lv);
                }
                return ScopeScan { targets, malformed: true };
            }
        }
        i = i + 1;
    }
    assert(lv.take(lv.len() as int) =~= lv);
    ScopeScan { targets, malformed: false }
}

proof fn lemma_scope_bad_sticks(lines: Seq<Seq<char>>, i: int, j: int)
    requires
        0 <= i <= j <= lines.len(),
        scope_fold(lines.take(i)).1,
    ensures
        scope_fold(lines.take(j)) == scope_fold(lines.take(i)),
    decreases j - i,
{
    if j > i {
        lemma_scope_bad_sticks(lines, i, j - 1);
        assert(lines.take(j).drop_last() =~= lines.take(j - 1));
    }
}

/// `%scope` lines are read one by one: the files named by two runs of lines
/// are those of the first run followed by those of the second, unless the
/// first run already holds a `%scope` line without a file name, where
/// reading stopped.
pub proof fn lemma_scope_lines_accumulate(a: Seq<Seq<char>>, b: Seq<Seq<char>>)
    ensures
        scope_fold(a + b) == if scope_fold(a).1 {
            scope_fold(a)
        } else {
            (scope_fold(a).0 + scope_fold(b).0, scope_fold(b).1)
        },
    decreases b.len(),
{
    if b.len() == 0 {
        assert(a + b =~= a);
        assert(scope_fold(a).0 + Seq::<Seq<char>>::empty() =~= scope_fold(a).0);
    } else {
        lemma_scope_lines_accumulate(a, b.drop_last());
        assert((a + b).drop_last() =~= a + b.drop_last());
        assert((a + b).last() == b.last());
        let (nb, _) = scope_fold(b.drop_last());
        let w = spec_words(b.last());
        if w.len() > 1 {
            assert(scope_fold(a).0 + nb.push(w[1]) =~= (scope_fold(a).0 + nb).push(w[1]));
        }
    }
}

/// One line names a file when its first word is `%scope` and it has a
/// second word, that word; a `%scope` line without one stops the reading;
/// any other line names nothing.
pub proof fn lemma_scope_line(l: Seq<char>)
    ensures
        ({
            let w = spec_words(l);
            scope_fold(seq![l]) == if w.len() > 0 && w[0] == scope_word() {
                if w.len() > 1 {
                    (seq![w[1]], false)
                } else {
                    (Seq::<Seq<char>>::empty(), true)
                }
            } else {
                (Seq::<Seq<char>>::empty(), false)
            }
        }),
{
    let s = seq![l];
    assert(s.drop_last() =~= Seq::<Seq<char>>::empty());
    assert(s.last() == l);
    assert(scope_fold(Seq::<Seq<char>>::empty()) == (Seq::<Seq<char>>::empty(), false));
    assert(scope_fold(s.drop_last()) == (Seq::<Seq<char>>::empty(), false));
    let w = spec_words(l);
    if w.len() > 1 {
        assert(Seq::<Seq<char>>::empty().push(w[1]) =~= seq![w[1]]);
    }
}

/// The included blocks, each after a newline.
pub open spec fn included(blocks: Seq<Seq<char>>) -> Seq<char>
    decreases blocks.len(),
{
    if blocks.len() == 0 {
        seq![]
    } else {
        included(blocks.drop_last()) + seq!['\n'] + blocks.last()
    }
}

/// The preprocessed source: the input, the exit block, then each included
/// block after a newline.
pub open spec fn spec_preproc(input: Seq<char>, blocks: Seq<Seq<char>>) -> Seq<char> {
    input + exit_block() + included(blocks)
}

/// The preprocessed source where the exit block starts on a line of its
/// own: the input, a newline, the exit block, then each included block
/// after a newline.
pub open spec fn spec_preproc_break(input: Seq<char>, blocks: Seq<Seq<char>>) -> Seq<char> {
    input + seq!['\n'] + exit_block() + included(blocks)
}

/// Appends the exit block and the included blocks to `out`.
fn append_blocks(out: &mut Vec<char>, blocks: &Vec<Vec<char>>)
    ensures
        final(out)@ == old(out)@ + exit_block() + included(views(blocks@)),
{
    push_lit(out, &['{', ' ', 'l', 'a', 'b', 'e', 'l', ' ', 'H', 'Y', 'D', '_', 'E', 'X', 'I', 'T', 'B', 'L', 'O', 'C', 'K', ';', ' ', 'e', 'x', 'i', 't', ';', ' ', 'l', 'a', 'b', 'e', 'l', ' ', 'H', 'Y', 'D', '_', 'E', 'X', 'I', 'T', 'B', 'L', 'O', 'C', 'K', '_', 'E', 'N', 'D', ';', ' ', '}']);
    let ghost start = old(out)@;
    let ghost bv = views(blocks@);
    let mut i: usize = 0;
    assert(bv.take(0) =~= Seq::<Seq<char>>::empty());
    assert(out@ =~= start + exit_block() + included(bv.take(0)));
    while i < blocks.len()
        invariant
            0 <= i <= blocks@.len(),
            bv == views(blocks@),
            out@ == start + exit_block() + included(bv.take(i as int)),
        decreases blocks@.len() - i,
    {
        assert(bv.take(i + 1).drop_last() =~= bv.take(i as int));
        assert(bv.take(i + 1).last() == blocks@[i as int]@);
        out.push('\n');
        push_lit(out, blocks[i].as_slice());
        assert(out@ =~= start + exit_block() + included(bv.take(i + 1)));
        i = i + 1;
    }
    assert(bv.take(bv.len() as int) =~= bv);
}

/// Preprocesses `input`, given the contents of the files its `%scope`
/// directives name, in the order of [`scope_targets`].
pub fn preproc(input: &Vec<char>, blocks: &Vec<Vec<char>>) -> (r: Vec<char>)
    ensures
        r@ == spec_preproc(input@, views(blocks@)),
{
    let mut out = copy_chars(input);
    append_blocks(&mut out, blocks);
    out
}

/// Preprocesses `input` as [`preproc`] does, but with the exit block on a
/// line of its own.
pub fn preproc_break(input: &Vec<char>, blocks: &Vec<Vec<char>>) -> (r: Vec<char>)
    ensures
        r@ == spec_preproc_break(input@, views(blocks@)),
{
    let mut out = copy_chars(input);
    out.push('\n');
    append_blocks(&mut out, blocks);
    out
}

} // verus!
