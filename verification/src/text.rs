//! Character classes and the splitting of text into lines and words.
use vstd::prelude::*;

verus! {

/// The text of every element of a vector of character vectors.
pub open spec fn views(v: Seq<Vec<char>>) -> Seq<Seq<char>> {
    v.map_values(|x: Vec<char>| x@)
}

/// True for the characters that Unicode gives the `White_Space` property;
/// these are exactly the characters for which `char::is_whitespace` holds.
pub open spec fn spec_is_whitespace(c: char) -> bool {
    ||| ('\u{9}' <= c && c <= '\u{d}')
    ||| c == ' '
    ||| c == '\u{85}'
    ||| c == '\u{a0}'
    ||| c == '\u{1680}'
    ||| ('\u{2000}' <= c && c <= '\u{200a}')
    ||| c == '\u{2028}'
    ||| c == '\u{2029}'
    ||| c == '\u{202f}'
    ||| c == '\u{205f}'
    ||| c == '\u{3000}'
}

/// Whether `c` is a Unicode white-space character.
pub fn is_whitespace(c: char) -> (r: bool)
    ensures
        r == spec_is_whitespace(c),
{
    ('\u{9}' <= c && c <= '\u{d}') || c == ' ' || c == '\u{85}' || c == '\u{a0}' || c
        == '\u{1680}' || ('\u{2000}' <= c && c <= '\u{200a}') || c == '\u{2028}' || c
        == '\u{2029}' || c == '\u{202f}' || c == '\u{205f}' || c == '\u{3000}'
}

/// What `char::is_numeric` answers for `c` (the Unicode general categories
/// Nd, Nl and No).
pub uninterp spec fn unicode_numeric(c: char) -> bool;

/// What `char::is_alphabetic` answers for `c` (the Unicode `Alphabetic`
/// property).
pub uninterp spec fn unicode_alphabetic(c: char) -> bool;

/// Calls `char::is_numeric`. The contract names its answer and states it
/// for ASCII, where the only characters with a number category are the
/// digits `0` to `9`, and says that no whitespace character (categories
/// Zs, Zl, Zp and Cc) is numeric; the Unicode tables it consults beyond that
/// are not restated here.
#[verifier::external_body]
pub(crate) fn is_numeric(c: char) -> (r: bool)
    ensures
        r == unicode_numeric(c),
        (c as u32) < 128 ==> (r <==> ('0' <= c && c <= '9')),
        spec_is_whitespace(c) ==> !r,
{
    c.is_numeric()
}

/// Calls `char::is_alphabetic`. The contract names its answer and states it
/// for ASCII, where the characters with the `Alphabetic` property are the
/// letters `a` to `z` and `A` to `Z`, and says that no whitespace character
/// has that property; the Unicode tables it consults beyond that are not
/// restated here.
#[verifier::external_body]
pub(crate) fn is_alphabetic(c: char) -> (r: bool)
    ensures
        r == unicode_alphabetic(c),
        (c as u32) < 128 ==> (r <==> (('a' <= c && c <= 'z') || ('A' <= c && c <= 'Z'))),
        spec_is_whitespace(c) ==> !r,
{
    c.is_alphabetic()
}

/// `char::is_alphanumeric`, which std documents as `is_alphabetic() || is_numeric()`.
pub open spec fn unicode_alphanumeric(c: char) -> bool {
    unicode_alphabetic(c) || unicode_numeric(c)
}

/// Whether `c` is alphabetic or numeric.
pub fn is_alphanumeric(c: char) -> (r: bool)
    ensures
        r == unicode_alphanumeric(c),
{
    is_alphabetic(c) || is_numeric(c)
}

/// A copy of a character vector.
pub fn copy_chars(v: &Vec<char>) -> (r: Vec<char>)
    ensures
        r@ == v@,
{
    let r = v.clone();
    assert(r@ =~= v@);
    r
}

/// Whether two character sequences are equal.
pub fn chars_eq(a: &[char], b: &[char]) -> (r: bool)
    ensures
        r == (a@ == b@),
{
    if a.len() != b.len() {
        return false;
    }
    let mut i: usize = 0;
    while i < a.len()
        invariant
            a@.len() == b@.len(),
            0 <= i <= a@.len(),
            forall|j: int| 0 <= j < i ==> a@[j] == b@[j],
        decreases a@.len() - i,
    {
        if a[i] != b[i] {
            return false;
        }
        i = i + 1;
    }
    assert(a@ =~= b@);
    true
}

/// Splitting at `'\n'`, read left to right: the pieces already closed and the
/// piece being read.
pub open spec fn newline_fold(s: Seq<char>) -> (Seq<Seq<char>>, Seq<char>)
    decreases s.len(),
{
    if s.len() == 0 {
        (seq![], seq![])
    } else {
        let (done, cur) = newline_fold(s.drop_last());
        if s.last() == '\n' {
            (done.push(cur), seq![])
        } else {
            (done, cur.push(s.last()))
        }
    }
}

/// The pieces of `s` between `'\n'` characters, in order: one more piece
/// than `s` has newlines, so the last piece is empty when `s` ends in one.
pub open spec fn spec_split_newlines(s: Seq<char>) -> Seq<Seq<char>> {
    let (done, cur) = newline_fold(s);
    done.push(cur)
}

/// Splits `s` at every `'\n'`.
pub fn split_newlines(s: &Vec<char>) -> (r: Vec<Vec<char>>)
    ensures
        views(r@) == spec_split_newlines(s@),
{
    let mut done: Vec<Vec<char>> = Vec::new();
    let mut cur: Vec<char> = Vec::new();
    let mut i: usize = 0;
    while i < s.len()
        invariant
            0 <= i <= s@.len(),
            (views(done@), cur@) == newline_fold(s@.take(i as int)),
        decreases s@.len() - i,
    {
        assert(s@.take(i + 1).drop_last() =~= s@.take(i as int));
        let c = s[i];
        if c == '\n' {
            let piece = cur;
            cur = Vec::new();
            done.push(piece);
            assert(views(done@) =~= newline_fold(s@.take(i as int)).0.push(piece@));
        } else {
            cur.push(c);
        }
        i = i + 1;
    }
    assert(s@.take(s@.len() as int) =~= s@);
    let last = cur;
    done.push(last);
    assert(views(done@) =~= spec_split_newlines(s@));
    done
}

/// Splitting at white space, read left to right: the words already closed and
/// the word being read.
pub open spec fn word_fold(s: Seq<char>) -> (Seq<Seq<char>>, Seq<char>)
    decreases s.len(),
{
    if s.len() == 0 {
        (seq![], seq![])
    } else {
        let (done, cur) = word_fold(s.drop_last());
        if spec_is_whitespace(s.last()) {
            if cur.len() > 0 {
                (done.push(cur), seq![])
            } else {
                (done, cur)
            }
        } else {
            (done, cur.push(s.last()))
        }
    }
}

/// The maximal runs of non-white-space characters of `s`, in order (what
/// `str::split_whitespace` yields).
pub open spec fn spec_words(s: Seq<char>) -> Seq<Seq<char>> {
    let (done, cur) = word_fold(s);
    if cur.len() > 0 {
        done.push(cur)
    } else {
        done
    }
}

/// Splits `s` into its white-space separated words.
pub fn split_whitespace(s: &Vec<char>) -> (r: Vec<Vec<char>>)
    ensures
        views(r@) == spec_words(s@),
{
    let mut done: Vec<Vec<char>> = Vec::new();
    let mut cur: Vec<char> = Vec::new();
    let mut i: usize = 0;
    while i < s.len()
        invariant
            0 <= i <= s@.len(),
            (views(done@), cur@) == word_fold(s@.take(i as int)),
        decreases s@.len() - i,
    {
        assert(s@.take(i + 1).drop_last() =~= s@.take(i as int));
        let c = s[i];
        if is_whitespace(c) {
            if cur.len() > 0 {
                let piece = cur;
                cur = Vec::new();
                done.push(piece);
                assert(views(done@) =~= word_fold(s@.take(i as int)).0.push(piece@));
            }
        } else {
            cur.push(c);
        }
        i = i + 1;
    }
    assert(s@.take(s@.len() as int) =~= s@);
    if cur.len() > 0 {
        let last = cur;
        done.push(last);
        assert(views(done@) =~= spec_words(s@));
    }
    done
}

/// The words `ws[from..]` joined by single spaces (what `[&str]::join(" ")`
/// gives).
pub open spec fn spec_join_from(ws: Seq<Seq<char>>, from: int) -> Seq<char>
    decreases ws.len() - from,
{
    if from >= ws.len() {
        seq![]
    } else if from == ws.len() - 1 {
        ws[from]
    } else {
        ws[from] + seq![' '] + spec_join_from(ws, from + 1)
    }
}

/// Joins `ws[from..]` with single spaces.
pub fn join_from(ws: &Vec<Vec<char>>, from: usize) -> (r: Vec<char>)
    ensures
        r@ == spec_join_from(views(ws@), from as int),
    decreases ws@.len() - from,
{
    if from >= ws.len() {
        Vec::new()
    } else if from == ws.len() - 1 {
        ws[from].clone()
    } else {
        let mut r = ws[from].clone();
        r.push(' ');
        let mut rest = join_from(ws, from + 1);
        r.append(&mut rest);
        r
    }
}

/// A newline closes a piece; the pieces hold no newline.
pub proof fn lemma_newline_pieces_have_no_newline(s: Seq<char>)
    ensures
        forall|i: int, j: int|
            0 <= i < spec_split_newlines(s).len() && 0 <= j < spec_split_newlines(s)[i].len()
                ==> spec_split_newlines(s)[i][j] != '\n',
    decreases s.len(),
{
    lemma_newline_fold_no_newline(s);
    let (done, cur) = newline_fold(s);
    assert forall|i: int, j: int|
        0 <= i < done.push(cur).len() && 0 <= j < done.push(cur)[i].len() implies done.push(cur)[i][j]
        != '\n' by {
        if i < done.len() {
            assert(done.push(cur)[i] == done[i]);
        }
    }
}

proof fn lemma_newline_fold_no_newline(s: Seq<char>)
    ensures
        forall|i: int, j: int|
            0 <= i < newline_fold(s).0.len() && 0 <= j < newline_fold(s).0[i].len()
                ==> newline_fold(s).0[i][j] != '\n',
        forall|j: int| 0 <= j < newline_fold(s).1.len() ==> newline_fold(s).1[j] != '\n',
    decreases s.len(),
{
    if s.len() > 0 {
        lemma_newline_fold_no_newline(s.drop_last());
        let (done, cur) = newline_fold(s.drop_last());
        if s.last() == '\n' {
            assert forall|i: int, j: int|
                0 <= i < done.push(cur).len() && 0 <= j < done.push(cur)[i].len() implies done.push(
                cur,
            )[i][j] != '\n' by {
                if i < done.len() {
                    assert(done.push(cur)[i] == done[i]);
                }
            }
        } else {
            assert forall|j: int| 0 <= j < cur.push(s.last()).len() implies cur.push(s.last())[j]
                != '\n' by {
                if j < cur.len() {
                    assert(cur.push(s.last())[j] == cur[j]);
                }
            }
        }
    }
}

/// Words are never empty and hold no white space.
pub proof fn lemma_words_are_nonempty_and_unbroken(s: Seq<char>)
    ensures
        forall|i: int| 0 <= i < spec_words(s).len() ==> spec_words(s)[i].len() > 0,
        forall|i: int, j: int|
            0 <= i < spec_words(s).len() && 0 <= j < spec_words(s)[i].len()
                ==> !spec_is_whitespace(spec_words(s)[i][j]),
{
    lemma_word_fold_shape(s);
    let (done, cur) = word_fold(s);
    if cur.len() > 0 {
        assert forall|i: int| 0 <= i < done.push(cur).len() implies done.push(cur)[i].len() > 0 by {
            if i < done.len() {
                assert(done.push(cur)[i] == done[i]);
            }
        }
        assert forall|i: int, j: int|
            0 <= i < done.push(cur).len() && 0 <= j < done.push(cur)[i].len()
                implies !spec_is_whitespace(done.push(cur)[i][j]) by {
            if i < done.len() {
                assert(done.push(cur)[i] == done[i]);
            }
        }
    }
}

proof fn lemma_word_fold_shape(s: Seq<char>)
    ensures
        forall|i: int| 0 <= i < word_fold(s).0.len() ==> word_fold(s).0[i].len() > 0,
        forall|i: int, j: int|
            0 <= i < word_fold(s).0.len() && 0 <= j < word_fold(s).0[i].len()
                ==> !spec_is_whitespace(word_fold(s).0[i][j]),
        forall|j: int| 0 <= j < word_fold(s).1.len() ==> !spec_is_whitespace(word_fold(s).1[j]),
    decreases s.len(),
{
    if s.len() > 0 {
        lemma_word_fold_shape(s.drop_last());
        let (done, cur) = word_fold(s.drop_last());
        if spec_is_whitespace(s.last()) {
            if cur.len() > 0 {
                assert forall|i: int| 0 <= i < done.push(cur).len() implies done.push(cur)[i].len()
                    > 0 by {
                    if i < done.len() {
                        assert(done.push(cur)[i] == done[i]);
                    }
                }
                assert forall|i: int, j: int|
                    0 <= i < done.push(cur).len() && 0 <= j < done.push(cur)[i].len()
                        implies !spec_is_whitespace(done.push(cur)[i][j]) by {
                    if i < done.len() {
                        assert(done.push(cur)[i] == done[i]);
                    }
                }
            }
        } else {
            assert forall|j: int| 0 <= j < cur.push(s.last()).len() implies !spec_is_whitespace(
                cur.push(s.last())[j],
            ) by {
                if j < cur.len() {
                    assert(cur.push(s.last())[j] == cur[j]);
                }
            }
        }
    }
}


/// A text without white space.
pub open spec fn unbroken(s: Seq<char>) -> bool {
    forall|i: int| 0 <= i < s.len() ==> !spec_is_whitespace(#[trigger] s[i])
}

/// A text without newline.
pub open spec fn one_line(s: Seq<char>) -> bool {
    forall|i: int| 0 <= i < s.len() ==> #[trigger] s[i] != '\n'
}

/// Reading more text after a point where no word is open adds the words of
/// that text.
proof fn lemma_word_fold_append(p: Seq<char>, y: Seq<char>)
    requires
        word_fold(p).1.len() == 0,
    ensures
        word_fold(p + y) == (word_fold(p).0 + word_fold(y).0, word_fold(y).1),
    decreases y.len(),
{
    if y.len() == 0 {
        assert(p + y =~= p);
        assert(word_fold(p).0 + Seq::<Seq<char>>::empty() =~= word_fold(p).0);
        assert(word_fold(p).1 =~= Seq::<char>::empty());
    } else {
        lemma_word_fold_append(p, y.drop_last());
        assert((p + y).drop_last() =~= p + y.drop_last());
        assert((p + y).last() == y.last());
        let (d, c) = word_fold(y.drop_last());
        if spec_is_whitespace(y.last()) && c.len() > 0 {
            assert(word_fold(p).0 + d.push(c) =~= (word_fold(p).0 + d).push(c));
        }
    }
}

/// A white-space character closes the word being read.
proof fn lemma_word_fold_space(a: Seq<char>, c: char)
    requires
        spec_is_whitespace(c),
    ensures
        word_fold(a.push(c)) == (spec_words(a), Seq::<char>::empty()),
{
    assert(a.push(c).drop_last() =~= a);
}

/// The words of two texts joined by a white-space character are the words
/// of the first followed by those of the second.
pub proof fn lemma_words_split_at_space(a: Seq<char>, c: char, b: Seq<char>)
    requires
        spec_is_whitespace(c),
    ensures
        spec_words(a + seq![c] + b) == spec_words(a) + spec_words(b),
{
    lemma_word_fold_space(a, c);
    assert(a + seq![c] + b =~= a.push(c) + b);
    lemma_word_fold_append(a.push(c), b);
    let (d, cur) = word_fold(b);
    if cur.len() > 0 {
        assert(spec_words(a) + d.push(cur) =~= (spec_words(a) + d).push(cur));
    }
}

/// A nonempty text without white space is one word.
pub proof fn lemma_words_of_unbroken(s: Seq<char>)
    requires
        unbroken(s),
    ensures
        word_fold(s) == (Seq::<Seq<char>>::empty(), s),
        s.len() > 0 ==> spec_words(s) == seq![s],
        s.len() == 0 ==> spec_words(s) == Seq::<Seq<char>>::empty(),
    decreases s.len(),
{
    if s.len() > 0 {
        assert(unbroken(s.drop_last())) by {
            assert forall|i: int| 0 <= i < s.drop_last().len() implies !spec_is_whitespace(
                #[trigger] s.drop_last()[i],
            ) by {
                assert(s.drop_last()[i] == s[i]);
            }
        }
        lemma_words_of_unbroken(s.drop_last());
        assert(!spec_is_whitespace(s[s.len() - 1]));
        assert(s.drop_last().push(s.last()) =~= s);
    }
}

/// Reading more text after a newline adds the pieces of that text.
proof fn lemma_newline_fold_append(p: Seq<char>, y: Seq<char>)
    requires
        newline_fold(p).1.len() == 0,
    ensures
        newline_fold(p + y) == (newline_fold(p).0 + newline_fold(y).0, newline_fold(y).1),
    decreases y.len(),
{
    if y.len() == 0 {
        assert(p + y =~= p);
        assert(newline_fold(p).0 + Seq::<Seq<char>>::empty() =~= newline_fold(p).0);
        assert(newline_fold(p).1 =~= Seq::<char>::empty());
    } else {
        lemma_newline_fold_append(p, y.drop_last());
        assert((p + y).drop_last() =~= p + y.drop_last());
        assert((p + y).last() == y.last());
        let (d, c) = newline_fold(y.drop_last());
        if y.last() == '\n' {
            assert(newline_fold(p).0 + d.push(c) =~= (newline_fold(p).0 + d).push(c));
        }
    }
}

/// Two texts joined by a newline split into the pieces of the first
/// followed by the pieces of the second.
pub proof fn lemma_split_newlines_join(a: Seq<char>, b: Seq<char>)
    ensures
        spec_split_newlines(a + seq!['\n'] + b) == spec_split_newlines(a) + spec_split_newlines(b),
{
    let an = a.push('\n');
    assert(an.drop_last() =~= a);
    assert(a + seq!['\n'] =~= an);
    lemma_newline_fold_append(an, b);
    let (da, ca) = newline_fold(a);
    let (db, cb) = newline_fold(b);
    assert(da.push(ca) + db.push(cb) =~= (da.push(ca) + db).push(cb));
}

/// A line without newline, closed by one, is one piece.
proof fn lemma_newline_fold_line(l: Seq<char>)
    requires
        one_line(l),
    ensures
        newline_fold(l) == (Seq::<Seq<char>>::empty(), l),
        newline_fold(l.push('\n')) == (seq![l], Seq::<char>::empty()),
    decreases l.len(),
{
    if l.len() > 0 {
        assert(one_line(l.drop_last())) by {
            assert forall|i: int| 0 <= i < l.drop_last().len() implies #[trigger] l.drop_last()[i]
                != '\n' by {
                assert(l.drop_last()[i] == l[i]);
            }
        }
        lemma_newline_fold_line(l.drop_last());
        assert(l[l.len() - 1] != '\n');
        assert(l.drop_last().push(l.last()) =~= l);
    }
    let m = l.push('\n');
    assert(m.drop_last() =~= l);
    assert(m.last() == '\n');
    assert(Seq::<Seq<char>>::empty().push(l) =~= seq![l]);
}

/// Text made of lines, each closed by a newline, splits into those lines
/// and one empty piece after the last newline.
pub proof fn lemma_split_closed_lines(before: Seq<char>, l: Seq<char>)
    requires
        newline_fold(before).1.len() == 0,
        one_line(l),
    ensures
        newline_fold(before + l.push('\n')) == (newline_fold(before).0.push(l), Seq::<char>::empty()),
{
    lemma_newline_fold_line(l);
    lemma_newline_fold_append(before, l.push('\n'));
    assert(newline_fold(before).0 + seq![l] =~= newline_fold(before).0.push(l));
}

/// Joining words after a first one from the second on is joining the rest.
pub proof fn lemma_join_shift(x: Seq<char>, w: Seq<Seq<char>>, j: int)
    requires
        0 <= j,
    ensures
        spec_join_from(seq![x] + w, j + 1) == spec_join_from(w, j),
    decreases w.len() - j,
{
    let v = seq![x] + w;
    if j < w.len() {
        assert(v[j + 1] == w[j]);
        if j < w.len() - 1 {
            lemma_join_shift(x, w, j + 1);
        }
    }
}

/// Words joined by spaces hold no newline.
pub proof fn lemma_join_one_line(ws: Seq<Seq<char>>, j: int)
    requires
        0 <= j,
        forall|q: int| 0 <= q < ws.len() ==> unbroken(#[trigger] ws[q]),
    ensures
        one_line(spec_join_from(ws, j)),
    decreases ws.len() - j,
{
    if j < ws.len() {
        let w = ws[j];
        assert(unbroken(w));
        assert(forall|q: int| 0 <= q < w.len() ==> #[trigger] w[q] != '\n');
        if j < ws.len() - 1 {
            lemma_join_one_line(ws, j + 1);
            let t = w + seq![' '] + spec_join_from(ws, j + 1);
            assert forall|q: int| 0 <= q < t.len() implies #[trigger] t[q] != '\n' by {
                if q < w.len() {
                    assert(t[q] == w[q]);
                } else if q > w.len() {
                    assert(t[q] == spec_join_from(ws, j + 1)[q - w.len() - 1]);
                }
            }
        }
    }
}

/// A word, a space and a text without newline make a text without newline.
pub proof fn lemma_one_line_after_word(m: Seq<char>, o: Seq<char>)
    requires
        unbroken(m),
        one_line(o),
    ensures
        one_line(m),
        one_line(m + seq![' '] + o),
{
    let t = m + seq![' '] + o;
    assert forall|q: int| 0 <= q < m.len() implies #[trigger] m[q] != '\n' by {
        assert(!spec_is_whitespace(m[q]));
    }
    assert forall|q: int| 0 <= q < t.len() implies #[trigger] t[q] != '\n' by {
        if q < m.len() {
            assert(t[q] == m[q]);
        } else if q > m.len() {
            assert(t[q] == o[q - m.len() - 1]);
        }
    }
}

/// Lines, each closed by a newline.
pub open spec fn closed_lines(ls: Seq<Seq<char>>) -> Seq<char>
    decreases ls.len(),
{
    if ls.len() == 0 {
        seq![]
    } else {
        closed_lines(ls.drop_last()) + ls.last().push('\n')
    }
}

/// Lines without newline, each closed by one, split back into those lines.
pub proof fn lemma_closed_lines_split(ls: Seq<Seq<char>>)
    requires
        forall|j: int| 0 <= j < ls.len() ==> one_line(#[trigger] ls[j]),
    ensures
        newline_fold(closed_lines(ls)) == (ls, Seq::<char>::empty()),
    decreases ls.len(),
{
    if ls.len() == 0 {
        assert(closed_lines(ls) =~= Seq::<char>::empty());
        assert(newline_fold(Seq::<char>::empty()) == (Seq::<Seq<char>>::empty(), Seq::<char>::empty()));
        assert(ls =~= Seq::<Seq<char>>::empty());
    } else {
        let p = ls.drop_last();
        assert forall|j: int| 0 <= j < p.len() implies one_line(#[trigger] p[j]) by {
            assert(p[j] == ls[j]);
        }
        lemma_closed_lines_split(p);
        assert(one_line(ls[ls.len() - 1]));
        lemma_split_closed_lines(closed_lines(p), ls.last());
        assert(p.push(ls.last()) =~= ls);
    }
}

/// A word, a space, then text made of words with single spaces: the
/// words are the first word and the words of the text, joining them from
/// the second on gives the text back, and there is no newline.
pub proof fn lemma_spaced_line(m: Seq<char>, t: Seq<char>)
    requires
        m.len() > 0,
        unbroken(m),
        spec_join_from(spec_words(t), 0) == t,
    ensures
        spec_words(m + seq![' '] + t) == seq![m] + spec_words(t),
        spec_join_from(seq![m] + spec_words(t), 1) == t,
        one_line(m + seq![' '] + t),
{
    lemma_words_of_unbroken(m);
    lemma_words_split_at_space(m, ' ', t);
    lemma_join_shift(m, spec_words(t), 0);
    lemma_words_are_nonempty_and_unbroken(t);
    let ws = spec_words(t);
    assert forall|q: int| 0 <= q < ws.len() implies unbroken(#[trigger] ws[q]) by {
        assert forall|r: int| 0 <= r < ws[q].len() implies !spec_is_whitespace(#[trigger] ws[q][r]) by {}
    }
    lemma_join_one_line(ws, 0);
    lemma_one_line_after_word(m, t);
}

/// A word, a space, then another word: two words, and no newline.
pub proof fn lemma_two_words(m: Seq<char>, o: Seq<char>)
    requires
        m.len() > 0,
        unbroken(m),
        o.len() > 0,
        unbroken(o),
    ensures
        spec_words(m + seq![' '] + o) == seq![m, o],
        one_line(m + seq![' '] + o),
{
    lemma_words_of_unbroken(m);
    lemma_words_of_unbroken(o);
    lemma_words_split_at_space(m, ' ', o);
    assert(seq![m] + seq![o] =~= seq![m, o]);
    assert forall|q: int| 0 <= q < o.len() implies #[trigger] o[q] != '\n' by {
        assert(!spec_is_whitespace(o[q]));
    }
    lemma_one_line_after_word(m, o);
}

/// A single word is one word, and no newline.
pub proof fn lemma_one_word(m: Seq<char>)
    requires
        m.len() > 0,
        unbroken(m),
    ensures
        spec_words(m) == seq![m],
        one_line(m),
{
    lemma_words_of_unbroken(m);
    lemma_one_line_after_word(m, seq![]);
}

} // verus!
