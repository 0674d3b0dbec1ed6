//! Mathematical model of a line-structured document.
//!
//! A document is a flat sequence of characters; its line structure is a
//! sequence of line contents, none of which contains a newline.  Joining the
//! line contents with a single newline between consecutive lines (and no
//! trailing newline) reconstructs the flat sequence.  The lemmas here relate
//! edits of the line structure to edits of the flat sequence.

use vstd::prelude::*;

verus! {

/// The flat text that a sequence of line contents denotes: the lines joined
/// by a single newline between consecutive lines, with no trailing newline.
pub open spec fn join_lines(ls: Seq<Seq<char>>) -> Seq<char>
    decreases ls.len(),
{
    if ls.len() == 0 {
        Seq::<char>::empty()
    } else if ls.len() == 1 {
        ls[0]
    } else {
        join_lines(ls.drop_last()) + seq!['\n'] + ls.last()
    }
}

/// Offset of the first character of line `l` within `join_lines(ls)`
/// (line `ls.len()` gets the offset one past the end, counting the
/// imaginary newline after the last line).
pub open spec fn line_start(ls: Seq<Seq<char>>, l: int) -> int
    decreases l,
{
    if l <= 0 {
        0
    } else {
        line_start(ls, l - 1) + ls[l - 1].len() + 1
    }
}

/// `s` with `c` inserted at position `p`.
pub open spec fn insert_at(s: Seq<char>, p: int, c: char) -> Seq<char> {
    s.take(p) + seq![c] + s.skip(p)
}

/// `s` with the characters of positions `[p, q)` removed.
pub open spec fn remove_range(s: Seq<char>, p: int, q: int) -> Seq<char> {
    s.take(p) + s.skip(q)
}

/// Number of newline characters among the first `p` characters of `s`.
pub open spec fn newline_count(s: Seq<char>, p: int) -> int
    decreases p,
{
    if p <= 0 {
        0
    } else {
        newline_count(s, p - 1) + if s[p - 1] == '\n' { 1int } else { 0int }
    }
}

/// Distance from position `p` back to the nearest newline before it (or to
/// the start of `s`): the column of a cursor standing at `p`.
pub open spec fn column_of(s: Seq<char>, p: int) -> int
    decreases p,
{
    if p <= 0 {
        0
    } else if s[p - 1] == '\n' {
        0
    } else {
        column_of(s, p - 1) + 1
    }
}

/// No line of `ls` contains a newline character.
pub open spec fn lines_have_no_newline(ls: Seq<Seq<char>>) -> bool {
    forall|i: int, j: int|
        0 <= i < ls.len() && 0 <= j < ls[i].len() ==> (#[trigger] ls[i][j]) != '\n'
}

/// `line_start` of line `l` depends only on the lines before `l`.
pub proof fn lemma_line_start_prefix(ls1: Seq<Seq<char>>, ls2: Seq<Seq<char>>, l: int)
    requires
        0 <= l <= ls1.len(),
        l <= ls2.len(),
        forall|j: int| 0 <= j < l ==> ls1[j] == ls2[j],
    ensures
        line_start(ls1, l) == line_start(ls2, l),
    decreases l,
{
    if l > 0 {
        lemma_line_start_prefix(ls1, ls2, l - 1);
    }
}

/// Line starts never decrease, and never lie before line `l` itself.
pub proof fn lemma_line_start_bounds(ls: Seq<Seq<char>>, l: int)
    requires
        0 <= l <= ls.len(),
    ensures
        l <= line_start(ls, l),
        forall|k: int| 0 <= k <= l ==> #[trigger] line_start(ls, k) <= line_start(ls, l),
    decreases l,
{
    if l > 0 {
        lemma_line_start_bounds(ls, l - 1);
    }
}

/// Joining a concatenation of two non-empty line sequences joins the parts
/// around a single newline.
pub proof fn lemma_join_concat(a: Seq<Seq<char>>, b: Seq<Seq<char>>)
    requires
        a.len() > 0,
        b.len() > 0,
    ensures
        join_lines(a + b) == join_lines(a) + seq!['\n'] + join_lines(b),
    decreases b.len(),
{
    if b.len() == 1 {
        assert((a + b).drop_last() =~= a);
        assert((a + b).last() == b[0]);
        if a.len() == 1 {
            assert(join_lines(a) == a[0]);
        }
        assert(join_lines(b) == b[0]);
    } else {
        lemma_join_concat(a, b.drop_last());
        assert((a + b).drop_last() =~= a + b.drop_last());
        assert((a + b).last() == b.last());
        assert(join_lines(a + b) == join_lines(a + b.drop_last()) + seq!['\n'] + b.last());
        assert(join_lines(a) + seq!['\n'] + join_lines(b) =~= join_lines(a) + seq!['\n']
            + join_lines(b.drop_last()) + seq!['\n'] + b.last());
    }
}

/// The joined text's length, in terms of the line starts.
pub proof fn lemma_join_len(ls: Seq<Seq<char>>)
    requires
        ls.len() >= 1,
    ensures
        join_lines(ls).len() == line_start(ls, ls.len() as int) - 1,
    decreases ls.len(),
{
    assert(line_start(ls, ls.len() as int) == line_start(ls, ls.len() - 1) + ls[ls.len() - 1].len()
        + 1);
    if ls.len() == 1 {
        assert(line_start(ls, 0) == 0);
    } else {
        lemma_join_len(ls.drop_last());
        assert(forall|j: int| 0 <= j < ls.len() - 1 ==> ls.drop_last()[j] == ls[j]);
        lemma_line_start_prefix(ls.drop_last(), ls, ls.len() - 1);
    }
}

/// The text before line `l` in the joined document: everything up to and
/// including the newline that precedes line `l`.
pub open spec fn join_prefix(ls: Seq<Seq<char>>, l: int) -> Seq<char> {
    if l == 0 {
        Seq::<char>::empty()
    } else {
        join_lines(ls.take(l)) + seq!['\n']
    }
}

/// The text after line `l` in the joined document: the newline that follows
/// line `l` (if any) and everything beyond it.
pub open spec fn join_suffix(ls: Seq<Seq<char>>, l: int) -> Seq<char> {
    if l == ls.len() - 1 {
        Seq::<char>::empty()
    } else {
        seq!['\n'] + join_lines(ls.skip(l + 1))
    }
}

/// The joined document decomposes around any one line, and the prefix's
/// length is that line's start offset.
pub proof fn lemma_join_decompose(ls: Seq<Seq<char>>, l: int)
    requires
        0 <= l < ls.len(),
    ensures
        join_lines(ls) == join_prefix(ls, l) + ls[l] + join_suffix(ls, l),
        join_prefix(ls, l).len() == line_start(ls, l),
    decreases ls.len(),
{
    if l == 0 {
        if ls.len() == 1 {
            assert(join_lines(ls) =~= ls[0] + join_suffix(ls, 0));
            assert(join_lines(ls) =~= join_prefix(ls, 0) + ls[0] + join_suffix(ls, 0));
        } else {
            assert(ls =~= seq![ls[0]] + ls.skip(1));
            lemma_join_concat(seq![ls[0]], ls.skip(1));
            assert(join_lines(seq![ls[0]]) == ls[0]);
            assert(join_lines(ls) =~= ls[0] + (seq!['\n'] + join_lines(ls.skip(1))));
            assert(join_lines(ls) =~= join_prefix(ls, 0) + ls[0] + join_suffix(ls, 0));
        }
    } else if l == ls.len() - 1 {
        assert(ls =~= ls.take(l) + seq![ls[l]]);
        lemma_join_concat(ls.take(l), seq![ls[l]]);
        assert(join_lines(ls) =~= (join_lines(ls.take(l)) + seq!['\n']) + ls[l]);
        assert(join_lines(ls) =~= join_prefix(ls, l) + ls[l] + join_suffix(ls, l));
        lemma_join_len(ls.take(l));
        lemma_line_start_prefix(ls.take(l), ls, l);
    } else {
        assert(ls =~= ls.take(l + 1) + ls.skip(l + 1));
        lemma_join_concat(ls.take(l + 1), ls.skip(l + 1));
        assert(ls.take(l + 1) =~= ls.take(l) + seq![ls[l]]);
        lemma_join_concat(ls.take(l), seq![ls[l]]);
        assert(join_lines(ls.take(l + 1)) =~= (join_lines(ls.take(l)) + seq!['\n']) + ls[l]);
        assert(join_lines(ls) =~= join_prefix(ls, l) + ls[l] + join_suffix(ls, l));
        lemma_join_len(ls.take(l));
        lemma_line_start_prefix(ls.take(l), ls, l);
    }
}

/// Counting newlines over a longer prefix never counts fewer.
pub proof fn lemma_newline_count_monotone(s: Seq<char>, p: int, q: int)
    requires
        p <= q,
    ensures
        newline_count(s, p) <= newline_count(s, q),
    decreases q - p,
{
    if p < q {
        lemma_newline_count_monotone(s, p, q - 1);
    }
}

/// The decimal digit character for a value below ten.
pub open spec fn digit_char(d: int) -> char {
    if d == 0 {
        '0'
    } else if d == 1 {
        '1'
    } else if d == 2 {
        '2'
    } else if d == 3 {
        '3'
    } else if d == 4 {
        '4'
    } else if d == 5 {
        '5'
    } else if d == 6 {
        '6'
    } else if d == 7 {
        '7'
    } else if d == 8 {
        '8'
    } else {
        '9'
    }
}

/// The decimal digit characters of `n`, most significant first.
pub open spec fn dec_digits(n: int) -> Seq<char>
    decreases n,
{
    if n < 10 {
        seq![digit_char(n)]
    } else {
        dec_digits(n / 10).push(digit_char(n % 10))
    }
}

/// Where a vertical cursor move lands, if anywhere: the cursor must stand on
/// a character of some line, the adjacent line must exist, and the position
/// one character into that line must still be inside the document;
/// otherwise the move is a no-op.
pub open spec fn vertical_target(
    s: Seq<char>,
    ls: Seq<Seq<char>>,
    cursor: int,
    up: bool,
) -> Option<int> {
    if cursor >= s.len() {
        None
    } else {
        let cur = newline_count(s, cursor);
        let tgt = if up {
            cur - 1
        } else {
            cur + 1
        };
        if 0 <= tgt < ls.len() && line_start(ls, tgt) + 1 <= s.len() {
            Some(line_start(ls, tgt) + 1)
        } else {
            None
        }
    }
}

/// Replacing the columns `[c1, c2)` of line `l` by `mid` splices `mid` into
/// the joined document at the corresponding absolute positions.
pub proof fn lemma_join_splice_line(ls: Seq<Seq<char>>, l: int, c1: int, c2: int, mid: Seq<char>)
    requires
        0 <= l < ls.len(),
        0 <= c1 <= c2 <= ls[l].len(),
    ensures
        join_lines(ls.update(l, ls[l].take(c1) + mid + ls[l].skip(c2))) == join_lines(ls).take(
            line_start(ls, l) + c1,
        ) + mid + join_lines(ls).skip(line_start(ls, l) + c2),
{
    let d = ls[l];
    let d2 = d.take(c1) + mid + d.skip(c2);
    let ls2 = ls.update(l, d2);
    let t = join_lines(ls);
    let start = line_start(ls, l);
    lemma_join_decompose(ls, l);
    lemma_join_decompose(ls2, l);
    assert(ls2.take(l) =~= ls.take(l));
    assert(ls2.skip(l + 1) =~= ls.skip(l + 1));
    assert(join_prefix(ls2, l) == join_prefix(ls, l));
    assert(join_suffix(ls2, l) == join_suffix(ls, l));
    let p = join_prefix(ls, l);
    let s = join_suffix(ls, l);
    assert(t.take(start + c1) =~= p + d.take(c1));
    assert(t.skip(start + c2) =~= d.skip(c2) + s);
    assert(join_lines(ls2) =~= (p + d.take(c1)) + mid + (d.skip(c2) + s));
}

/// Splitting line `l` at column `c` into two lines inserts a newline into
/// the joined document at the corresponding absolute position.
pub proof fn lemma_join_split_line(ls: Seq<Seq<char>>, l: int, c: int)
    requires
        0 <= l < ls.len(),
        0 <= c <= ls[l].len(),
    ensures
        join_lines(ls.take(l) + seq![ls[l].take(c), ls[l].skip(c)] + ls.skip(l + 1)) == insert_at(
            join_lines(ls),
            line_start(ls, l) + c,
            '\n',
        ),
{
    let d = ls[l];
    let ls2 = ls.take(l) + seq![d.take(c), d.skip(c)] + ls.skip(l + 1);
    let t = join_lines(ls);
    let start = line_start(ls, l);
    lemma_join_decompose(ls, l);
    lemma_join_decompose(ls2, l);
    assert(ls2[l] == d.take(c));
    assert(ls2.take(l) =~= ls.take(l));
    assert(ls2.skip(l + 1) =~= seq![d.skip(c)] + ls.skip(l + 1));
    assert(join_prefix(ls2, l) == join_prefix(ls, l)) by {
        lemma_line_start_prefix(ls2, ls, l);
    }
    let p = join_prefix(ls, l);
    let s = join_suffix(ls, l);
    assert(l < ls2.len() - 1);
    if l == ls.len() - 1 {
        assert(ls.skip(l + 1).len() == 0);
        assert(ls2.skip(l + 1) =~= seq![d.skip(c)]);
        assert(join_lines(ls2.skip(l + 1)) == d.skip(c));
        assert(join_suffix(ls2, l) == seq!['\n'] + d.skip(c));
        assert(s =~= Seq::<char>::empty());
    } else {
        lemma_join_concat(seq![d.skip(c)], ls.skip(l + 1));
        assert(join_lines(seq![d.skip(c)]) == d.skip(c));
        assert(join_suffix(ls2, l) == seq!['\n'] + (d.skip(c) + (seq!['\n'] + join_lines(
            ls.skip(l + 1),
        ))));
    }
    assert(t.take(start + c) =~= p + d.take(c));
    assert(t.skip(start + c) =~= d.skip(c) + s);
    assert(join_lines(ls2) =~= (p + d.take(c)) + seq!['\n'] + (d.skip(c) + s));
}

/// Merging line `l` into line `l - 1`, keeping only its content from column
/// `off` on, removes from the joined document the separating newline and the
/// first `off` characters of line `l`.
#[verifier::rlimit(100)]
pub proof fn lemma_join_merge_lines(ls: Seq<Seq<char>>, l: int, off: int)
    requires
        1 <= l < ls.len(),
        0 <= off <= ls[l].len(),
    ensures
        join_lines(ls.take(l - 1) + seq![ls[l - 1] + ls[l].skip(off)] + ls.skip(l + 1))
            == remove_range(join_lines(ls), line_start(ls, l) - 1, line_start(ls, l) + off),
{
    let d = ls[l];
    let ls2 = ls.take(l - 1) + seq![ls[l - 1] + d.skip(off)] + ls.skip(l + 1);
    let t = join_lines(ls);
    let start = line_start(ls, l);
    lemma_join_decompose(ls, l - 1);
    lemma_join_decompose(ls, l);
    lemma_join_decompose(ls2, l - 1);
    assert(ls2[l - 1] == ls[l - 1] + d.skip(off));
    assert(ls2.take(l - 1) =~= ls.take(l - 1));
    assert(ls2.skip(l) =~= ls.skip(l + 1));
    assert(join_prefix(ls2, l - 1) == join_prefix(ls, l - 1)) by {
        lemma_line_start_prefix(ls2, ls, l - 1);
    }
    let p = join_prefix(ls, l - 1);
    let s = join_suffix(ls, l);
    assert(join_suffix(ls2, l - 1) == s) by {
        if l == ls.len() - 1 {
            assert(l - 1 == ls2.len() - 1);
        } else {
            assert(ls2.skip(l) =~= ls.skip(l + 1));
        }
    }
    // the document around line l - 1 and line l
    assert(join_suffix(ls, l - 1) == seq!['\n'] + join_lines(ls.skip(l)));
    assert(join_lines(ls.skip(l)) == d + s) by {
        if l == ls.len() - 1 {
            assert(ls.skip(l) =~= seq![d]);
            assert(join_lines(ls.skip(l)) == d);
            assert(d + s =~= d);
        } else {
            assert(ls.skip(l) =~= seq![d] + ls.skip(l + 1));
            lemma_join_concat(seq![d], ls.skip(l + 1));
            assert(join_lines(seq![d]) == d);
        }
    }
    assert(t == p + ls[l - 1] + (seq!['\n'] + (d + s)));
    assert(line_start(ls, l) == line_start(ls, l - 1) + ls[l - 1].len() + 1);
    assert(join_prefix(ls, l - 1).len() == line_start(ls, l - 1));
    assert(t.take(start - 1) =~= p + ls[l - 1]) by {
        assert(t == p + ls[l - 1] + (seq!['\n'] + (d + s)));
    }
    assert(t.skip(start + off) =~= d.skip(off) + s) by {
        assert(t == p + ls[l - 1] + (seq!['\n'] + (d + s)));
    }
    assert(join_lines(ls2) =~= (p + ls[l - 1]) + (d.skip(off) + s)) by {
        assert(join_lines(ls2) == p + (ls[l - 1] + d.skip(off)) + s);
    }
}

/// Inside the joined document, position `line_start(ls, l) + j` carries the
/// `j`-th character of line `l`, the position just before a line carries a
/// newline, and so does the position just after it (for lines that are not
/// the last).
pub proof fn lemma_join_chars(ls: Seq<Seq<char>>, l: int)
    requires
        0 <= l < ls.len(),
    ensures
        forall|j: int|
            0 <= j < ls[l].len() ==> join_lines(ls)[line_start(ls, l) + j] == ls[l][j],
        l > 0 ==> join_lines(ls)[line_start(ls, l) - 1] == '\n',
        l < ls.len() - 1 ==> join_lines(ls)[line_start(ls, l) + ls[l].len()] == '\n',
{
    lemma_join_decompose(ls, l);
    let p = join_prefix(ls, l);
    let s = join_suffix(ls, l);
    assert(forall|j: int|
        0 <= j < ls[l].len() ==> (p + ls[l] + s)[line_start(ls, l) + j] == ls[l][j]);
}

/// When no line contains a newline, the number of newlines before position
/// `line_start(ls, l) + j` of the joined document, for a column `j` within
/// line `l`, is exactly `l`: the separators of the earlier lines.
pub proof fn lemma_newline_count_at(ls: Seq<Seq<char>>, l: int, j: int)
    requires
        lines_have_no_newline(ls),
        0 <= l < ls.len(),
        0 <= j <= ls[l].len(),
    ensures
        newline_count(join_lines(ls), line_start(ls, l) + j) == l,
    decreases l, j,
{
    let t = join_lines(ls);
    let start = line_start(ls, l);
    lemma_line_start_bounds(ls, l);
    if j == 0 {
        if l == 0 {
        } else {
            lemma_newline_count_at(ls, l - 1, ls[l - 1].len() as int);
            lemma_join_chars(ls, l);
            assert(start == line_start(ls, l - 1) + ls[l - 1].len() + 1);
            assert(t[start - 1] == '\n');
            assert(newline_count(t, start) == newline_count(t, start - 1) + 1);
        }
    } else {
        lemma_newline_count_at(ls, l, j - 1);
        lemma_join_chars(ls, l);
        assert(t[start + j - 1] == ls[l][j - 1]);
        assert(ls[l][j - 1] != '\n');
        assert(newline_count(t, start + j) == newline_count(t, start + j - 1));
    }
}

} // verus!
