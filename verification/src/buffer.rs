//! The buffer: document text, cursor, and the derived line cache.

use vstd::prelude::*;
use gapbuffer::GapBuffer;
use crate::direction::Direction;
use crate::model::column_of;
use crate::model::insert_at;
use crate::model::join_lines;
use crate::model::lemma_join_concat;
use crate::model::lemma_join_len;
use crate::model::lemma_line_start_bounds;
use crate::model::line_start;
use crate::model::lines_have_no_newline;
use crate::model::newline_count;
use crate::model::remove_range;
use crate::model::vertical_target;
use crate::model::dec_digits;
use crate::model::digit_char;
use crate::model::lemma_newline_count_at;
use crate::model::lemma_newline_count_monotone;
use crate::model::lemma_join_splice_line;
use crate::model::lemma_join_split_line;
use crate::model::lemma_join_merge_lines;
use crate::storage::gap_chars;
use crate::storage::gap_char_at;
use crate::storage::gap_insert;
use crate::storage::gap_len;
use crate::storage::gap_new;
use crate::storage::gap_remove;

verus! {

/// One cached line of the document: its content without the terminating
/// newline, and its index in the line cache.
pub struct Line {
    pub data: Vec<char>,
    pub line_num: usize,
}

impl Line {
    /// Create a new line instance.
    pub fn new(data: Vec<char>, line_num: usize) -> (r: Line)
        ensures
            r.data == data,
            r.line_num == line_num,
    {
        Line { data, line_num }
    }

    /// Get the length of the current line.
    pub fn len(&self) -> (n: usize)
        ensures
            n == self.data@.len(),
    {
        self.data.len()
    }
}

/// The text-storage core: the document's characters, an editing cursor, and
/// a per-line cache kept consistent with the text.
pub struct Buffer {
    pub file_path: Option<String>,
    pub lines: Vec<Line>,
    pub cursor: usize,
    pub text: GapBuffer<char>,
}

impl Buffer {
    /// The document text as a character sequence.
    pub open spec fn text_view(&self) -> Seq<char> {
        gap_chars(self.text)
    }

    /// The line cache as a sequence of line contents.
    pub open spec fn lines_view(&self) -> Seq<Seq<char>> {
        self.lines@.map_values(|l: Line| l.data@)
    }

    /// The buffer's invariants: the cursor is inside the document, there is
    /// at least one cached line, no cached line contains a newline, joining
    /// the cached lines with newlines reconstructs the text exactly, and
    /// line numbers are sequential.
    pub open spec fn wf(&self) -> bool {
        &&& self.lines.len() >= 1
        &&& self.cursor <= self.text_view().len()
        &&& self.text_view() == join_lines(self.lines_view())
        &&& lines_have_no_newline(self.lines_view())
        &&& forall|i: int|
            0 <= i < self.lines.len() ==> (#[trigger] self.lines[i].line_num) == i
    }

    /// Create a new, empty buffer instance.
    pub fn new() -> (r: Buffer)
        ensures
            r.wf(),
            r.file_path is None,
            r.cursor == 0,
            r.text_view() == Seq::<char>::empty(),
            r.lines_view() =~= seq![Seq::<char>::empty()],
    {
        let mut lines: Vec<Line> = Vec::new();
        lines.push(Line { data: Vec::new(), line_num: 0 });
        let r = Buffer { file_path: None, lines, cursor: 0, text: gap_new() };
        proof {
            assert(r.lines_view() =~= seq![Seq::<char>::empty()]);
            assert(join_lines(r.lines_view()) =~= Seq::<char>::empty());
        }
        r
    }

    /// Create a buffer holding the given characters, with the line cache
    /// derived by splitting on newlines and the cursor at the start.
    pub fn new_from_text(chars: Vec<char>) -> (r: Buffer)
        ensures
            r.wf(),
            r.file_path is None,
            r.cursor == 0,
            r.text_view() == chars@,
    {
        let mut text = gap_new();
        let mut i: usize = 0;
        while i < chars.len()
            invariant
                i <= chars@.len(),
                gap_chars(text) =~= chars@.take(i as int),
            decreases chars@.len() - i,
        {
            gap_insert(&mut text, i, chars[i]);
            proof {
                assert(chars@.take(i as int).skip(i as int) =~= Seq::<char>::empty());
                assert(gap_chars(text) =~= chars@.take(i + 1));
            }
            i = i + 1;
        }
        let mut lines: Vec<Line> = Vec::new();
        let mut cur: Vec<char> = Vec::new();
        let mut j: usize = 0;
        while j < chars.len()
            invariant
                j <= chars@.len(),
                join_lines(lines@.map_values(|l: Line| l.data@) + seq![cur@]) =~= chars@.take(
                    j as int,
                ),
                lines_have_no_newline(lines@.map_values(|l: Line| l.data@) + seq![cur@]),
                forall|k: int|
                    0 <= k < lines@.len() ==> (#[trigger] lines@[k].line_num) == k,
            decreases chars@.len() - j,
        {
            let ghost lsv = lines@.map_values(|l: Line| l.data@);
            let ghost oldcur = cur@;
            let c = chars[j];
            if c == '\n' {
                let ln = lines.len();
                lines.push(Line { data: cur, line_num: ln });
                cur = Vec::new();
                proof {
                    let lsv2 = lines@.map_values(|l: Line| l.data@);
                    assert(lsv2 =~= lsv + seq![oldcur]);
                    lemma_join_concat(lsv + seq![oldcur], seq![cur@]);
                    assert(lsv2 + seq![cur@] =~= (lsv + seq![oldcur]) + seq![cur@]);
                    assert(join_lines(lsv2 + seq![cur@]) =~= chars@.take(j as int) + seq!['\n']);
                    assert(join_lines(lsv2 + seq![cur@]) =~= chars@.take(j + 1));
                    assert(lines_have_no_newline(lsv2 + seq![cur@]));
                }
            } else {
                cur.push(c);
                proof {
                    assert(lsv + seq![cur@] =~= (lsv + seq![oldcur]).update(
                        lsv.len() as int,
                        oldcur.push(c),
                    ));
                    if lsv.len() == 0 {
                        assert(lsv + seq![cur@] =~= seq![cur@]);
                        assert(lsv + seq![oldcur] =~= seq![oldcur]);
                        assert(join_lines(lsv + seq![cur@]) =~= chars@.take(j + 1));
                    } else {
                        lemma_join_concat(lsv, seq![oldcur]);
                        lemma_join_concat(lsv, seq![cur@]);
                        assert(lsv + seq![oldcur] =~= lsv.push(oldcur));
                        assert(join_lines(seq![cur@]) == cur@);
                        assert(join_lines(lsv + seq![cur@]) =~= chars@.take(j + 1));
                    }
                    assert(lines_have_no_newline(lsv + seq![cur@]));
                }
            }
            j = j + 1;
        }
        let ghost lsv_end = lines@.map_values(|l: Line| l.data@);
        let ghost cur_end = cur@;
        let ln = lines.len();
        lines.push(Line { data: cur, line_num: ln });
        let r = Buffer { file_path: None, lines, cursor: 0, text };
        proof {
            assert(chars@.take(chars@.len() as int) =~= chars@);
            assert(r.lines_view() =~= lsv_end + seq![cur_end]);
            assert(r.text_view() == chars@);
            assert(join_lines(r.lines_view()) == chars@);
        }
        r
    }

    /// The document's characters, in order.
    pub fn text_chars(&self) -> (r: Vec<char>)
        ensures
            r@ == self.text_view(),
    {
        let n = gap_len(&self.text);
        let mut r: Vec<char> = Vec::new();
        let mut i: usize = 0;
        while i < n
            invariant
                i <= n,
                n == self.text_view().len(),
                r@ =~= self.text_view().take(i as int),
            decreases n - i,
        {
            r.push(gap_char_at(&self.text, i));
            proof {
                assert(r@ =~= self.text_view().take(i + 1));
            }
            i = i + 1;
        }
        proof {
            assert(self.text_view().take(n as int) =~= self.text_view());
        }
        r
    }

    /// The line index and column that the given absolute offset falls at:
    /// the offset sits `r.1` characters into line `r.0`.
    fn find_line_col(&self, offset: usize) -> (r: (usize, usize))
        requires
            self.wf(),
            offset <= self.text_view().len(),
        ensures
            (r.0 as int) < self.lines@.len(),
            (r.1 as int) <= self.lines@[r.0 as int].data@.len(),
            offset == line_start(self.lines_view(), r.0 as int) + r.1,
    {
        proof {
            lemma_join_len(self.lines_view());
            lemma_line_start_bounds(self.lines_view(), self.lines@.len() as int);
        }
        let text_len = gap_len(&self.text);
        let mut ln: usize = 0;
        let mut start: usize = 0;
        loop
            invariant
                self.wf(),
                offset <= text_len,
                text_len == self.text_view().len(),
                (ln as int) < self.lines@.len(),
                start == line_start(self.lines_view(), ln as int),
                start <= offset,
                self.text_view().len() == line_start(
                    self.lines_view(),
                    self.lines@.len() as int,
                ) - 1,
                forall|k: int|
                    0 <= k <= self.lines@.len() ==> #[trigger] line_start(self.lines_view(), k)
                        <= line_start(self.lines_view(), self.lines@.len() as int),
            decreases self.lines@.len() - ln,
        {
            let len_ln = self.lines[ln].data.len();
            proof {
                assert(self.lines_view()[ln as int] == self.lines@[ln as int].data@);
                assert(line_start(self.lines_view(), ln + 1) == start + len_ln + 1);
            }
            if offset <= start + len_ln {
                return (ln, offset - start);
            }
            proof {
                if ln + 1 == self.lines@.len() {
                    assert(false);
                }
            }
            start = start + len_ln + 1;
            ln = ln + 1;
        }
    }

    /// The absolute character offset at which line `ln` starts.
    fn line_start_offset(&self, ln: usize) -> (r: usize)
        requires
            self.wf(),
            (ln as int) < self.lines@.len(),
        ensures
            r == line_start(self.lines_view(), ln as int),
            r <= self.text_view().len(),
    {
        proof {
            lemma_join_len(self.lines_view());
            lemma_line_start_bounds(self.lines_view(), self.lines@.len() as int);
            lemma_line_start_bounds(self.lines_view(), self.lines@.len() - 1);
        }
        let _text_len = gap_len(&self.text);
        let mut start: usize = 0;
        let mut i: usize = 0;
        while i < ln
            invariant
                self.wf(),
                i <= ln,
                (ln as int) < self.lines@.len(),
                start == line_start(self.lines_view(), i as int),
                self.text_view().len() == line_start(
                    self.lines_view(),
                    self.lines@.len() as int,
                ) - 1,
                forall|k: int|
                    0 <= k <= self.lines@.len() - 1 ==> #[trigger] line_start(
                        self.lines_view(),
                        k,
                    ) <= line_start(self.lines_view(), self.lines@.len() - 1),
                line_start(self.lines_view(), self.lines@.len() - 1) <= self.text_view().len(),
                self.text_view().len() <= usize::MAX,
            decreases ln - i,
        {
            let len_i = self.lines[i].data.len();
            proof {
                assert(self.lines_view()[i as int] == self.lines@[i as int].data@);
                assert(line_start(self.lines_view(), i + 1) == start + len_i + 1);
                lemma_line_start_bounds(self.lines_view(), ln as int);
            }
            start = start + len_i + 1;
            i = i + 1;
        }
        proof {
            lemma_line_start_bounds(self.lines_view(), self.lines@.len() - 1);
        }
        start
    }

    /// Rewrite the cached line numbers from index `from` on so that each
    /// equals its index.
    fn renumber_from(&mut self, from: usize)
        requires
            from <= old(self).lines@.len(),
        ensures
            final(self).lines@.len() == old(self).lines@.len(),
            forall|i: int| 0 <= i < from ==> final(self).lines@[i] == old(self).lines@[i],
            forall|i: int|
                from <= i < final(self).lines@.len() ==> (#[trigger] final(self).lines@[i].data)
                    == old(self).lines@[i].data,
            forall|i: int|
                from <= i < final(self).lines@.len() ==> (#[trigger] final(self).lines@[i].line_num) == i,
            final(self).text == old(self).text,
            final(self).cursor == old(self).cursor,
            final(self).file_path == old(self).file_path,
    {
        let mut i = from;
        while i < self.lines.len()
            invariant
                from <= i <= self.lines@.len(),
                self.lines@.len() == old(self).lines@.len(),
                forall|j: int| 0 <= j < from ==> self.lines@[j] == old(self).lines@[j],
                forall|j: int|
                    from <= j < self.lines@.len() ==> (#[trigger] self.lines@[j].data)
                        == old(self).lines@[j].data,
                forall|j: int|
                    from <= j < i ==> (#[trigger] self.lines@[j].line_num) == j,
                self.text == old(self).text,
                self.cursor == old(self).cursor,
                self.file_path == old(self).file_path,
            decreases self.lines@.len() - i,
        {
            self.lines[i].line_num = i;
            i = i + 1;
        }
    }

    /// Split cached line `ln` at column `col` into two consecutive cached
    /// lines, renumbering what follows.  The text is not touched.
    fn split_cached_line(&mut self, ln: usize, col: usize)
        requires
            (ln as int) < old(self).lines@.len(),
            (col as int) <= old(self).lines@[ln as int].data@.len(),
            forall|i: int|
                0 <= i < old(self).lines@.len() ==> (#[trigger] old(self).lines@[i].line_num)
                    == i,
        ensures
            final(self).lines_view() =~= old(self).lines_view().take(ln as int) + seq![
                old(self).lines_view()[ln as int].take(col as int),
                old(self).lines_view()[ln as int].skip(col as int),
            ] + old(self).lines_view().skip(ln + 1),
            forall|i: int|
                0 <= i < final(self).lines@.len() ==> (#[trigger] final(self).lines@[i].line_num) == i,
            final(self).lines@.len() == old(self).lines@.len() + 1,
            final(self).text == old(self).text,
            final(self).cursor == old(self).cursor,
            final(self).file_path == old(self).file_path,
    {
        let n = self.lines.len();
        let suffix: Vec<char> = self.lines[ln].data.split_off(col);
        let nln = ln + 1;
        proof {
            assert(nln <= n);
        }
        self.lines.insert(nln, Line { data: suffix, line_num: nln });
        self.renumber_from(nln);
        proof {
            assert forall|i: int| 0 <= i < self.lines@.len() implies (
            #[trigger] self.lines@[i].line_num) == i by {
                if i < nln {
                }
            }
            assert(self.lines_view() =~= old(self).lines_view().take(ln as int) + seq![
                old(self).lines_view()[ln as int].take(col as int),
                old(self).lines_view()[ln as int].skip(col as int),
            ] + old(self).lines_view().skip(ln + 1));
        }
    }

    /// Merge cached line `ln` into the line before it, keeping only its
    /// content from column `off` on, and renumber what follows.  The text is
    /// not touched.
    fn merge_cached_line(&mut self, ln: usize, off: usize)
        requires
            1 <= ln < old(self).lines@.len(),
            (off as int) <= old(self).lines@[ln as int].data@.len(),
            forall|i: int|
                0 <= i < old(self).lines@.len() ==> (#[trigger] old(self).lines@[i].line_num)
                    == i,
        ensures
            final(self).lines_view() =~= old(self).lines_view().take(ln - 1) + seq![
                old(self).lines_view()[ln - 1] + old(self).lines_view()[ln as int].skip(
                    off as int,
                ),
            ] + old(self).lines_view().skip(ln + 1),
            forall|i: int|
                0 <= i < final(self).lines@.len() ==> (#[trigger] final(self).lines@[i].line_num) == i,
            final(self).lines@.len() == old(self).lines@.len() - 1,
            final(self).text == old(self).text,
            final(self).cursor == old(self).cursor,
            final(self).file_path == old(self).file_path,
    {
        let removed: Line = self.lines.remove(ln);
        let mut tail = removed.data;
        let mut suffix = tail.split_off(off);
        self.lines[ln - 1].data.append(&mut suffix);
        self.renumber_from(ln - 1);
        proof {
            assert(self.lines_view() =~= old(self).lines_view().take(ln - 1) + seq![
                old(self).lines_view()[ln - 1] + old(self).lines_view()[ln as int].skip(
                    off as int,
                ),
            ] + old(self).lines_view().skip(ln + 1));
        }
    }

    /// Move the cursor by `delta` characters, but only if the result stays
    /// within the document; an out-of-range move leaves it unchanged.
    pub fn move_cursor(&mut self, delta: isize)
        requires
            old(self).wf(),
        ensures
            final(self).wf(),
            final(self).text == old(self).text,
            final(self).lines == old(self).lines,
            final(self).file_path == old(self).file_path,
            0 <= old(self).cursor + delta <= old(self).text_view().len() ==> final(self).cursor
                == old(self).cursor + delta,
            !(0 <= old(self).cursor + delta <= old(self).text_view().len()) ==> final(self).cursor == old(self).cursor,
    {
        let len = gap_len(&self.text);
        if delta >= 0 {
            let d = delta as usize;
            if d <= len - self.cursor {
                self.cursor = self.cursor + d;
            }
        } else {
            let below: usize = (-(delta + 1)) as usize;
            if self.cursor > below {
                self.cursor = self.cursor - below - 1;
            }
        }
    }

    /// Place the cursor at the given offset, if it lies within the
    /// document; otherwise leave it unchanged.
    pub fn set_cursor(&mut self, location: usize)
        requires
            old(self).wf(),
        ensures
            final(self).wf(),
            final(self).text == old(self).text,
            final(self).lines == old(self).lines,
            final(self).file_path == old(self).file_path,
            location <= old(self).text_view().len() ==> final(self).cursor == location,
            location > old(self).text_view().len() ==> final(self).cursor == old(self).cursor,
    {
        let len = gap_len(&self.text);
        if location <= len {
            self.cursor = location;
        }
    }

    /// Move the cursor to the line above or below: if the cursor stands on
    /// a line and the adjacent line exists, land one character into it.
    fn move_line(&mut self, up: bool)
        requires
            old(self).wf(),
        ensures
            final(self).wf(),
            final(self).text == old(self).text,
            final(self).lines == old(self).lines,
            final(self).file_path == old(self).file_path,
            final(self).cursor == (match vertical_target(
                old(self).text_view(),
                old(self).lines_view(),
                old(self).cursor as int,
                up,
            ) {
                Some(p) => p,
                None => old(self).cursor as int,
            }),
    {
        let len = gap_len(&self.text);
        if self.cursor >= len {
            return ;
        }
        let (ln, col) = self.find_line_col(self.cursor);
        proof {
            lemma_newline_count_at(self.lines_view(), ln as int, col as int);
        }
        let tgt: usize;
        if up {
            if ln == 0 {
                return ;
            }
            tgt = ln - 1;
        } else {
            if ln + 1 >= self.lines.len() {
                return ;
            }
            tgt = ln + 1;
        }
        let s = self.line_start_offset(tgt);
        if s < len {
            self.cursor = s + 1;
        }
    }

    /// Shift the cursor by one in any of the four directions.  A leftward
    /// or rightward shift stops at a newline; a vertical shift lands one
    /// character into the adjacent line, if it exists.
    pub fn shift_cursor(&mut self, direction: Direction)
        requires
            old(self).wf(),
        ensures
            final(self).wf(),
            final(self).text == old(self).text,
            final(self).lines == old(self).lines,
            final(self).file_path == old(self).file_path,
            direction is Left ==> final(self).cursor == (if old(self).cursor > 0 && old(self).text_view()[old(self).cursor - 1] != '\n' {
                old(self).cursor - 1
            } else {
                old(self).cursor as int
            }),
            direction is Right ==> final(self).cursor == (if old(self).cursor < old(self).text_view().len() && old(self).text_view()[old(self).cursor as int] != '\n' {
                old(self).cursor + 1
            } else {
                old(self).cursor as int
            }),
            direction is Up ==> final(self).cursor == (match vertical_target(
                old(self).text_view(),
                old(self).lines_view(),
                old(self).cursor as int,
                true,
            ) {
                Some(p) => p,
                None => old(self).cursor as int,
            }),
            direction is Down ==> final(self).cursor == (match vertical_target(
                old(self).text_view(),
                old(self).lines_view(),
                old(self).cursor as int,
                false,
            ) {
                Some(p) => p,
                None => old(self).cursor as int,
            }),
    {
        match direction {
            Direction::Up => {
                self.move_line(true);
            },
            Direction::Down => {
                self.move_line(false);
            },
            Direction::Left => {
                if self.cursor > 0 {
                    let c = gap_char_at(&self.text, self.cursor - 1);
                    if c != '\n' {
                        self.cursor = self.cursor - 1;
                    }
                }
            },
            Direction::Right => {
                let len = gap_len(&self.text);
                if self.cursor < len {
                    let c = gap_char_at(&self.text, self.cursor);
                    if c != '\n' {
                        self.cursor = self.cursor + 1;
                    }
                }
            },
        }
    }

    /// The number of newlines in the text before the given offset: the line
    /// number that the offset falls on.  Not defined at or past the end of
    /// the document.
    pub fn get_line(&self, offset: usize) -> (r: Option<usize>)
        ensures
            (offset < self.text_view().len()) <==> (r is Some),
            r matches Some(n) ==> n == newline_count(self.text_view(), offset as int),
    {
        let len = gap_len(&self.text);
        if offset >= len {
            return None;
        }
        let mut count: usize = 0;
        let mut i: usize = 0;
        while i < offset
            invariant
                i <= offset,
                offset < len,
                len == self.text_view().len(),
                count == newline_count(self.text_view(), i as int),
                count <= i,
            decreases offset - i,
        {
            let c = gap_char_at(&self.text, i);
            proof {
                assert(newline_count(self.text_view(), i + 1) == newline_count(
                    self.text_view(),
                    i as int,
                ) + if self.text_view()[i as int] == '\n' {
                    1int
                } else {
                    0int
                });
            }
            if c == '\n' {
                count = count + 1;
            }
            i = i + 1;
        }
        Some(count)
    }

    /// The absolute offset at which the given line starts, found by
    /// scanning the text and counting newlines; `None` when the line number
    /// exceeds the number of newlines present.
    pub fn get_line_idx(&self, line_num: usize) -> (r: Option<usize>)
        ensures
            line_num == 0 ==> r == Some(0usize),
            line_num > 0 ==> ((r is Some) <==> line_num <= newline_count(
                self.text_view(),
                self.text_view().len() as int,
            )),
            r matches Some(p) ==> p <= self.text_view().len(),
            line_num > 0 ==> (r matches Some(p) ==> newline_count(self.text_view(), p as int)
                == line_num && self.text_view()[p - 1] == '\n'),
    {
        if line_num == 0 {
            return Some(0);
        }
        let len = gap_len(&self.text);
        let mut count: usize = 0;
        let mut i: usize = 0;
        while i < len
            invariant
                i <= len,
                len == self.text_view().len(),
                count == newline_count(self.text_view(), i as int),
                count < line_num,
                count <= i,
            decreases len - i,
        {
            let c = gap_char_at(&self.text, i);
            proof {
                assert(newline_count(self.text_view(), i + 1) == newline_count(
                    self.text_view(),
                    i as int,
                ) + if self.text_view()[i as int] == '\n' {
                    1int
                } else {
                    0int
                });
            }
            if c == '\n' {
                count = count + 1;
                if count == line_num {
                    proof {
                        lemma_newline_count_monotone(
                            self.text_view(),
                            i + 1,
                            self.text_view().len() as int,
                        );
                    }
                    return Some(i + 1);
                }
            }
            i = i + 1;
        }
        None
    }

    /// How far the cursor stands from the start of its visual line: the
    /// number of characters between the nearest newline before the cursor
    /// (or the start of the text) and the cursor.
    pub fn get_cursor_screen_offset(&self) -> (r: usize)
        requires
            self.wf(),
        ensures
            r == column_of(self.text_view(), self.cursor as int),
    {
        let mut i: usize = self.cursor;
        let mut dist: usize = 0;
        loop
            invariant
                self.wf(),
                i <= self.cursor,
                dist == self.cursor - i,
                column_of(self.text_view(), self.cursor as int) == column_of(
                    self.text_view(),
                    i as int,
                ) + dist,
            decreases i,
        {
            if i == 0 {
                return dist;
            }
            let c = gap_char_at(&self.text, i - 1);
            if c == '\n' {
                proof {
                    assert(column_of(self.text_view(), i as int) == 0);
                }
                return dist;
            }
            proof {
                assert(column_of(self.text_view(), i as int) == column_of(
                    self.text_view(),
                    i - 1,
                ) + 1);
            }
            i = i - 1;
            dist = dist + 1;
        }
    }

    /// The line at the given line number, if it exists.
    pub fn get_line_at(&self, line_num: usize) -> (r: Option<&Line>)
        ensures
            (line_num < self.lines@.len()) <==> (r is Some),
            r matches Some(l) ==> *l == self.lines@[line_num as int],
    {
        if line_num < self.lines.len() {
            Some(&self.lines[line_num])
        } else {
            None
        }
    }

    /// The status line the editor shows for this buffer: the backing path,
    /// or the marker for an untitled buffer, followed by the line count.
    pub open spec fn status_text_view(&self) -> Seq<char> {
        (match self.file_path {
            Some(p) => p@,
            None => "untitled"@,
        }) + ", lines: "@ + dec_digits(self.lines@.len() as int)
    }

    /// Render the status line for this buffer.
    pub fn get_status_text(&self) -> (r: String)
        ensures
            r@ == self.status_text_view(),
    {
        let mut v: Vec<char> = Vec::new();
        match &self.file_path {
            Some(p) => {
                let mut pc = str_to_chars(p.as_str());
                v.append(&mut pc);
            },
            None => {
                v.push('u');
                v.push('n');
                v.push('t');
                v.push('i');
                v.push('t');
                v.push('l');
                v.push('e');
                v.push('d');
                proof {
                    reveal_strlit("untitled");
                    assert(v@ =~= "untitled"@);
                }
            },
        }
        let ghost name = v@;
        v.push(',');
        v.push(' ');
        v.push('l');
        v.push('i');
        v.push('n');
        v.push('e');
        v.push('s');
        v.push(':');
        v.push(' ');
        proof {
            reveal_strlit(", lines: ");
            assert(v@ =~= name + ", lines: "@);
        }
        push_decimal(self.lines.len(), &mut v);
        let r = chars_to_string(&v);
        proof {
            assert(v@ =~= self.status_text_view());
        }
        r
    }

    /// Insert `ch` into the text at the cursor and advance the cursor past
    /// it.  The line cache follows: a newline splits the current line in
    /// two, any other character lands at the corresponding column.
    pub fn insert_char(&mut self, ch: char)
        requires
            old(self).wf(),
        ensures
            final(self).wf(),
            final(self).text_view() == insert_at(
                old(self).text_view(),
                old(self).cursor as int,
                ch,
            ),
            final(self).cursor == old(self).cursor + 1,
            final(self).file_path == old(self).file_path,
    {
        let ghost ls = old(self).lines_view();
        let ghost t = old(self).text_view();
        let (ln, col) = self.find_line_col(self.cursor);
        let ghost start = line_start(ls, ln as int);
        gap_insert(&mut self.text, self.cursor, ch);
        if ch == '\n' {
            self.split_cached_line(ln, col);
            proof {
                lemma_join_split_line(ls, ln as int, col as int);
                let ls2 = ls.take(ln as int) + seq![
                    ls[ln as int].take(col as int),
                    ls[ln as int].skip(col as int),
                ] + ls.skip(ln + 1);
                assert(self.lines_view() =~= ls2);
                assert(join_lines(self.lines_view()) == insert_at(t, old(self).cursor as int, ch));
                assert forall|i: int, j: int|
                    0 <= i < ls2.len() && 0 <= j < ls2[i].len() implies (#[trigger] ls2[i][j])
                    != '\n' by {
                    if i < ln {
                        assert(ls2[i] == ls[i]);
                    } else if i == ln {
                        assert(ls2[i][j] == ls[ln as int][j]);
                    } else if i == ln + 1 {
                        assert(ls2[i][j] == ls[ln as int][j + col]);
                    } else {
                        assert(ls2[i] == ls[i - 1]);
                    }
                }
                assert(lines_have_no_newline(self.lines_view()));
            }
        } else {
            self.lines[ln].data.insert(col, ch);
            proof {
                lemma_join_splice_line(ls, ln as int, col as int, col as int, seq![ch]);
                let d = ls[ln as int];
                let d2 = d.take(col as int) + seq![ch] + d.skip(col as int);
                assert(self.lines@[ln as int].data@ =~= d2);
                assert(self.lines_view() =~= ls.update(ln as int, d2));
                assert(join_lines(self.lines_view()) == t.take(start + col) + seq![ch] + t.skip(
                    start + col,
                ));
                assert(join_lines(self.lines_view()) == insert_at(t, old(self).cursor as int, ch));
                let ls2 = ls.update(ln as int, d2);
                assert forall|i: int, j: int|
                    0 <= i < ls2.len() && 0 <= j < ls2[i].len() implies (#[trigger] ls2[i][j])
                    != '\n' by {
                    if i == ln {
                        if j < col {
                            assert(ls2[i][j] == d[j]);
                        } else if j == col {
                            assert(ls2[i][j] == ch);
                        } else {
                            assert(ls2[i][j] == d[j - 1]);
                        }
                    }
                }
                assert(lines_have_no_newline(self.lines_view()));
            }
        }
        self.cursor = self.cursor + 1;
    }

    /// Remove the character on the chosen side of the cursor, if there is
    /// one: leftward deletion takes the character before the cursor and
    /// moves the cursor back; any other direction takes the character at
    /// the cursor and leaves it in place.  Removing a newline joins the
    /// line with the one that followed it.
    pub fn delete_char(&mut self, dir: Direction)
        requires
            old(self).wf(),
        ensures
            final(self).wf(),
            final(self).file_path == old(self).file_path,
            dir is Left ==> (if old(self).cursor > 0 {
                final(self).text_view() == remove_range(
                    old(self).text_view(),
                    old(self).cursor - 1,
                    old(self).cursor as int,
                ) && final(self).cursor == old(self).cursor - 1
            } else {
                final(self).text == old(self).text && final(self).lines == old(self).lines
                    && final(self).cursor == old(self).cursor
            }),
            !(dir is Left) ==> (if old(self).cursor < old(self).text_view().len() {
                final(self).text_view() == remove_range(
                    old(self).text_view(),
                    old(self).cursor as int,
                    old(self).cursor + 1,
                ) && final(self).cursor == old(self).cursor
            } else {
                final(self).text == old(self).text && final(self).lines == old(self).lines
                    && final(self).cursor == old(self).cursor
            }),
    {
        if dir.is_left() {
            if self.cursor == 0 {
                return ;
            }
            self.cursor = self.cursor - 1;
        } else {
            let len = gap_len(&self.text);
            if self.cursor >= len {
                return ;
            }
        }
        let p = self.cursor;
        let ghost ls = old(self).lines_view();
        let ghost t = old(self).text_view();
        let (ln, col) = self.find_line_col(p);
        let ghost start = line_start(ls, ln as int);
        let line_len = self.lines[ln].data.len();
        proof {
            lemma_join_len(ls);
            lemma_line_start_bounds(ls, ls.len() as int);
            if col == line_len && ln as int == self.lines@.len() - 1 {
                assert(line_start(ls, ls.len() as int) == start + line_len + 1);
                assert(false);
            }
        }
        let _removed = gap_remove(&mut self.text, p);
        if col == line_len {
            self.merge_cached_line(ln + 1, 0);
            proof {
                lemma_join_merge_lines(ls, ln + 1, 0);
                let merged = ls.take(ln as int) + seq![ls[ln as int] + ls[ln + 1].skip(0)]
                    + ls.skip(ln + 2);
                assert(self.lines_view() =~= merged);
                assert(line_start(ls, ln + 1) == start + line_len + 1);
                assert(join_lines(self.lines_view()) == remove_range(t, p as int, p + 1));
                assert forall|i: int, j: int|
                    0 <= i < merged.len() && 0 <= j < merged[i].len() implies (
                #[trigger] merged[i][j]) != '\n' by {
                    if i < ln {
                        assert(merged[i] == ls[i]);
                    } else if i == ln {
                        if j < line_len {
                            assert(merged[i][j] == ls[ln as int][j]);
                        } else {
                            assert(merged[i][j] == ls[ln + 1][j - line_len]);
                        }
                    } else {
                        assert(merged[i] == ls[i + 1]);
                    }
                }
                assert(lines_have_no_newline(self.lines_view()));
            }
        } else {
            let _removed_char = self.lines[ln].data.remove(col);
            proof {
                lemma_join_splice_line(ls, ln as int, col as int, col + 1, Seq::<char>::empty());
                let d = ls[ln as int];
                let d2 = d.take(col as int) + Seq::<char>::empty() + d.skip(col + 1);
                assert(self.lines@[ln as int].data@ =~= d2);
                assert(self.lines_view() =~= ls.update(ln as int, d2));
                assert(join_lines(self.lines_view()) == t.take(start + col) + Seq::<char>::empty()
                    + t.skip(start + col + 1));
                assert(join_lines(self.lines_view()) =~= remove_range(t, p as int, p + 1));
                let ls2 = ls.update(ln as int, d2);
                assert forall|i: int, j: int|
                    0 <= i < ls2.len() && 0 <= j < ls2[i].len() implies (#[trigger] ls2[i][j])
                    != '\n' by {
                    if i == ln {
                        if j < col {
                            assert(ls2[i][j] == d[j]);
                        } else {
                            assert(ls2[i][j] == d[j + 1]);
                        }
                    }
                }
                assert(lines_have_no_newline(self.lines_view()));
            }
        }
    }

    /// The prefix and suffix that the given line's content splits into at
    /// the given column, without changing the buffer; nothing when the line
    /// or the column does not exist.
    pub fn split_line(&self, line_num: usize, offset: usize) -> (r: Option<(Vec<char>, Vec<char>)>)
        ensures
            (line_num < self.lines@.len() && (offset as int)
                <= self.lines@[line_num as int].data@.len()) <==> (r is Some),
            r matches Some(pair) ==> pair.0@ == self.lines@[line_num as int].data@.take(
                offset as int,
            ) && pair.1@ == self.lines@[line_num as int].data@.skip(offset as int),
    {
        if line_num >= self.lines.len() {
            return None;
        }
        let d_len = self.lines[line_num].data.len();
        if offset > d_len {
            return None;
        }
        let prefix = copy_range(&self.lines[line_num].data, 0, offset);
        let suffix = copy_range(&self.lines[line_num].data, offset, d_len);
        proof {
            assert(prefix@ =~= self.lines@[line_num as int].data@.take(offset as int));
            assert(suffix@ =~= self.lines@[line_num as int].data@.skip(offset as int));
        }
        Some((prefix, suffix))
    }

    /// Split the given line at the given column: the prefix stays at its
    /// line number, the suffix becomes a brand-new line right after it, and
    /// everything beyond is renumbered.  Returns whether the split was
    /// performed; a line or column that does not exist leaves the buffer
    /// unchanged.
    pub fn insert_line(&mut self, line_num: usize, offset: usize) -> (r: bool)
        requires
            old(self).wf(),
        ensures
            final(self).wf(),
            final(self).file_path == old(self).file_path,
            final(self).cursor == old(self).cursor,
            r <==> (line_num < old(self).lines@.len() && (offset as int)
                <= old(self).lines@[line_num as int].data@.len()),
            r ==> final(self).lines_view() =~= old(self).lines_view().take(line_num as int)
                + seq![
                old(self).lines_view()[line_num as int].take(offset as int),
                old(self).lines_view()[line_num as int].skip(offset as int),
            ] + old(self).lines_view().skip(line_num + 1),
            r ==> final(self).text_view() == insert_at(
                old(self).text_view(),
                line_start(old(self).lines_view(), line_num as int) + offset,
                '\n',
            ),
            !r ==> final(self).text == old(self).text && final(self).lines == old(self).lines,
    {
        if line_num >= self.lines.len() {
            return false;
        }
        let d_len = self.lines[line_num].data.len();
        if offset > d_len {
            return false;
        }
        let ghost ls = self.lines_view();
        let ghost t = self.text_view();
        let _text_len = gap_len(&self.text);
        let s = self.line_start_offset(line_num);
        proof {
            lemma_join_len(ls);
            lemma_line_start_bounds(ls, ls.len() as int);
            assert(line_start(ls, line_num + 1) == line_start(ls, line_num as int) + d_len + 1);
        }
        let p = s + offset;
        gap_insert(&mut self.text, p, '\n');
        self.split_cached_line(line_num, offset);
        proof {
            lemma_join_split_line(ls, line_num as int, offset as int);
            let ls2 = ls.take(line_num as int) + seq![
                ls[line_num as int].take(offset as int),
                ls[line_num as int].skip(offset as int),
            ] + ls.skip(line_num + 1);
            assert(self.lines_view() =~= ls2);
            assert(join_lines(self.lines_view()) == insert_at(t, p as int, '\n'));
            assert forall|i: int, j: int|
                0 <= i < ls2.len() && 0 <= j < ls2[i].len() implies (#[trigger] ls2[i][j])
                != '\n' by {
                if i < line_num {
                    assert(ls2[i] == ls[i]);
                } else if i == line_num {
                    assert(ls2[i][j] == ls[line_num as int][j]);
                } else if i == line_num + 1 {
                    assert(ls2[i][j] == ls[line_num as int][j + offset]);
                } else {
                    assert(ls2[i] == ls[i - 1]);
                }
            }
            assert(lines_have_no_newline(self.lines_view()));
        }
        true
    }

    /// Merge the given line into the one before it: its content from the
    /// given column on is appended to the previous line, its entry leaves
    /// the cache, and everything beyond is renumbered.  Returns the length
    /// the previous line had, the column at which the lines were joined;
    /// with no previous line, a line that does not exist, or a column
    /// past the line's end, nothing changes and nothing is returned.
    pub fn join_line_with_previous(&mut self, line_num: usize, offset: usize) -> (r: Option<usize>)
        requires
            old(self).wf(),
        ensures
            final(self).wf(),
            final(self).file_path == old(self).file_path,
            (1 <= line_num < old(self).lines@.len() && (offset as int)
                <= old(self).lines@[line_num as int].data@.len()) <==> (r is Some),
            r matches Some(p) ==> p == old(self).lines@[line_num - 1].data@.len(),
            r is Some ==> final(self).lines_view() =~= old(self).lines_view().take(line_num - 1)
                + seq![
                old(self).lines_view()[line_num - 1] + old(self).lines_view()[line_num as int].skip(
                    offset as int,
                ),
            ] + old(self).lines_view().skip(line_num + 1),
            r is Some ==> final(self).text_view() == remove_range(
                old(self).text_view(),
                line_start(old(self).lines_view(), line_num as int) - 1,
                line_start(old(self).lines_view(), line_num as int) + offset,
            ),
            r is Some ==> final(self).cursor == (if old(self).cursor <= final(self).text_view().len() {
                old(self).cursor as int
            } else {
                final(self).text_view().len() as int
            }),
            r is None ==> final(self).text == old(self).text && final(self).lines == old(self).lines && final(self).cursor == old(self).cursor,
    {
        if line_num == 0 {
            return None;
        }
        if line_num >= self.lines.len() {
            return None;
        }
        let prev_len = self.lines[line_num - 1].data.len();
        let cur_len = self.lines[line_num].data.len();
        if offset > cur_len {
            return None;
        }
        let ghost ls = self.lines_view();
        let ghost t = self.text_view();
        let _text_len = gap_len(&self.text);
        let s = self.line_start_offset(line_num);
        proof {
            lemma_join_len(ls);
            lemma_line_start_bounds(ls, ls.len() as int);
            lemma_line_start_bounds(ls, line_num as int);
            assert(line_start(ls, line_num + 1) == line_start(ls, line_num as int) + cur_len + 1);
            assert(s >= 1);
        }
        let q = s - 1;
        let mut k: usize = 0;
        while k < offset + 1
            invariant
                k <= offset + 1,
                q == line_start(ls, line_num as int) - 1,
                q + offset + 1 <= t.len(),
                t.len() <= usize::MAX,
                gap_chars(self.text) =~= t.take(q as int) + t.skip(q + k),
                self.lines == old(self).lines,
                self.cursor == old(self).cursor,
                self.file_path == old(self).file_path,
                ls == self.lines_view(),
                t == old(self).text_view(),
            decreases offset + 1 - k,
        {
            let ghost before = gap_chars(self.text);
            gap_remove(&mut self.text, q);
            proof {
                assert(gap_chars(self.text) =~= before.take(q as int) + before.skip(q + 1));
                assert(gap_chars(self.text) =~= t.take(q as int) + t.skip(q + k + 1));
            }
            k = k + 1;
        }
        self.merge_cached_line(line_num, offset);
        proof {
            lemma_join_merge_lines(ls, line_num as int, offset as int);
            let merged = ls.take(line_num - 1) + seq![
                ls[line_num - 1] + ls[line_num as int].skip(offset as int),
            ] + ls.skip(line_num + 1);
            assert(self.lines_view() =~= merged);
            assert(join_lines(self.lines_view()) == remove_range(t, q as int, q + offset + 1));
            assert(gap_chars(self.text) =~= remove_range(t, q as int, q + offset + 1));
            assert forall|i: int, j: int|
                0 <= i < merged.len() && 0 <= j < merged[i].len() implies (
            #[trigger] merged[i][j]) != '\n' by {
                if i < line_num - 1 {
                    assert(merged[i] == ls[i]);
                } else if i == line_num - 1 {
                    if j < prev_len {
                        assert(merged[i][j] == ls[line_num - 1][j]);
                    } else {
                        assert(merged[i][j] == ls[line_num as int][j - prev_len + offset]);
                    }
                } else {
                    assert(merged[i] == ls[i + 1]);
                }
            }
            assert(lines_have_no_newline(self.lines_view()));
        }
        let new_len = gap_len(&self.text);
        if self.cursor > new_len {
            self.cursor = new_len;
        }
        Some(prev_len)
    }
}

/// The cursor never leaves the document: in every well-formed buffer it
/// stands between the start and one past the last character.
pub proof fn lemma_cursor_in_bounds(b: &Buffer)
    requires
        b.wf(),
    ensures
        0 <= b.cursor <= b.text_view().len(),
{
}

/// Joining the cached lines with newlines reconstructs the document text
/// exactly, in every well-formed buffer.
pub proof fn lemma_lines_reconstruct_text(b: &Buffer)
    requires
        b.wf(),
    ensures
        join_lines(b.lines_view()) == b.text_view(),
{
}

/// Line numbers are sequential in every well-formed buffer: the line at
/// index `i` carries line number `i`.
pub proof fn lemma_line_numbers_sequential(b: &Buffer)
    requires
        b.wf(),
    ensures
        forall|i: int| 0 <= i < b.lines@.len() ==> (#[trigger] b.lines@[i].line_num) == i,
{
}

/// A copy of the characters of `v` at positions `[from, to)`.
fn copy_range(v: &Vec<char>, from: usize, to: usize) -> (r: Vec<char>)
    requires
        from <= to <= v@.len(),
    ensures
        r@ == v@.subrange(from as int, to as int),
{
    let mut r: Vec<char> = Vec::new();
    let mut i = from;
    while i < to
        invariant
            from <= i <= to <= v@.len(),
            r@ =~= v@.subrange(from as int, i as int),
        decreases to - i,
    {
        r.push(v[i]);
        proof {
            assert(r@ =~= v@.subrange(from as int, i + 1));
        }
        i = i + 1;
    }
    r
}

/// The decimal digit character for a value below ten.
fn digit_to_char(d: usize) -> (c: char)
    requires
        d < 10,
    ensures
        c == digit_char(d as int),
{
    if d == 0 {
        '0'
    } else if d == 1 {
        '1'
    } else if d == 2 {
        '2'
    } else if d == 3 {
        '3'
    } else if d == 4 {
        '4'
    } else if d == 5 {
        '5'
    } else if d == 6 {
        '6'
    } else if d == 7 {
        '7'
    } else if d == 8 {
        '8'
    } else {
        '9'
    }
}

/// Append the decimal digits of `n` to `out`.
fn push_decimal(n: usize, out: &mut Vec<char>)
    ensures
        final(out)@ == old(out)@ + dec_digits(n as int),
    decreases n,
{
    if n >= 10 {
        push_decimal(n / 10, out);
        out.push(digit_to_char(n % 10));
        proof {
            assert(out@ =~= old(out)@ + dec_digits(n as int));
        }
    } else {
        out.push(digit_to_char(n));
        proof {
            assert(dec_digits(n as int) == seq![digit_char(n as int)]);
            assert(out@ =~= old(out)@ + dec_digits(n as int));
        }
    }
}

/// Relies on str::chars: yields the characters of the string in order.
#[verifier::external_body]
fn str_to_chars(s: &str) -> (r: Vec<char>)
    ensures
        r@ == s@,
{
    s.chars().collect()
}

/// Relies on String's FromIterator of char: collects the characters in
/// order.
#[verifier::external_body]
fn chars_to_string(v: &Vec<char>) -> (r: String)
    ensures
        r@ == v@,
{
    v.iter().collect()
}

} // verus!

