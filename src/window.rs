use vstd::prelude::*;
use crate::point::{Point, offset_fits};

verus! {

/// A window to be displayed: a grid of cells whose top left cell stands at
/// `top_left`. Rows may have different lengths.
#[derive(Clone, Debug)]
pub struct Window<T> {
    /// Top left co-ordinate of the window.
    pub top_left: Point,
    /// The cells of the window, row by row.
    pub data: Vec<Vec<T>>,
}

/// The rows of a grid as sequences.
pub open spec fn rows_of<T>(data: Seq<Vec<T>>) -> Seq<Seq<T>> {
    Seq::new(data.len(), |r: int| data[r]@)
}

/// The lines of `s`, without their line endings.
pub uninterp spec fn lines_of(s: Seq<char>) -> Seq<Seq<char>>;

/// Relies on `str::lines`: the lines of `s` without their line endings, and
/// none for an empty string.
#[verifier::external_body]
fn split_lines(s: &str) -> (r: Vec<Vec<char>>)
    ensures
        rows_of(r@) == lines_of(s@),
        s@.len() == 0 ==> r@.len() == 0,
{
    s.lines().map(|l| l.chars().collect()).collect()
}

/// `rows` after the first `i` of `lines` were written to it: the first line
/// continues the last row, each later one starts a new row, and a fresh
/// empty row follows.
pub open spec fn appended(rows: Seq<Seq<char>>, lines: Seq<Seq<char>>, i: int) -> Seq<Seq<char>>
    decreases i,
{
    if i <= 0 {
        rows
    } else {
        let prev = appended(rows, lines, i - 1);
        prev.drop_last().push(prev.last() + lines[i - 1]).push(Seq::empty())
    }
}

/// The rows of an outlined grid: `border` before and after each row, and a
/// full row of `border` above and below.
pub open spec fn outlined<T>(rows: Seq<Seq<T>>, border: T) -> Seq<Seq<T>> {
    let inner = Seq::new(rows.len(), |r: int| seq![border] + rows[r] + seq![border]);
    seq![Seq::new(inner[0].len(), |i: int| border)] + inner + seq![
        Seq::new(inner.last().len(), |i: int| border),
    ]
}

/// Append the cells of `src` to `dst`.
fn append_cells<T: Copy>(dst: &mut Vec<T>, src: &Vec<T>)
    ensures
        final(dst)@ == old(dst)@ + src@,
{
    let mut i: usize = 0;
    while i < src.len()
        invariant
            i <= src@.len(),
            dst@ == old(dst)@ + src@.take(i as int),
        decreases src@.len() - i,
    {
        dst.push(src[i]);
        assert(dst@ =~= old(dst)@ + src@.take(i + 1));
        i += 1;
    }
    assert(src@.take(src@.len() as int) =~= src@);
}

/// A row of `n` copies of `v`.
fn filled<T: Copy>(v: T, n: usize) -> (r: Vec<T>)
    ensures
        r@ == Seq::new(n as nat, |i: int| v),
{
    let mut r: Vec<T> = Vec::new();
    let mut i: usize = 0;
    while i < n
        invariant
            i <= n,
            r@ == Seq::new(i as nat, |j: int| v),
        decreases n - i,
    {
        r.push(v);
        assert(r@ =~= Seq::new((i + 1) as nat, |j: int| v));
        i += 1;
    }
    r
}

impl<T> Window<T> {
    /// The window's rows as sequences of cells.
    pub open spec fn rows(&self) -> Seq<Seq<T>> {
        rows_of(self.data@)
    }

    /// Whether the cell at column `col` of row `row` exists.
    pub open spec fn has_cell(&self, col: int, row: int) -> bool {
        0 <= row < self.data@.len() && 0 <= col < self.data@[row]@.len()
    }

    /// Whether every cell's absolute position is representable.
    pub open spec fn fits(&self) -> bool {
        forall|col: int, row: int| #[trigger] self.has_cell(col, row)
            ==> offset_fits(self.top_left, col, row)
    }

    /// Create a new empty window at the given position.
    pub fn new(top_left: Point) -> (r: Self)
        ensures
            r.top_left == top_left,
            r.data@.len() == 0,
    {
        Window { top_left, data: Vec::new() }
    }
}

impl<T: Copy> Window<T> {
    /// Draws an outline of `ch` around the window: `ch` before and after
    /// each row, and a row of `ch` above and below, as long as the first and
    /// the last row so extended. If the data is not rectangular, the outline
    /// won't be either. A window without rows is left as it is.
    pub fn outline_with(&mut self, ch: T)
        ensures
            final(self).top_left == old(self).top_left,
            old(self).rows().len() == 0 ==> final(self).rows() == old(self).rows(),
            old(self).rows().len() > 0 ==> final(self).rows() == outlined(old(self).rows(), ch),
    {
        let n = self.data.len();
        if n == 0 {
            return;
        }
        let ghost inner = Seq::new(
            self.rows().len(),
            |r: int| seq![ch] + self.rows()[r] + seq![ch],
        );
        let mut framed: Vec<Vec<T>> = Vec::new();
        let mut r: usize = 0;
        while r < n
            invariant
                n == self.data@.len(),
                inner.len() == n,
                inner == Seq::new(
                    self.rows().len(),
                    |r: int| seq![ch] + self.rows()[r] + seq![ch],
                ),
                r <= n,
                framed@.len() == r,
                rows_of(framed@) == inner.take(r as int),
            decreases n - r,
        {
            let mut row: Vec<T> = Vec::new();
            row.push(ch);
            append_cells(&mut row, &self.data[r]);
            row.push(ch);
            let ghost prev = framed@;
            framed.push(row);
            assert(row@ =~= inner[r as int]);
            assert(rows_of(framed@) =~= inner.take(r + 1)) by {
                assert forall|i: int| 0 <= i < r + 1 implies #[trigger] rows_of(framed@)[i]
                    == inner.take(r + 1)[i] by {
                    if i < r {
                        assert(framed@[i] == prev[i]);
                        assert(rows_of(prev)[i] == inner.take(r as int)[i]);
                    }
                }
            }
            r += 1;
        }
        assert(inner.take(n as int) =~= inner);
        let top = filled(ch, framed[0].len());
        let bottom = filled(ch, framed[n - 1].len());
        let ghost mid = framed@;
        let mut out: Vec<Vec<T>> = Vec::new();
        out.push(top);
        out.append(&mut framed);
        out.push(bottom);
        let ghost want = outlined(old(self).rows(), ch);
        assert(inner == Seq::new(
            old(self).rows().len(),
            |r: int| seq![ch] + old(self).rows()[r] + seq![ch],
        ));
        assert(rows_of(out@) =~= want) by {
            assert(rows_of(mid)[0] == inner[0]);
            assert(rows_of(mid)[n - 1] == inner.last());
            assert forall|j: int| 0 <= j < out@.len() implies #[trigger] rows_of(out@)[j]
                == want[j] by {
                if 1 <= j <= n {
                    assert(out@[j] == mid[j - 1]);
                    assert(rows_of(mid)[j - 1] == inner[j - 1]);
                }
            }
        }
        self.data = out;
    }
}

impl Window<char> {
    /// Appends text: the first line continues the last row (an empty window
    /// gets one empty row first), each later line starts a new row, and an
    /// empty row is left at the end to receive further text.
    pub fn write_str(&mut self, s: &str)
        ensures
            final(self).top_left == old(self).top_left,
            final(self).rows() == appended(
                if old(self).rows().len() == 0 {
                    seq![Seq::<char>::empty()]
                } else {
                    old(self).rows()
                },
                lines_of(s@),
                lines_of(s@).len() as int,
            ),
    {
        if self.data.len() == 0 {
            self.data.push(Vec::new());
            assert(self.rows() =~= seq![Seq::<char>::empty()]);
        }
        let ghost base = self.rows();
        let lines = split_lines(s);
        let mut i: usize = 0;
        while i < lines.len()
            invariant
                self.top_left == old(self).top_left,
                rows_of(lines@) == lines_of(s@),
                i <= lines@.len(),
                self.data@.len() > 0,
                self.rows() == appended(base, lines_of(s@), i as int),
            decreases lines@.len() - i,
        {
            let ghost prev = self.rows();
            let mut last = match self.data.pop() {
                Some(row) => row,
                None => Vec::new(),
            };
            append_cells(&mut last, &lines[i]);
            self.data.push(last);
            self.data.push(Vec::new());
            assert(rows_of(lines@)[i as int] == lines@[i as int]@);
            assert(self.rows() =~= prev.drop_last().push(prev.last() + lines_of(s@)[i as int]).push(
                Seq::empty(),
            ));
            i += 1;
        }
    }
}

} // verus!
