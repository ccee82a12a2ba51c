use vstd::prelude::*;
use crate::point::{Point, offset_of, pt};
use crate::window::{Window, rows_of};
use crate::cell::CellValue;

verus! {

/// Whether no two entries of `s` share a position.
pub open spec fn keys_unique<T>(s: Seq<(Point, T)>) -> bool {
    forall|i: int, j: int|
        0 <= i < s.len() && 0 <= j < s.len() && i != j ==> #[trigger] s[i].0 != #[trigger] s[j].0
}

/// The mapping from position to cell held by a list of entries.
pub open spec fn map_of<T>(s: Seq<(Point, T)>) -> Map<Point, T> {
    Map::new(
        |p: Point| exists|i: int| 0 <= i < s.len() && #[trigger] s[i].0 == p,
        |p: Point| s[choose|i: int| 0 <= i < s.len() && #[trigger] s[i].0 == p].1,
    )
}

/// Whether writing `v` at `p` differs from what `prior` held there.
pub open spec fn differs<T>(prior: Map<Point, T>, p: Point, v: T) -> bool {
    !prior.contains_key(p) || prior[p] != v
}

/// One write of a refresh: `v` lands at `p`, and `p` is recorded as changed
/// (once) when `v` differs from the prior buffer's value there.
pub open spec fn paint<T>(prior: Map<Point, T>, st: (Map<Point, T>, Seq<Point>), p: Point, v: T) -> (
    Map<Point, T>,
    Seq<Point>,
) {
    (
        st.0.insert(p, v),
        if differs(prior, p, v) && !st.1.contains(p) {
            st.1.push(p)
        } else {
            st.1
        },
    )
}

/// The writes of the first `n` cells of row `row` of a grid anchored at `anchor`.
pub open spec fn paint_row<T>(
    prior: Map<Point, T>,
    st: (Map<Point, T>, Seq<Point>),
    anchor: Point,
    row: int,
    cells: Seq<T>,
    n: nat,
) -> (Map<Point, T>, Seq<Point>)
    decreases n,
{
    if n == 0 {
        st
    } else {
        let c = n - 1;
        paint(
            prior,
            paint_row(prior, st, anchor, row, cells, c as nat),
            offset_of(anchor, c, row),
            cells[c],
        )
    }
}

/// The writes of the first `m` rows of `w`.
pub open spec fn paint_window<T>(
    prior: Map<Point, T>,
    st: (Map<Point, T>, Seq<Point>),
    w: Window<T>,
    m: nat,
) -> (Map<Point, T>, Seq<Point>)
    decreases m,
{
    if m == 0 {
        st
    } else {
        let r = m - 1;
        paint_row(
            prior,
            paint_window(prior, st, w, r as nat),
            w.top_left,
            r,
            w.data@[r]@,
            w.data@[r]@.len(),
        )
    }
}

/// The writes of the first `k` windows of `ws`, in paint order.
pub open spec fn paint_all<T>(
    prior: Map<Point, T>,
    st: (Map<Point, T>, Seq<Point>),
    ws: Seq<Window<T>>,
    k: nat,
) -> (Map<Point, T>, Seq<Point>)
    decreases k,
{
    if k == 0 {
        st
    } else {
        let w = ws[k - 1];
        paint_window(prior, paint_all(prior, st, ws, (k - 1) as nat), w, w.data@.len())
    }
}

/// The buffer and the changed positions that a refresh of the windows `ws`
/// computes when the buffer held `prior` before it.
pub open spec fn flatten<T>(prior: Map<Point, T>, ws: Seq<Window<T>>) -> (Map<Point, T>, Seq<Point>) {
    paint_all(prior, (Map::empty(), Seq::empty()), ws, ws.len())
}

/// Whether every window's cells have representable absolute positions.
pub open spec fn all_fit<T>(ws: Seq<Window<T>>) -> bool {
    forall|i: int| 0 <= i < ws.len() ==> #[trigger] ws[i].fits()
}

/// The value at `p` in `m`, or `default` where `m` holds none.
pub open spec fn cell_or<T>(m: Map<Point, T>, p: Point, default: T) -> T {
    if m.contains_key(p) {
        m[p]
    } else {
        default
    }
}

/// The `hgt` rows of `wid` cells that `m` shows from the origin on, with
/// `default` where `m` holds no value.
pub open spec fn materialized<T>(m: Map<Point, T>, wid: nat, hgt: nat, default: T) -> Seq<Seq<T>> {
    Seq::new(hgt, |y: int| Seq::new(wid, |x: int| cell_or(m, pt(x, y), default)))
}

/// Each row's characters followed by a line break.
pub open spec fn grid_text(rows: Seq<Seq<char>>) -> Seq<char>
    decreases rows.len(),
{
    if rows.len() == 0 {
        Seq::empty()
    } else {
        grid_text(rows.drop_last()) + rows.last() + seq!['\n']
    }
}

/// Relies on `FromIterator<char>` for `String`: the string holds the characters in order.
#[verifier::external_body]
fn string_of_chars(v: &Vec<char>) -> (r: String)
    ensures
        r@ == v@,
{
    v.iter().collect()
}

proof fn lemma_map_of_index<T>(s: Seq<(Point, T)>, i: int)
    requires
        keys_unique(s),
        0 <= i < s.len(),
    ensures
        map_of(s).contains_key(s[i].0),
        map_of(s)[s[i].0] == s[i].1,
{
    let p = s[i].0;
    assert(map_of(s).dom().contains(p));
    let j = choose|j: int| 0 <= j < s.len() && #[trigger] s[j].0 == p;
    assert(j == i);
}

/// The index of the entry at `p`, if any.
fn find_entry<T>(s: &Vec<(Point, T)>, p: Point) -> (r: Option<usize>)
    requires
        keys_unique(s@),
    ensures
        match r {
            Some(i) => i < s@.len() && s@[i as int].0 == p && map_of(s@).contains_key(p)
                && map_of(s@)[p] == s@[i as int].1,
            None => !map_of(s@).contains_key(p),
        },
{
    let mut i: usize = 0;
    while i < s.len()
        invariant
            i <= s@.len(),
            keys_unique(s@),
            forall|j: int| 0 <= j < i ==> #[trigger] s@[j].0 != p,
        decreases s@.len() - i,
    {
        if s[i].0 == p {
            proof {
                lemma_map_of_index(s@, i as int);
            }
            return Some(i);
        }
        i += 1;
    }
    None
}

/// Store `v` at `p`, replacing what was there.
fn put_entry<T>(s: &mut Vec<(Point, T)>, p: Point, v: T)
    requires
        keys_unique(old(s)@),
    ensures
        keys_unique(final(s)@),
        map_of(final(s)@) == map_of(old(s)@).insert(p, v),
{
    match find_entry(s, p) {
        Some(i) => {
            s.set(i, (p, v));
            proof {
                let a = old(s)@;
                let b = s@;
                assert forall|q: Point| #[trigger] map_of(b).contains_key(q) <==> map_of(
                    a,
                ).insert(p, v).contains_key(q) by {
                    if exists|j: int| 0 <= j < a.len() && #[trigger] a[j].0 == q {
                        let j = choose|j: int| 0 <= j < a.len() && #[trigger] a[j].0 == q;
                        assert(b[j].0 == q);
                    }
                    if exists|j: int| 0 <= j < b.len() && #[trigger] b[j].0 == q {
                        let j = choose|j: int| 0 <= j < b.len() && #[trigger] b[j].0 == q;
                        assert(a[j].0 == q);
                    }
                }
                assert forall|q: Point| #[trigger] map_of(b).contains_key(q) implies map_of(b)[q]
                    == map_of(a).insert(p, v)[q] by {
                    let j = choose|j: int| 0 <= j < b.len() && #[trigger] b[j].0 == q;
                    lemma_map_of_index(b, j);
                    if q != p {
                        lemma_map_of_index(a, j);
                    }
                }
                assert(map_of(b) =~= map_of(a).insert(p, v));
            }
        },
        None => {
            s.push((p, v));
            proof {
                let a = old(s)@;
                let b = s@;
                assert forall|q: Point| #[trigger] map_of(b).contains_key(q) <==> map_of(
                    a,
                ).insert(p, v).contains_key(q) by {
                    if exists|j: int| 0 <= j < a.len() && #[trigger] a[j].0 == q {
                        let j = choose|j: int| 0 <= j < a.len() && #[trigger] a[j].0 == q;
                        assert(b[j].0 == q);
                    }
                    if q == p {
                        assert(b[a.len() as int].0 == q);
                    }
                }
                assert forall|q: Point| #[trigger] map_of(b).contains_key(q) implies map_of(b)[q]
                    == map_of(a).insert(p, v)[q] by {
                    let j = choose|j: int| 0 <= j < b.len() && #[trigger] b[j].0 == q;
                    lemma_map_of_index(b, j);
                    if q != p {
                        lemma_map_of_index(a, j);
                    }
                }
                assert(map_of(b) =~= map_of(a).insert(p, v));
            }
        },
    }
}

/// Whether `p` is one of `v`'s items.
fn contains_point(v: &Vec<Point>, p: Point) -> (r: bool)
    ensures
        r == v@.contains(p),
{
    let mut i: usize = 0;
    while i < v.len()
        invariant
            i <= v@.len(),
            forall|j: int| 0 <= j < i ==> #[trigger] v@[j] != p,
        decreases v@.len() - i,
    {
        if v[i] == p {
            assert(v@[i as int] == p);
            return true;
        }
        i += 1;
    }
    false
}

/// Contains various windows and displays them according to their position.
#[derive(Clone, Debug)]
pub struct Container<T> {
    /// Each window stored in the container, in paint order.
    pub windows: Vec<Window<T>>,
    buffer: Vec<(Point, T)>,
    changed: Vec<Point>,
}

impl<T: CellValue> Container<T> {
    /// The buffer: the cell at each position painted by the last refresh.
    pub closed spec fn buffer_map(&self) -> Map<Point, T> {
        map_of(self.buffer@)
    }

    /// The positions recorded as changed by the last refresh, in discovery order.
    pub closed spec fn changed_seq(&self) -> Seq<Point> {
        self.changed@
    }

    /// The windows, in paint order.
    pub closed spec fn windows_seq(&self) -> Seq<Window<T>> {
        self.windows@
    }

    /// The internal invariant: the buffer holds each position at most once.
    pub closed spec fn wf(&self) -> bool {
        keys_unique(self.buffer@)
    }

    /// Create an empty container.
    pub fn new() -> (r: Self)
        ensures
            r.wf(),
            r.windows_seq().len() == 0,
            r.buffer_map() == Map::<Point, T>::empty(),
            r.changed_seq().len() == 0,
    {
        let r = Container { windows: Vec::new(), buffer: Vec::new(), changed: Vec::new() };
        assert(r.buffer_map() =~= Map::<Point, T>::empty());
        r
    }

    /// Add the given window to the container, on top of the others.
    pub fn add_win(&mut self, win: Window<T>)
        ensures
            final(self).windows_seq() == old(self).windows_seq().push(win),
            final(self).buffer_map() == old(self).buffer_map(),
            final(self).changed_seq() == old(self).changed_seq(),
            final(self).wf() == old(self).wf(),
    {
        self.windows.push(win);
    }

    /// The positions changed by the last call to refresh.
    pub fn changed(&self) -> (r: &[Point])
        ensures
            r@ == self.changed_seq(),
    {
        self.changed.as_slice()
    }

    /// The buffer's entries, one per position, in the order in which the last
    /// refresh first painted them.
    pub fn get_buffer(&self) -> (r: &[(Point, T)])
        ensures
            map_of(r@) == self.buffer_map(),
            self.wf() ==> keys_unique(r@),
    {
        self.buffer.as_slice()
    }

    /// The value at `p` in the buffer, if any.
    pub fn get(&self, p: Point) -> (r: Option<T>)
        requires
            self.wf(),
        ensures
            match r {
                Some(v) => self.buffer_map().contains_key(p) && self.buffer_map()[p] == v,
                None => !self.buffer_map().contains_key(p),
            },
    {
        match find_entry(&self.buffer, p) {
            Some(i) => Some(self.buffer[i].1),
            None => None,
        }
    }

    /// Redraws all the windows into the buffer, recording each position
    /// whose new value differs from the value it held before.
    pub fn refresh(&mut self)
        requires
            old(self).wf(),
            all_fit(old(self).windows_seq()),
        ensures
            final(self).wf(),
            final(self).windows_seq() == old(self).windows_seq(),
            (final(self).buffer_map(), final(self).changed_seq()) == flatten(
                old(self).buffer_map(),
                old(self).windows_seq(),
            ),
    {
        let ghost prior = self.buffer_map();
        let ghost ws = self.windows@;
        let ghost st0 = (Map::<Point, T>::empty(), Seq::<Point>::empty());
        let mut buf: Vec<(Point, T)> = Vec::new();
        let mut chg: Vec<Point> = Vec::new();
        assert(map_of(buf@) =~= Map::<Point, T>::empty());
        let mut k: usize = 0;
        while k < self.windows.len()
            invariant
                *self == *old(self),
                ws == self.windows@,
                prior == self.buffer_map(),
                self.wf(),
                all_fit(ws),
                    k <= ws.len(),
                keys_unique(buf@),
                (map_of(buf@), chg@) == paint_all(prior, st0, ws, k as nat),
            decreases ws.len() - k,
        {
            let win = &self.windows[k];
            let ghost before = paint_all(prior, st0, ws, k as nat);
            assert(win.fits());
            let mut r: usize = 0;
            while r < win.data.len()
                invariant
                    *self == *old(self),
                    ws == self.windows@,
                    prior == self.buffer_map(),
                    self.wf(),
                            k < ws.len(),
                    *win == ws[k as int],
                    win.fits(),
                    before == paint_all(prior, st0, ws, k as nat),
                    r <= win.data@.len(),
                    keys_unique(buf@),
                    (map_of(buf@), chg@) == paint_window(prior, before, *win, r as nat),
                decreases win.data@.len() - r,
            {
                let row = &win.data[r];
                let ghost rbefore = paint_window(prior, before, *win, r as nat);
                let mut c: usize = 0;
                while c < row.len()
                    invariant
                        *self == *old(self),
                        prior == self.buffer_map(),
                        self.wf(),
                                    win.fits(),
                        r < win.data@.len(),
                        *row == win.data@[r as int],
                        c <= row@.len(),
                        keys_unique(buf@),
                        (map_of(buf@), chg@) == paint_row(
                            prior,
                            rbefore,
                            win.top_left,
                            r as int,
                            row@,
                            c as nat,
                        ),
                    decreases row@.len() - c,
                {
                    assert(win.has_cell(c as int, r as int));
                    let p = win.top_left.offset(c, r);
                    let v = row[c];
                    let is_new = match self.get(p) {
                        Some(prev) => !prev.same(&v),
                        None => true,
                    };
                    assert(is_new == differs(prior, p, v));
                    if is_new && !contains_point(&chg, p) {
                        chg.push(p);
                    }
                    put_entry(&mut buf, p, v);
                    c += 1;
                }
                r += 1;
            }
            k += 1;
        }
        self.buffer = buf;
        self.changed = chg;
    }

    /// The cells from `(0, 0)` to `(wid, hgt)`, row by row, with `default`
    /// where the buffer holds no value.
    pub fn materialize(&self, wid: u16, hgt: u16, default: T) -> (r: Vec<Vec<T>>)
        requires
            self.wf(),
        ensures
            rows_of(r@) == materialized(self.buffer_map(), wid as nat, hgt as nat, default),
    {
        let mut out: Vec<Vec<T>> = Vec::new();
        let mut y: u16 = 0;
        while y < hgt
            invariant
                self.wf(),
                y <= hgt,
                out@.len() == y,
                rows_of(out@) == materialized(self.buffer_map(), wid as nat, y as nat, default),
            decreases hgt - y,
        {
            let mut line: Vec<T> = Vec::new();
            let mut x: u16 = 0;
            while x < wid
                invariant
                    self.wf(),
                    x <= wid,
                    line@ == Seq::new(
                        x as nat,
                        |i: int| cell_or(self.buffer_map(), pt(i, y as int), default),
                    ),
                decreases wid - x,
            {
                let p = Point::new(x as i32, y as i32);
                let v = match self.get(p) {
                    Some(v) => v,
                    None => default,
                };
                line.push(v);
                assert(line@ =~= Seq::new(
                    (x + 1) as nat,
                    |i: int| cell_or(self.buffer_map(), pt(i, y as int), default),
                ));
                x += 1;
            }
            let ghost prev = out@;
            out.push(line);
            assert(rows_of(out@) =~= materialized(
                self.buffer_map(),
                wid as nat,
                (y + 1) as nat,
                default,
            )) by {
                let m = materialized(self.buffer_map(), wid as nat, (y + 1) as nat, default);
                let m0 = materialized(self.buffer_map(), wid as nat, y as nat, default);
                assert forall|i: int| 0 <= i < y + 1 implies #[trigger] rows_of(out@)[i] == m[i] by {
                    assert(out@.len() == y + 1);
                    if i < y {
                        assert(out@[i] == prev[i]);
                        assert(rows_of(prev)[i] == m0[i]);
                        assert(m0[i] =~= m[i]);
                    } else {
                        assert(out@[i] == line);
                        assert(line@ =~= m[i]);
                    }
                }
            }
            y += 1;
        }
        out
    }
}

impl<T: CellValue> Default for Container<T> {
    fn default() -> (r: Self)
        ensures
            r.wf(),
            r.windows_seq().len() == 0,
            r.buffer_map() == Map::<Point, T>::empty(),
            r.changed_seq().len() == 0,
    {
        Container::new()
    }
}

impl Container<char> {
    /// The text of the cells from `(0, 0)` to `(wid, hgt)`: one line per row,
    /// with `default` where the buffer holds no value.
    pub fn to_string_with_default(&self, wid: u16, hgt: u16, default: char) -> (r: String)
        requires
            self.wf(),
        ensures
            r@ == grid_text(materialized(self.buffer_map(), wid as nat, hgt as nat, default)),
    {
        let grid = self.materialize(wid, hgt, default);
        let ghost rows = materialized(self.buffer_map(), wid as nat, hgt as nat, default);
        let mut out: Vec<char> = Vec::new();
        let mut y: usize = 0;
        while y < grid.len()
            invariant
                rows_of(grid@) == rows,
                y <= grid@.len(),
                out@ == grid_text(rows.take(y as int)),
            decreases grid@.len() - y,
        {
            let line = &grid[y];
            let ghost start = out@;
            let mut x: usize = 0;
            while x < line.len()
                invariant
                    x <= line@.len(),
                    out@ == start + line@.take(x as int),
                decreases line@.len() - x,
            {
                out.push(line[x]);
                assert(out@ =~= start + line@.take(x + 1));
                x += 1;
            }
            out.push('\n');
            assert(rows.take(y + 1).drop_last() =~= rows.take(y as int));
            assert(line@.take(line@.len() as int) =~= line@);
            assert(rows[y as int] == grid@[y as int]@);
            y += 1;
        }
        assert(rows.take(grid@.len() as int) =~= rows);
        string_of_chars(&out)
    }

    /// The text of the cells from `(0, 0)` to `(wid, hgt)`, with the null
    /// character where the buffer holds no value.
    pub fn to_string(&self, wid: u16, hgt: u16) -> (r: String)
        requires
            self.wf(),
        ensures
            r@ == grid_text(materialized(self.buffer_map(), wid as nat, hgt as nat, '\0')),
    {
        self.to_string_with_default(wid, hgt, '\0')
    }
}

} // verus!
