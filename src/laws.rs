use vstd::prelude::*;
use crate::point::{Point, offset_of, offset_fits};
use crate::window::Window;
use crate::container::{differs, paint, paint_row, paint_window, paint_all, flatten, all_fit};

verus! {

/// Whether one of the first `n` cells of row `row` lands on `q`.
pub open spec fn row_hits(anchor: Point, row: int, n: int, q: Point) -> bool {
    exists|c: int| 0 <= c < n && #[trigger] offset_of(anchor, c, row) == q
}

/// Whether one of the first `n` cells of row `row` lands on `q` with a value
/// that differs from `prior`'s.
pub open spec fn row_differs<T>(prior: Map<Point, T>, anchor: Point, row: int, cells: Seq<T>, n: int, q: Point) -> bool {
    exists|c: int| 0 <= c < n && #[trigger] offset_of(anchor, c, row) == q && differs(prior, q, cells[c])
}

/// Whether one of the first `n` cells of row `row` lands on `q` holding `v`.
pub open spec fn row_gives<T>(anchor: Point, row: int, cells: Seq<T>, n: int, q: Point, v: T) -> bool {
    exists|c: int| 0 <= c < n && #[trigger] offset_of(anchor, c, row) == q && cells[c] == v
}

proof fn lemma_paint_row<T>(
    prior: Map<Point, T>,
    st: (Map<Point, T>, Seq<Point>),
    anchor: Point,
    row: int,
    cells: Seq<T>,
    n: nat,
)
    requires
        n <= cells.len(),
    ensures
        ({
            let res = paint_row(prior, st, anchor, row, cells, n);
            &&& forall|q: Point| #[trigger] res.0.contains_key(q) <==> st.0.contains_key(q) || row_hits(anchor, row, n as int, q)
            &&& forall|q: Point| #[trigger] res.1.contains(q) <==> st.1.contains(q) || row_differs(prior, anchor, row, cells, n as int, q)
            &&& forall|q: Point| !row_hits(anchor, row, n as int, q) ==> #[trigger] res.0[q] == st.0[q]
            &&& forall|q: Point| #[trigger] res.0.contains_key(q) && row_hits(anchor, row, n as int, q) ==> row_gives(anchor, row, cells, n as int, q, res.0[q])
            &&& forall|c: int| 0 <= c < n && (forall|c2: int| c < c2 < n ==> offset_of(anchor, c2, row) != offset_of(anchor, c, row))
                    ==> #[trigger] res.0[offset_of(anchor, c, row)] == cells[c]
            &&& st.1.no_duplicates() ==> res.1.no_duplicates()
        }),
    decreases n,
{
    if n > 0 {
        let c = n - 1;
        lemma_paint_row(prior, st, anchor, row, cells, c as nat);
        let mid = paint_row(prior, st, anchor, row, cells, c as nat);
        let res = paint_row(prior, st, anchor, row, cells, n);
        let p = offset_of(anchor, c, row);
        assert(res == paint(prior, mid, p, cells[c]));
        assert forall|q: Point| #[trigger] res.0.contains_key(q) <==> st.0.contains_key(q) || row_hits(anchor, row, n as int, q) by {
            if row_hits(anchor, row, n as int, q) && q != p {
                let c1 = choose|c1: int| 0 <= c1 < n && #[trigger] offset_of(anchor, c1, row) == q;
                assert(row_hits(anchor, row, c as int, q));
            }
            if q == p {
                assert(row_hits(anchor, row, n as int, q));
            }
            if row_hits(anchor, row, c as int, q) {
                let c1 = choose|c1: int| 0 <= c1 < c && #[trigger] offset_of(anchor, c1, row) == q;
                assert(row_hits(anchor, row, n as int, q));
            }
        }
        assert forall|q: Point| #[trigger] res.1.contains(q) <==> st.1.contains(q) || row_differs(prior, anchor, row, cells, n as int, q) by {
            if row_differs(prior, anchor, row, cells, n as int, q) && !(q == p && differs(prior, p, cells[c])) {
                let c1 = choose|c1: int| 0 <= c1 < n && #[trigger] offset_of(anchor, c1, row) == q && differs(prior, q, cells[c1]);
                assert(row_differs(prior, anchor, row, cells, c as int, q));
            }
            if q == p && differs(prior, p, cells[c]) {
                assert(row_differs(prior, anchor, row, cells, n as int, q));
                if !mid.1.contains(p) {
                    assert(res.1[res.1.len() - 1] == p);
                }
            }
            if row_differs(prior, anchor, row, cells, c as int, q) {
                let c1 = choose|c1: int| 0 <= c1 < c && #[trigger] offset_of(anchor, c1, row) == q && differs(prior, q, cells[c1]);
                assert(row_differs(prior, anchor, row, cells, n as int, q));
            }
            if res.1 != mid.1 {
                assert(res.1 == mid.1.push(p));
                if res.1.contains(q) && q != p {
                    let k = choose|k: int| 0 <= k < res.1.len() && res.1[k] == q;
                    assert(mid.1[k] == q);
                }
                if mid.1.contains(q) {
                    let k = choose|k: int| 0 <= k < mid.1.len() && mid.1[k] == q;
                    assert(res.1[k] == q);
                }
            }
        }
        assert forall|q: Point| !row_hits(anchor, row, n as int, q) implies #[trigger] res.0[q] == st.0[q] by {
            if row_hits(anchor, row, c as int, q) {
                let c1 = choose|c1: int| 0 <= c1 < c && #[trigger] offset_of(anchor, c1, row) == q;
                assert(row_hits(anchor, row, n as int, q));
            }
            assert(offset_of(anchor, c, row) != q);
        }
        assert forall|q: Point| #[trigger] res.0.contains_key(q) && row_hits(anchor, row, n as int, q) implies row_gives(anchor, row, cells, n as int, q, res.0[q]) by {
            if q == p {
                assert(offset_of(anchor, c, row) == q && cells[c] == res.0[q]);
            } else {
                let c1 = choose|c1: int| 0 <= c1 < n && #[trigger] offset_of(anchor, c1, row) == q;
                assert(row_hits(anchor, row, c as int, q));
                assert(mid.0.contains_key(q));
                let c2 = choose|c2: int| 0 <= c2 < c && #[trigger] offset_of(anchor, c2, row) == q && cells[c2] == mid.0[q];
                assert(row_gives(anchor, row, cells, n as int, q, res.0[q]));
            }
        }
        assert forall|c1: int| 0 <= c1 < n && (forall|c2: int| c1 < c2 < n ==> offset_of(anchor, c2, row) != offset_of(anchor, c1, row))
            implies #[trigger] res.0[offset_of(anchor, c1, row)] == cells[c1] by {
            if c1 < c {
                assert(offset_of(anchor, c, row) != offset_of(anchor, c1, row));
            }
        }
    }
}

/// Whether one of the first `m` rows of `w` lands a cell on `q`.
pub open spec fn win_hits<T>(w: Window<T>, m: int, q: Point) -> bool {
    exists|r: int| 0 <= r < m && #[trigger] row_hits(w.top_left, r, w.data@[r]@.len() as int, q)
}

/// Whether one of the first `m` rows of `w` lands on `q` a cell that differs
/// from `prior`'s.
pub open spec fn win_differs<T>(prior: Map<Point, T>, w: Window<T>, m: int, q: Point) -> bool {
    exists|r: int| 0 <= r < m && #[trigger] row_differs(prior, w.top_left, r, w.data@[r]@, w.data@[r]@.len() as int, q)
}

/// Whether one of the first `m` rows of `w` lands on `q` a cell holding `v`.
pub open spec fn win_gives<T>(w: Window<T>, m: int, q: Point, v: T) -> bool {
    exists|r: int| 0 <= r < m && #[trigger] row_gives(w.top_left, r, w.data@[r]@, w.data@[r]@.len() as int, q, v)
}

/// Whether some cell of `w` lands on `q`.
pub open spec fn covers<T>(w: Window<T>, q: Point) -> bool {
    win_hits(w, w.data@.len() as int, q)
}

proof fn lemma_offset_injective(a: Point, c1: int, r1: int, c2: int, r2: int)
    requires
        offset_fits(a, c1, r1),
        offset_fits(a, c2, r2),
        offset_of(a, c1, r1) == offset_of(a, c2, r2),
    ensures
        c1 == c2,
        r1 == r2,
{
    assert((a.x + c1) as i32 == (a.x + c2) as i32);
    assert((a.y + r1) as i32 == (a.y + r2) as i32);
}

proof fn lemma_paint_window<T>(
    prior: Map<Point, T>,
    st: (Map<Point, T>, Seq<Point>),
    w: Window<T>,
    m: nat,
)
    requires
        m <= w.data@.len(),
    ensures
        ({
            let res = paint_window(prior, st, w, m);
            &&& forall|q: Point| #[trigger] res.0.contains_key(q) <==> st.0.contains_key(q) || win_hits(w, m as int, q)
            &&& forall|q: Point| #[trigger] res.1.contains(q) <==> st.1.contains(q) || win_differs(prior, w, m as int, q)
            &&& forall|q: Point| !win_hits(w, m as int, q) ==> #[trigger] res.0[q] == st.0[q]
            &&& forall|q: Point| #[trigger] res.0.contains_key(q) && win_hits(w, m as int, q) ==> win_gives(w, m as int, q, res.0[q])
            &&& w.fits() ==> forall|c: int, r: int| 0 <= r < m && #[trigger] w.has_cell(c, r)
                    ==> res.0[offset_of(w.top_left, c, r)] == w.data@[r]@[c]
            &&& st.1.no_duplicates() ==> res.1.no_duplicates()
        }),
    decreases m,
{
    if m > 0 {
        let r = m - 1;
        let a = w.top_left;
        let cells = w.data@[r]@;
        let len = cells.len();
        lemma_paint_window(prior, st, w, r as nat);
        let mid = paint_window(prior, st, w, r as nat);
        let res = paint_window(prior, st, w, m);
        assert(res == paint_row(prior, mid, a, r, cells, len));
        lemma_paint_row(prior, mid, a, r, cells, len);
        assert forall|q: Point| #[trigger] res.0.contains_key(q) <==> st.0.contains_key(q) || win_hits(w, m as int, q) by {
            if win_hits(w, m as int, q) && !row_hits(a, r, len as int, q) {
                let r1 = choose|r1: int| 0 <= r1 < m && #[trigger] row_hits(a, r1, w.data@[r1]@.len() as int, q);
                assert(win_hits(w, r as int, q));
            }
            if row_hits(a, r, len as int, q) {
                assert(win_hits(w, m as int, q));
            }
            if win_hits(w, r as int, q) {
                let r1 = choose|r1: int| 0 <= r1 < r && #[trigger] row_hits(a, r1, w.data@[r1]@.len() as int, q);
                assert(win_hits(w, m as int, q));
            }
        }
        assert forall|q: Point| #[trigger] res.1.contains(q) <==> st.1.contains(q) || win_differs(prior, w, m as int, q) by {
            if win_differs(prior, w, m as int, q) && !row_differs(prior, a, r, cells, len as int, q) {
                let r1 = choose|r1: int| 0 <= r1 < m && #[trigger] row_differs(prior, a, r1, w.data@[r1]@, w.data@[r1]@.len() as int, q);
                assert(win_differs(prior, w, r as int, q));
            }
            if row_differs(prior, a, r, cells, len as int, q) {
                assert(win_differs(prior, w, m as int, q));
            }
            if win_differs(prior, w, r as int, q) {
                let r1 = choose|r1: int| 0 <= r1 < r && #[trigger] row_differs(prior, a, r1, w.data@[r1]@, w.data@[r1]@.len() as int, q);
                assert(win_differs(prior, w, m as int, q));
            }
        }
        assert forall|q: Point| !win_hits(w, m as int, q) implies #[trigger] res.0[q] == st.0[q] by {
            if win_hits(w, r as int, q) {
                let r1 = choose|r1: int| 0 <= r1 < r && #[trigger] row_hits(a, r1, w.data@[r1]@.len() as int, q);
                assert(win_hits(w, m as int, q));
            }
            assert(!row_hits(a, r, len as int, q)) by {
                if row_hits(a, r, len as int, q) {
                    assert(win_hits(w, m as int, q));
                }
            }
        }
        assert forall|q: Point| #[trigger] res.0.contains_key(q) && win_hits(w, m as int, q) implies win_gives(w, m as int, q, res.0[q]) by {
            if row_hits(a, r, len as int, q) {
                assert(row_gives(a, r, cells, len as int, q, res.0[q]));
            } else {
                let r1 = choose|r1: int| 0 <= r1 < m && #[trigger] row_hits(a, r1, w.data@[r1]@.len() as int, q);
                assert(win_hits(w, r as int, q));
                let r2 = choose|r2: int| 0 <= r2 < r && #[trigger] row_gives(a, r2, w.data@[r2]@, w.data@[r2]@.len() as int, q, mid.0[q]);
                assert(row_gives(a, r2, w.data@[r2]@, w.data@[r2]@.len() as int, q, res.0[q]));
            }
        }
        if w.fits() {
            assert forall|c: int, r1: int| 0 <= r1 < m && #[trigger] w.has_cell(c, r1)
                implies res.0[offset_of(a, c, r1)] == w.data@[r1]@[c] by {
                let p = offset_of(a, c, r1);
                if r1 < r {
                    if row_hits(a, r, len as int, p) {
                        let c2 = choose|c2: int| 0 <= c2 < len && #[trigger] offset_of(a, c2, r) == p;
                        assert(w.has_cell(c2, r as int));
                        lemma_offset_injective(a, c, r1, c2, r as int);
                    }
                } else {
                    assert forall|c2: int| c < c2 < len implies offset_of(a, c2, r) != offset_of(a, c, r) by {
                        assert(w.has_cell(c2, r as int));
                        if offset_of(a, c2, r) == offset_of(a, c, r) {
                            lemma_offset_injective(a, c, r, c2, r as int);
                        }
                    }
                }
            }
        }
    }
}

/// Whether a cell of one of the first `k` windows lands on `q`.
pub open spec fn all_hits<T>(ws: Seq<Window<T>>, k: int, q: Point) -> bool {
    exists|i: int| 0 <= i < k && #[trigger] win_hits(ws[i], ws[i].data@.len() as int, q)
}

/// Whether a cell of one of the first `k` windows lands on `q` with a value
/// that differs from `prior`'s.
pub open spec fn all_differs<T>(prior: Map<Point, T>, ws: Seq<Window<T>>, k: int, q: Point) -> bool {
    exists|i: int| 0 <= i < k && #[trigger] win_differs(prior, ws[i], ws[i].data@.len() as int, q)
}

/// Whether a cell of one of the first `k` windows lands on `q` holding `v`.
pub open spec fn all_gives<T>(ws: Seq<Window<T>>, k: int, q: Point, v: T) -> bool {
    exists|i: int| 0 <= i < k && #[trigger] win_gives(ws[i], ws[i].data@.len() as int, q, v)
}

/// Whether some cell of some window of `ws` lands on `q`.
pub open spec fn covered<T>(ws: Seq<Window<T>>, q: Point) -> bool {
    all_hits(ws, ws.len() as int, q)
}

proof fn lemma_paint_all<T>(
    prior: Map<Point, T>,
    st: (Map<Point, T>, Seq<Point>),
    ws: Seq<Window<T>>,
    k: nat,
)
    requires
        k <= ws.len(),
    ensures
        ({
            let res = paint_all(prior, st, ws, k);
            &&& forall|q: Point| #[trigger] res.0.contains_key(q) <==> st.0.contains_key(q) || all_hits(ws, k as int, q)
            &&& forall|q: Point| #[trigger] res.1.contains(q) <==> st.1.contains(q) || all_differs(prior, ws, k as int, q)
            &&& forall|q: Point| #[trigger] res.0.contains_key(q) && all_hits(ws, k as int, q) ==> all_gives(ws, k as int, q, res.0[q])
            &&& all_fit(ws) ==> forall|i: int, c: int, r: int| 0 <= i < k && #[trigger] ws[i].has_cell(c, r)
                    && (forall|j: int| i < j < k ==> !covers(ws[j], offset_of(ws[i].top_left, c, r)))
                    ==> res.0[offset_of(ws[i].top_left, c, r)] == ws[i].data@[r]@[c]
            &&& st.1.no_duplicates() ==> res.1.no_duplicates()
        }),
    decreases k,
{
    if k > 0 {
        let i = k - 1;
        let w = ws[i];
        let len = w.data@.len();
        lemma_paint_all(prior, st, ws, i as nat);
        let mid = paint_all(prior, st, ws, i as nat);
        let res = paint_all(prior, st, ws, k);
        assert(res == paint_window(prior, mid, w, len));
        lemma_paint_window(prior, mid, w, len);
        assert forall|q: Point| #[trigger] res.0.contains_key(q) <==> st.0.contains_key(q) || all_hits(ws, k as int, q) by {
            if all_hits(ws, k as int, q) && !win_hits(w, len as int, q) {
                let i1 = choose|i1: int| 0 <= i1 < k && #[trigger] win_hits(ws[i1], ws[i1].data@.len() as int, q);
                assert(all_hits(ws, i as int, q));
            }
            if win_hits(w, len as int, q) {
                assert(all_hits(ws, k as int, q));
            }
            if all_hits(ws, i as int, q) {
                let i1 = choose|i1: int| 0 <= i1 < i && #[trigger] win_hits(ws[i1], ws[i1].data@.len() as int, q);
                assert(all_hits(ws, k as int, q));
            }
        }
        assert forall|q: Point| #[trigger] res.1.contains(q) <==> st.1.contains(q) || all_differs(prior, ws, k as int, q) by {
            if all_differs(prior, ws, k as int, q) && !win_differs(prior, w, len as int, q) {
                let i1 = choose|i1: int| 0 <= i1 < k && #[trigger] win_differs(prior, ws[i1], ws[i1].data@.len() as int, q);
                assert(all_differs(prior, ws, i as int, q));
            }
            if win_differs(prior, w, len as int, q) {
                assert(all_differs(prior, ws, k as int, q));
            }
            if all_differs(prior, ws, i as int, q) {
                let i1 = choose|i1: int| 0 <= i1 < i && #[trigger] win_differs(prior, ws[i1], ws[i1].data@.len() as int, q);
                assert(all_differs(prior, ws, k as int, q));
            }
        }
        assert forall|q: Point| #[trigger] res.0.contains_key(q) && all_hits(ws, k as int, q) implies all_gives(ws, k as int, q, res.0[q]) by {
            if win_hits(w, len as int, q) {
                assert(win_gives(w, len as int, q, res.0[q]));
            } else {
                let i1 = choose|i1: int| 0 <= i1 < k && #[trigger] win_hits(ws[i1], ws[i1].data@.len() as int, q);
                assert(all_hits(ws, i as int, q));
                let i2 = choose|i2: int| 0 <= i2 < i && #[trigger] win_gives(ws[i2], ws[i2].data@.len() as int, q, mid.0[q]);
                assert(win_gives(ws[i2], ws[i2].data@.len() as int, q, res.0[q]));
            }
        }
        if all_fit(ws) {
            assert forall|i1: int, c: int, r: int| 0 <= i1 < k && #[trigger] ws[i1].has_cell(c, r)
                && (forall|j: int| i1 < j < k ==> !covers(ws[j], offset_of(ws[i1].top_left, c, r)))
                implies res.0[offset_of(ws[i1].top_left, c, r)] == ws[i1].data@[r]@[c] by {
                assert(ws[i1].fits());
                if i1 < i {
                    assert(!covers(ws[i as int], offset_of(ws[i1].top_left, c, r)));
                }
            }
        }
    }
}

proof fn lemma_row_buffer_independent<T>(
    prior_a: Map<Point, T>,
    prior_b: Map<Point, T>,
    st: (Map<Point, T>, Seq<Point>),
    anchor: Point,
    row: int,
    cells: Seq<T>,
    n: nat,
)
    ensures
        paint_row(prior_a, st, anchor, row, cells, n).0 == paint_row(prior_b, st, anchor, row, cells, n).0,
    decreases n,
{
    if n > 0 {
        lemma_row_buffer_independent(prior_a, prior_b, st, anchor, row, cells, (n - 1) as nat);
    }
}

proof fn lemma_window_buffer_independent<T>(
    prior_a: Map<Point, T>,
    prior_b: Map<Point, T>,
    st: (Map<Point, T>, Seq<Point>),
    w: Window<T>,
    m: nat,
)
    ensures
        paint_window(prior_a, st, w, m).0 == paint_window(prior_b, st, w, m).0,
    decreases m,
{
    if m > 0 {
        let r = m - 1;
        lemma_window_buffer_independent(prior_a, prior_b, st, w, r as nat);
        let a = paint_window(prior_a, st, w, r as nat);
        let b = paint_window(prior_b, st, w, r as nat);
        lemma_row_buffer_independent(prior_a, prior_b, a, w.top_left, r, w.data@[r]@, w.data@[r]@.len());
        lemma_row_buffer_swap(prior_b, a, b, w.top_left, r, w.data@[r]@, w.data@[r]@.len());
    }
}

proof fn lemma_row_buffer_swap<T>(
    prior: Map<Point, T>,
    a: (Map<Point, T>, Seq<Point>),
    b: (Map<Point, T>, Seq<Point>),
    anchor: Point,
    row: int,
    cells: Seq<T>,
    n: nat,
)
    requires
        a.0 == b.0,
    ensures
        paint_row(prior, a, anchor, row, cells, n).0 == paint_row(prior, b, anchor, row, cells, n).0,
    decreases n,
{
    if n > 0 {
        lemma_row_buffer_swap(prior, a, b, anchor, row, cells, (n - 1) as nat);
    }
}

proof fn lemma_all_buffer_independent<T>(
    prior_a: Map<Point, T>,
    prior_b: Map<Point, T>,
    st: (Map<Point, T>, Seq<Point>),
    ws: Seq<Window<T>>,
    k: nat,
)
    ensures
        paint_all(prior_a, st, ws, k).0 == paint_all(prior_b, st, ws, k).0,
    decreases k,
{
    if k > 0 {
        let w = ws[k - 1];
        lemma_all_buffer_independent(prior_a, prior_b, st, ws, (k - 1) as nat);
        let a = paint_all(prior_a, st, ws, (k - 1) as nat);
        let b = paint_all(prior_b, st, ws, (k - 1) as nat);
        lemma_window_buffer_independent(prior_a, prior_b, a, w, w.data@.len());
        lemma_window_buffer_swap(prior_b, a, b, w, w.data@.len());
    }
}

proof fn lemma_window_buffer_swap<T>(
    prior: Map<Point, T>,
    a: (Map<Point, T>, Seq<Point>),
    b: (Map<Point, T>, Seq<Point>),
    w: Window<T>,
    m: nat,
)
    requires
        a.0 == b.0,
    ensures
        paint_window(prior, a, w, m).0 == paint_window(prior, b, w, m).0,
    decreases m,
{
    if m > 0 {
        let r = m - 1;
        lemma_window_buffer_swap(prior, a, b, w, r as nat);
        lemma_row_buffer_swap(
            prior,
            paint_window(prior, a, w, r as nat),
            paint_window(prior, b, w, r as nat),
            w.top_left,
            r,
            w.data@[r]@,
            w.data@[r]@.len(),
        );
    }
}

/// Whether cells of `ws` that land on the same position hold the same value.
pub open spec fn consistent<T>(ws: Seq<Window<T>>) -> bool {
    forall|q: Point, v1: T, v2: T|
        #[trigger] all_gives(ws, ws.len() as int, q, v1) && #[trigger] all_gives(ws, ws.len() as int, q, v2)
            ==> v1 == v2
}

/// After a refresh, the buffer holds at the position of each cell that cell's
/// value, unless a window painted later also covers that position.
pub proof fn law_flatten_cell<T>(prior: Map<Point, T>, ws: Seq<Window<T>>, i: int, c: int, r: int)
    requires
        all_fit(ws),
        0 <= i < ws.len(),
        ws[i].has_cell(c, r),
        forall|j: int| i < j < ws.len() ==> !covers(ws[j], offset_of(ws[i].top_left, c, r)),
    ensures
        flatten(prior, ws).0.contains_key(offset_of(ws[i].top_left, c, r)),
        flatten(prior, ws).0[offset_of(ws[i].top_left, c, r)] == ws[i].rows()[r][c],
{
    let p = offset_of(ws[i].top_left, c, r);
    lemma_paint_all(prior, (Map::empty(), Seq::empty()), ws, ws.len());
    assert(row_hits(ws[i].top_left, r, ws[i].data@[r]@.len() as int, p));
    assert(win_hits(ws[i], ws[i].data@.len() as int, p));
    assert(all_hits(ws, ws.len() as int, p));
}

/// Where two windows overlap, the one added later is the one that shows.
pub proof fn law_later_window_wins<T>(
    prior: Map<Point, T>,
    a: Window<T>,
    b: Window<T>,
    ca: int,
    ra: int,
    cb: int,
    rb: int,
)
    requires
        a.fits(),
        b.fits(),
        a.has_cell(ca, ra),
        b.has_cell(cb, rb),
        offset_of(a.top_left, ca, ra) == offset_of(b.top_left, cb, rb),
    ensures
        flatten(prior, seq![a, b]).0[offset_of(a.top_left, ca, ra)] == b.rows()[rb][cb],
{
    let ws = seq![a, b];
    assert(ws[1] == b);
    law_flatten_cell(prior, ws, 1, cb, rb);
}

/// On a refresh from an empty buffer, the changed positions are exactly the
/// positions that some window covers, each listed once.
pub proof fn law_first_refresh_changes<T>(ws: Seq<Window<T>>)
    ensures
        forall|q: Point| #[trigger] flatten(Map::<Point, T>::empty(), ws).1.contains(q) <==> covered(ws, q),
        flatten(Map::<Point, T>::empty(), ws).1.no_duplicates(),
{
    let prior = Map::<Point, T>::empty();
    let st0 = (Map::<Point, T>::empty(), Seq::<Point>::empty());
    lemma_paint_all(prior, st0, ws, ws.len());
    assert forall|q: Point| #[trigger] flatten(prior, ws).1.contains(q) <==> covered(ws, q) by {
        if covered(ws, q) {
            let i = choose|i: int| 0 <= i < ws.len() && #[trigger] win_hits(ws[i], ws[i].data@.len() as int, q);
            let w = ws[i];
            let r = choose|r: int| 0 <= r < w.data@.len() && #[trigger] row_hits(w.top_left, r, w.data@[r]@.len() as int, q);
            let c = choose|c: int| 0 <= c < w.data@[r]@.len() && #[trigger] offset_of(w.top_left, c, r) == q;
            assert(differs(prior, q, w.data@[r]@[c]));
            assert(row_differs(prior, w.top_left, r, w.data@[r]@, w.data@[r]@.len() as int, q));
            assert(win_differs(prior, w, w.data@.len() as int, q));
            assert(all_differs(prior, ws, ws.len() as int, q));
        }
        if all_differs(prior, ws, ws.len() as int, q) {
            let i = choose|i: int| 0 <= i < ws.len() && #[trigger] win_differs(prior, ws[i], ws[i].data@.len() as int, q);
            let w = ws[i];
            let r = choose|r: int| 0 <= r < w.data@.len() && #[trigger] row_differs(prior, w.top_left, r, w.data@[r]@, w.data@[r]@.len() as int, q);
            let c = choose|c: int| 0 <= c < w.data@[r]@.len() && #[trigger] offset_of(w.top_left, c, r) == q && differs(prior, q, w.data@[r]@[c]);
            assert(row_hits(w.top_left, r, w.data@[r]@.len() as int, q));
            assert(win_hits(w, w.data@.len() as int, q));
        }
    }
}

/// A second refresh with no change to the windows in between reports no
/// change and leaves the buffer as it was, when cells that land on the same
/// position hold the same value.
pub proof fn law_refresh_idempotent<T>(prior: Map<Point, T>, ws: Seq<Window<T>>)
    requires
        consistent(ws),
    ensures
        flatten(flatten(prior, ws).0, ws).0 == flatten(prior, ws).0,
        flatten(flatten(prior, ws).0, ws).1.len() == 0,
{
    let st0 = (Map::<Point, T>::empty(), Seq::<Point>::empty());
    let b1 = flatten(prior, ws).0;
    let f2 = flatten(b1, ws);
    lemma_all_buffer_independent(prior, b1, st0, ws, ws.len());
    lemma_paint_all(prior, st0, ws, ws.len());
    lemma_paint_all(b1, st0, ws, ws.len());
    if f2.1.len() > 0 {
        let q = f2.1[0];
        assert(f2.1.contains(q));
        assert(all_differs(b1, ws, ws.len() as int, q));
        let i = choose|i: int| 0 <= i < ws.len() && #[trigger] win_differs(b1, ws[i], ws[i].data@.len() as int, q);
        let w = ws[i];
        let r = choose|r: int| 0 <= r < w.data@.len() && #[trigger] row_differs(b1, w.top_left, r, w.data@[r]@, w.data@[r]@.len() as int, q);
        let c = choose|c: int| 0 <= c < w.data@[r]@.len() && #[trigger] offset_of(w.top_left, c, r) == q && differs(b1, q, w.data@[r]@[c]);
        let v = w.data@[r]@[c];
        assert(row_gives(w.top_left, r, w.data@[r]@, w.data@[r]@.len() as int, q, v));
        assert(win_gives(w, w.data@.len() as int, q, v));
        assert(all_gives(ws, ws.len() as int, q, v));
        assert(row_hits(w.top_left, r, w.data@[r]@.len() as int, q));
        assert(win_hits(w, w.data@.len() as int, q));
        assert(all_hits(ws, ws.len() as int, q));
        assert(b1.contains_key(q));
        assert(all_gives(ws, ws.len() as int, q, b1[q]));
    }
}

/// A window removed between two refreshes leaves no trace: the positions that
/// only it covered are gone from the buffer and are not reported as changed.
pub proof fn law_removed_window_not_reported<T>(prior: Map<Point, T>, ws: Seq<Window<T>>, k: int, q: Point)
    requires
        0 <= k < ws.len(),
        covers(ws[k], q),
        !covered(ws.remove(k), q),
    ensures
        !flatten(prior, ws.remove(k)).0.contains_key(q),
        !flatten(prior, ws.remove(k)).1.contains(q),
{
    let rest = ws.remove(k);
    let st0 = (Map::<Point, T>::empty(), Seq::<Point>::empty());
    lemma_paint_all(prior, st0, rest, rest.len());
    if all_differs(prior, rest, rest.len() as int, q) {
        let i = choose|i: int| 0 <= i < rest.len() && #[trigger] win_differs(prior, rest[i], rest[i].data@.len() as int, q);
        let w = rest[i];
        let r = choose|r: int| 0 <= r < w.data@.len() && #[trigger] row_differs(prior, w.top_left, r, w.data@[r]@, w.data@[r]@.len() as int, q);
        let c = choose|c: int| 0 <= c < w.data@[r]@.len() && #[trigger] offset_of(w.top_left, c, r) == q && differs(prior, q, w.data@[r]@[c]);
        assert(row_hits(w.top_left, r, w.data@[r]@.len() as int, q));
        assert(win_hits(w, w.data@.len() as int, q));
    }
}

/// Changing the value of one cell between two refreshes makes the second
/// refresh report exactly that cell's position, when no other cell covers it
/// and cells that land on the same position hold the same value.
pub proof fn law_one_cell_change<T>(prior: Map<Point, T>, ws: Seq<Window<T>>, i: int, c: int, r: int, w2: Window<T>, v: T)
    requires
        all_fit(ws),
        consistent(ws),
        0 <= i < ws.len(),
        ws[i].has_cell(c, r),
        ws[i].rows()[r][c] != v,
        forall|j: int| 0 <= j < ws.len() && j != i ==> !covers(ws[j], offset_of(ws[i].top_left, c, r)),
        w2.top_left == ws[i].top_left,
        w2.rows() == ws[i].rows().update(r, ws[i].rows()[r].update(c, v)),
    ensures
        flatten(flatten(prior, ws).0, ws.update(i, w2)).1 == seq![offset_of(ws[i].top_left, c, r)],
{
    let st0 = (Map::<Point, T>::empty(), Seq::<Point>::empty());
    let p = offset_of(ws[i].top_left, c, r);
    let ws2 = ws.update(i, w2);
    let w1 = ws[i];
    let b1 = flatten(prior, ws).0;
    let f2 = flatten(b1, ws2);
    lemma_paint_all(prior, st0, ws, ws.len());
    lemma_paint_all(b1, st0, ws2, ws2.len());
    law_flatten_cell(prior, ws, i, c, r);
    assert(w2.data@.len() == w1.data@.len()) by {
        assert(w2.rows().len() == w1.rows().len());
    }
    assert forall|r1: int| 0 <= r1 < w1.data@.len() implies #[trigger] w2.data@[r1]@ == if r1 == r {
        w1.data@[r1]@.update(c, v)
    } else {
        w1.data@[r1]@
    } by {
        assert(w2.rows()[r1] == w2.data@[r1]@);
        assert(w1.rows()[r1] == w1.data@[r1]@);
    }
    // The changed position is reported.
    assert(ws2.len() == ws.len() && ws2[i] == w2);
    assert(w2.data@[r]@[c] == v);
    assert(differs(b1, p, v));
    assert(row_differs(b1, w2.top_left, r, w2.data@[r]@, w2.data@[r]@.len() as int, p));
    assert(win_differs(b1, ws2[i], ws2[i].data@.len() as int, p));
    assert(f2.1.contains(p));
    // No other position is.
    assert forall|q: Point| #[trigger] f2.1.contains(q) implies q == p by {
        if q != p {
            let j = choose|j: int| 0 <= j < ws2.len() && #[trigger] win_differs(b1, ws2[j], ws2[j].data@.len() as int, q);
            let w = ws2[j];
            let r1 = choose|r1: int| 0 <= r1 < w.data@.len() && #[trigger] row_differs(b1, w.top_left, r1, w.data@[r1]@, w.data@[r1]@.len() as int, q);
            let c1 = choose|c1: int| 0 <= c1 < w.data@[r1]@.len() && #[trigger] offset_of(w.top_left, c1, r1) == q && differs(b1, q, w.data@[r1]@[c1]);
            let u = w.data@[r1]@[c1];
            let wo = ws[j];
            assert(wo.data@.len() == w.data@.len());
            assert(wo.data@[r1]@.len() == w.data@[r1]@.len());
            assert(wo.data@[r1]@[c1] == u);
            assert(row_gives(wo.top_left, r1, wo.data@[r1]@, wo.data@[r1]@.len() as int, q, u));
            assert(win_gives(wo, wo.data@.len() as int, q, u));
            assert(all_gives(ws, ws.len() as int, q, u));
            assert(row_hits(wo.top_left, r1, wo.data@[r1]@.len() as int, q));
            assert(win_hits(wo, wo.data@.len() as int, q));
            assert(all_hits(ws, ws.len() as int, q));
            assert(b1.contains_key(q));
            assert(all_gives(ws, ws.len() as int, q, b1[q]));
        }
    }
    let s = f2.1;
    if s.len() > 1 {
        assert(s.contains(s[0]));
        assert(s.contains(s[1]));
    }
    assert(s.len() == 1);
    assert(s.contains(s[0]));
    assert(s =~= seq![p]);
}

} // verus!
