//! Positions on a `width` x `height` grid, their cell numbers and the
//! clipped 3x3 window of neighbours around a position.
use vstd::prelude::*;

verus! {

/// A cell of the grid, as (column, row).
pub type Position = (usize, usize);

/// `p` lies in `[0, width) x [0, height)`.
pub open spec fn in_bounds(width: nat, height: nat, p: Position) -> bool {
    p.0 < width && p.1 < height
}

/// The number of a cell when the grid is read row by row.
pub open spec fn cell_index(width: nat, p: Position) -> int {
    p.1 * width + p.0
}

/// Column of the `k`-th cell (`0 <= k < 9`) of the 3x3 window centred on `p`;
/// the window is walked column by column, and each column top to bottom.
pub open spec fn window_col(p: Position, k: int) -> int {
    p.0 - 1 + k / 3
}

/// Row of the `k`-th cell of the 3x3 window centred on `p`.
pub open spec fn window_row(p: Position, k: int) -> int {
    p.1 - 1 + k % 3
}

/// The `k`-th cell of the window lies on the grid and is not `p` itself.
pub open spec fn window_keeps(width: nat, height: nat, p: Position, k: int) -> bool {
    let c = window_col(p, k);
    let r = window_row(p, k);
    0 <= c < width && 0 <= r < height && !(c == p.0 && r == p.1)
}

/// The neighbours of `p` among the first `k` cells of its window, in window order.
pub open spec fn neighbours_upto(width: nat, height: nat, p: Position, k: int) -> Seq<Position>
    decreases k,
{
    if k <= 0 {
        Seq::empty()
    } else {
        let prev = neighbours_upto(width, height, p, k - 1);
        if window_keeps(width, height, p, k - 1) {
            prev.push((window_col(p, k - 1) as usize, window_row(p, k - 1) as usize))
        } else {
            prev
        }
    }
}

/// The neighbours of `p`: the cells of the 3x3 window around `p` that lie on
/// the grid, without `p`, by column and then by row.
pub open spec fn neighbours_of(width: nat, height: nat, p: Position) -> Seq<Position> {
    neighbours_upto(width, height, p, 9)
}

/// `q` is one of the (up to) eight cells around `p`.
pub open spec fn adjacent(p: Position, q: Position) -> bool {
    q != p && p.0 <= q.0 + 1 && q.0 <= p.0 + 1 && p.1 <= q.1 + 1 && q.1 <= p.1 + 1
}

/// Where `q` stands in the window of `p`.
pub open spec fn window_pos(p: Position, q: Position) -> int {
    (q.0 - p.0 + 1) * 3 + (q.1 - p.1 + 1)
}

/// How many neighbours a cell has on a grid of at least three columns and
/// three rows: three in a corner, five elsewhere on the border, eight inside.
pub open spec fn expected_neighbour_count(width: nat, height: nat, p: Position) -> nat {
    let col_edge = p.0 == 0 || p.0 + 1 == width;
    let row_edge = p.1 == 0 || p.1 + 1 == height;
    if col_edge && row_edge {
        3
    } else if col_edge || row_edge {
        5
    } else {
        8
    }
}

/// Every cell has a number of its own, and the numbers of the cells of the
/// grid are those of `[0, width * height)`.
pub proof fn lemma_cell_index(width: nat, height: nat, p: Position, q: Position)
    requires
        in_bounds(width, height, p),
        in_bounds(width, height, q),
    ensures
        0 <= cell_index(width, p) < width * height,
        cell_index(width, p) == cell_index(width, q) ==> p == q,
{
    let (px, py) = (p.0 as int, p.1 as int);
    let (qx, qy) = (q.0 as int, q.1 as int);
    let w = width as int;
    assert(py * w + w == (py + 1) * w) by (nonlinear_arith);
    assert((py + 1) * w <= height * w) by (nonlinear_arith)
        requires
            py + 1 <= height,
            0 <= w,
    ;
    assert(0 <= py * w) by (nonlinear_arith)
        requires
            0 <= py,
            0 <= w,
    ;
    if py < qy {
        assert((py + 1) * w <= qy * w) by (nonlinear_arith)
            requires
                py + 1 <= qy,
                0 <= w,
        ;
    } else if qy < py {
        assert(qy * w + w == (qy + 1) * w) by (nonlinear_arith);
        assert((qy + 1) * w <= py * w) by (nonlinear_arith)
            requires
                qy + 1 <= py,
                0 <= w,
        ;
    }
}

/// The facts about `neighbours_upto` that hold cell by cell of the window.
proof fn lemma_neighbours_upto(width: nat, height: nat, p: Position, k: int)
    requires
        in_bounds(width, height, p),
        width <= usize::MAX,
        height <= usize::MAX,
        0 <= k <= 9,
    ensures
        ({
            let s = neighbours_upto(width, height, p, k);
            &&& s.len() <= k
            &&& k > 4 ==> s.len() < k
            &&& forall|i: int|
                0 <= i < s.len() ==> {
                    &&& in_bounds(width, height, #[trigger] s[i])
                    &&& adjacent(p, s[i])
                    &&& 0 <= window_pos(p, s[i]) < k
                }
            &&& forall|i: int, j: int|
                0 <= i < j < s.len() ==> window_pos(p, #[trigger] s[i]) < window_pos(
                    p,
                    #[trigger] s[j],
                )
            &&& forall|q: Position|
                in_bounds(width, height, q) && adjacent(p, q) && window_pos(p, q) < k
                    ==> #[trigger] s.contains(q)
        }),
    decreases k,
{
    if k > 0 {
        lemma_neighbours_upto(width, height, p, k - 1);
        let prev = neighbours_upto(width, height, p, k - 1);
        let s = neighbours_upto(width, height, p, k);
        let c = window_col(p, k - 1);
        let r = window_row(p, k - 1);
        assert(k - 1 == (k - 1) / 3 * 3 + (k - 1) % 3);
        if window_keeps(width, height, p, k - 1) {
            let n = (c as usize, r as usize);
            assert(window_pos(p, n) == k - 1);
            assert forall|q: Position|
                in_bounds(width, height, q) && adjacent(p, q) && window_pos(p, q) < k
                    implies #[trigger] s.contains(q) by {
                if window_pos(p, q) < k - 1 {
                    assert(prev.contains(q));
                    let i = choose|i: int| 0 <= i < prev.len() && prev[i] == q;
                    assert(s[i] == q);
                } else {
                    assert(q == n);
                    assert(s[s.len() - 1] == q);
                }
            }
        } else {
            assert forall|q: Position|
                in_bounds(width, height, q) && adjacent(p, q) && window_pos(p, q) < k
                    implies #[trigger] s.contains(q) by {
                if window_pos(p, q) == k - 1 {
                    assert(q.0 as int == c && q.1 as int == r);
                }
            }
        }
    }
}

/// The neighbours of a cell on the grid: each lies on the grid and around
/// the cell, none is the cell itself, none comes twice, every cell around it
/// on the grid is among them, and there are at most eight; on a grid of at
/// least three columns and three rows there are three in a corner, five
/// elsewhere on the border and eight inside.
pub proof fn lemma_neighbours(width: nat, height: nat, p: Position)
    requires
        in_bounds(width, height, p),
        width <= usize::MAX,
        height <= usize::MAX,
    ensures
        ({
            let s = neighbours_of(width, height, p);
            &&& s.no_duplicates()
            &&& !s.contains(p)
            &&& forall|i: int|
                0 <= i < s.len() ==> in_bounds(width, height, #[trigger] s[i]) && adjacent(
                    p,
                    s[i],
                )
            &&& forall|q: Position|
                in_bounds(width, height, q) && adjacent(p, q) ==> #[trigger] s.contains(q)
            &&& s.len() <= 8
            &&& width >= 3 && height >= 3 ==> s.len() == expected_neighbour_count(
                width,
                height,
                p,
            )
        }),
{
    lemma_neighbours_upto(width, height, p, 9);
    let s = neighbours_of(width, height, p);
    assert forall|i: int, j: int|
        0 <= i < s.len() && 0 <= j < s.len() && i != j implies s[i] != s[j] by {
        if i < j {
            assert(window_pos(p, s[i]) < window_pos(p, s[j]));
        } else {
            assert(window_pos(p, s[j]) < window_pos(p, s[i]));
        }
    }
    assert forall|q: Position| in_bounds(width, height, q) && adjacent(p, q) implies #[trigger] s.contains(
        q,
    ) by {
        assert(0 <= window_pos(p, q) < 9);
    }
    if width >= 3 && height >= 3 {
        reveal_with_fuel(neighbours_upto, 10);
    }
}

/// `c - 1 + d`, where that lies in `[0, limit)`.
fn window_coord(c: usize, d: usize, limit: usize) -> (r: Option<usize>)
    requires
        c < limit,
        d < 3,
    ensures
        match r {
            Some(v) => 0 <= c - 1 + d < limit && v == c - 1 + d,
            None => !(0 <= c - 1 + d < limit),
        },
{
    if d == 0 {
        if c == 0 {
            None
        } else {
            Some(c - 1)
        }
    } else if d == 1 {
        Some(c)
    } else if c + 1 < limit {
        Some(c + 1)
    } else {
        None
    }
}

/// The neighbours of `p` on a `width` x `height` grid, in window order.
pub(crate) fn neighbour_cells(width: usize, height: usize, p: Position) -> (r: Vec<Position>)
    requires
        in_bounds(width as nat, height as nat, p),
    ensures
        r@ == neighbours_of(width as nat, height as nat, p),
{
    let mut out: Vec<Position> = Vec::new();
    let mut k: usize = 0;
    while k < 9
        invariant
            k <= 9,
            in_bounds(width as nat, height as nat, p),
            out@ == neighbours_upto(width as nat, height as nat, p, k as int),
        decreases 9 - k,
    {
        let col = window_coord(p.0, k / 3, width);
        let row = window_coord(p.1, k % 3, height);
        assert((k / 3 == 1 && k % 3 == 1) <==> k == 4);
        match (col, row) {
            (Some(c), Some(r)) => {
                if k != 4 {
                    out.push((c, r));
                }
            },
            _ => {},
        }
        k += 1;
    }
    out
}

} // verus!
