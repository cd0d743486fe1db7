//! Rectangular windows of a flat, row-major buffer.

use vstd::prelude::*;
use vstd::arithmetic::div_mod::lemma_fundamental_div_mod;
use vstd::arithmetic::div_mod::lemma_fundamental_div_mod_converse;

verus! {

/// Row and column of a flat row-major index in a grid that is `cols` wide.
pub open spec fn cell_of(index: int, cols: int) -> (int, int) {
    (index / cols, index % cols)
}

/// The buffer index behind cell `(i, j)` of a window whose first cell sits at
/// offset `start` of a buffer that is `buf_cols` wide.
pub open spec fn window_index(buf_cols: int, start: int, i: int, j: int) -> int {
    (start / buf_cols + i) * buf_cols + start % buf_cols + j
}

/// Whether a non-empty window of `rows` by `cols` cells starting at `start`
/// lies inside a buffer of `len` cells that is `buf_cols` wide: its last
/// cell, the one with the largest index, is still a cell of the buffer.
pub open spec fn window_fits(len: int, buf_cols: int, start: int, rows: int, cols: int) -> bool {
    &&& buf_cols > 0
    &&& rows > 0
    &&& cols > 0
    &&& window_index(buf_cols, start, rows - 1, cols - 1) < len
}

/// The cells of a window in row-major order.
pub open spec fn window_cells<T>(
    buf: Seq<T>,
    buf_cols: int,
    start: int,
    rows: int,
    cols: int,
) -> Seq<T> {
    Seq::new(
        (rows * cols) as nat,
        |k: int| buf[window_index(buf_cols, start, k / cols, k % cols)],
    )
}

/// What `subrect` returns: the cells of the window where it fits, nothing
/// where it does not.
pub open spec fn subrect_spec<T>(
    buf: Seq<T>,
    buf_cols: int,
    start: int,
    rows: int,
    cols: int,
) -> Seq<T> {
    if window_fits(buf.len() as int, buf_cols, start, rows, cols) {
        window_cells(buf, buf_cols, start, rows, cols)
    } else {
        Seq::empty()
    }
}

/// A window index is the start offset plus whole buffer rows plus a column step.
pub proof fn lemma_window_index_linear(buf_cols: int, start: int, i: int, j: int)
    requires
        buf_cols > 0,
    ensures
        window_index(buf_cols, start, i, j) == start + i * buf_cols + j,
{
    lemma_fundamental_div_mod(start, buf_cols);
    assert((start / buf_cols + i) * buf_cols == buf_cols * (start / buf_cols) + i * buf_cols)
        by (nonlinear_arith);
}

/// Every cell of a window that fits is a cell of the buffer.
pub proof fn lemma_window_in_bounds(
    len: int,
    buf_cols: int,
    start: int,
    rows: int,
    cols: int,
    i: int,
    j: int,
)
    requires
        start >= 0,
        window_fits(len, buf_cols, start, rows, cols),
        0 <= i < rows,
        0 <= j < cols,
    ensures
        0 <= window_index(buf_cols, start, i, j) < len,
{
    lemma_window_index_linear(buf_cols, start, i, j);
    lemma_window_index_linear(buf_cols, start, rows - 1, cols - 1);
    assert(i * buf_cols <= (rows - 1) * buf_cols) by (nonlinear_arith)
        requires
            i <= rows - 1,
            buf_cols > 0,
    ;
    assert(0 <= i * buf_cols) by (nonlinear_arith)
        requires
            0 <= i,
            buf_cols > 0,
    ;
}

/// The output position `i * cols + j` of a window is cell `(i, j)` of it.
pub proof fn lemma_cell_of_position(cols: int, i: int, j: int)
    requires
        0 <= j < cols,
    ensures
        cell_of(i * cols + j, cols) == (i, j),
{
    lemma_fundamental_div_mod_converse(i * cols + j, cols, i, j);
}

/// The first cell of a window is its origin: it lies no row down and no
/// column across, so that it has the coordinates of the window's start.
pub proof fn lemma_first_cell_is_origin(cols: int)
    requires
        cols > 0,
    ensures
        cell_of(0, cols) == (0int, 0int),
{
    lemma_cell_of_position(cols, 0, 0);
}

/// Splits a flat row-major index into its row and its column.
pub fn split_index(index: usize, cols: usize) -> (cell: (usize, usize))
    requires
        cols > 0,
    ensures
        (cell.0 as int, cell.1 as int) == cell_of(index as int, cols as int),
{
    (index / cols, index % cols)
}

/// Decides whether the window fits, without overflowing on the way.
fn fits(len: usize, buf_cols: usize, start: usize, rows: usize, cols: usize) -> (ok: bool)
    ensures
        ok == window_fits(len as int, buf_cols as int, start as int, rows as int, cols as int),
{
    if buf_cols == 0 || rows == 0 || cols == 0 {
        return false;
    }
    proof {
        lemma_window_index_linear(buf_cols as int, start as int, rows - 1, cols - 1);
        assert(0 <= (rows - 1) * buf_cols) by (nonlinear_arith)
            requires
                rows >= 1,
                buf_cols > 0,
        ;
    }
    let down: usize = match (rows - 1).checked_mul(buf_cols) {
        Some(d) => d,
        None => { return false; },
    };
    let row_start: usize = match start.checked_add(down) {
        Some(s) => s,
        None => { return false; },
    };
    match row_start.checked_add(cols - 1) {
        Some(last) => last < len,
        None => false,
    }
}

/// Copies a window of `subdim.0` rows by `subdim.1` columns out of `buf`, a
/// row-major buffer that is `buf_cols` wide. The window's first cell is
/// `buf[start]`; each further row starts `buf_cols` cells after the one
/// before. The result is the window in row-major order. Where the window
/// would reach past the end of `buf`, or `buf_cols` is zero, the result is
/// empty.
pub fn subrect<T: Copy>(buf: &[T], buf_cols: usize, start: usize, subdim: (usize, usize)) -> (out:
    Vec<T>)
    ensures
        out@ == subrect_spec(
            buf@,
            buf_cols as int,
            start as int,
            subdim.0 as int,
            subdim.1 as int,
        ),
{
    let (s, t) = subdim;
    let len: usize = buf.len();
    if !fits(len, buf_cols, start, s, t) {
        return Vec::new();
    }
    let ghost want = window_cells(buf@, buf_cols as int, start as int, s as int, t as int);
    let mut v: Vec<T> = Vec::new();
    let mut i: usize = 0;
    while i < s
        invariant
            i <= s,
            len == buf@.len(),
            window_fits(buf@.len() as int, buf_cols as int, start as int, s as int, t as int),
            want == window_cells(buf@, buf_cols as int, start as int, s as int, t as int),
            v@.len() == i * t,
            v@.len() <= want.len(),
            forall|k: int| 0 <= k < v@.len() ==> v@[k] == want[k],
        decreases s - i,
    {
        let mut j: usize = 0;
        while j < t
            invariant
                i < s,
                j <= t,
                len == buf@.len(),
                window_fits(buf@.len() as int, buf_cols as int, start as int, s as int, t as int),
                want == window_cells(buf@, buf_cols as int, start as int, s as int, t as int),
                v@.len() == i * t + j,
                v@.len() <= want.len(),
                forall|k: int| 0 <= k < v@.len() ==> v@[k] == want[k],
            decreases t - j,
        {
            proof {
                lemma_window_in_bounds(
                    buf@.len() as int,
                    buf_cols as int,
                    start as int,
                    s as int,
                    t as int,
                    i as int,
                    j as int,
                );
                lemma_window_index_linear(buf_cols as int, start as int, i as int, j as int);
                lemma_cell_of_position(t as int, i as int, j as int);
                assert(0 <= i * buf_cols) by (nonlinear_arith)
                    requires
                        0 <= i,
                        buf_cols > 0,
                ;
                assert(i * t + j < s * t) by (nonlinear_arith)
                    requires
                        0 <= i < s,
                        0 <= j < t,
                ;
                assert(start + i * buf_cols + j < buf@.len());
            }
            let at: usize = start + i * buf_cols + j;
            v.push(buf[at]);
            j += 1;
        }
        proof {
            assert(i * t + t == (i + 1) * t) by (nonlinear_arith);
        }
        i += 1;
    }
    assert(v@ =~= want);
    v
}

} // verus!
