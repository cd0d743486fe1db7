//! Matching a shape against a window of a distance buffer, and the best
//! cells of the match.

use geogrid::util::Device;
use geogrid::util::Processor;
use vstd::prelude::*;
use crate::config::Engine;
use crate::rank::is_ranking;
use crate::rank::rank;
use crate::rank::window_offsets;
use crate::rank::TOP_K;
use crate::saved::SavedLocation;
use crate::window::cell_of;
use crate::window::subrect;
use crate::window::subrect_spec;

verus! {

/// The radius, in cells, within which only the best score is kept.
pub const SUPPRESS_RADIUS: usize = 2;

/// A shape as rows of cells.
pub open spec fn mask_of(shape: Seq<Vec<bool>>) -> Seq<Seq<bool>> {
    Seq::new(shape.len(), |r: int| shape[r]@)
}

/// The score of every cell of a window for a shape, as
/// `geogrid::util::match_shape` computes it.
pub uninterp spec fn match_scores(
    window: Seq<i32>,
    rows: nat,
    cols: nat,
    mask: Seq<Seq<bool>>,
    radius: nat,
    engine: Engine,
) -> Seq<i32>;

/// The number of marked cells among the first `upto` of a row.
pub open spec fn row_marks(row: Seq<bool>, upto: int) -> nat
    decreases upto,
{
    if upto <= 0 {
        0
    } else {
        row_marks(row, upto - 1) + if row[upto - 1] {
            1nat
        } else {
            0nat
        }
    }
}

/// The number of marked cells in the first `upto` rows of a shape.
pub open spec fn marks(mask: Seq<Seq<bool>>, upto: int) -> nat
    decreases upto,
{
    if upto <= 0 {
        0
    } else {
        marks(mask, upto - 1) + row_marks(mask[upto - 1], mask[upto - 1].len() as int)
    }
}

/// A shape that can be laid on a window of these dimensions: it has a first
/// row, no row is longer than the first, and it is no larger than the window.
pub open spec fn shape_fits(mask: Seq<Seq<bool>>, rows: nat, cols: nat) -> bool {
    &&& 1 <= mask.len() <= rows
    &&& mask[0].len() <= cols
    &&& forall|r: int| 0 <= r < mask.len() ==> (#[trigger] mask[r]).len() <= mask[0].len()
}

/// No sum of `marked` values of the window leaves the values' type: none is
/// negative, and `marked` times any of them fits.
pub open spec fn sums_fit(window: Seq<i32>, marked: nat) -> bool {
    forall|i: int| 0 <= i < window.len() ==> 0 <= (#[trigger] window[i]) && window[i] * marked
        <= i32::MAX
}

/// The shape can be matched against the window.
pub open spec fn can_match(
    window: Seq<i32>,
    rows: nat,
    cols: nat,
    mask: Seq<Seq<bool>>,
    radius: nat,
) -> bool {
    &&& window.len() == rows * cols
    &&& rows * cols <= i32::MAX
    &&& rows + radius < i32::MAX
    &&& cols + radius < i32::MAX
    &&& shape_fits(mask, rows, cols)
    &&& sums_fit(window, marks(mask, mask.len() as int))
}

/// Calls `geogrid::util::match_shape`. Trusted: the result is the function
/// of the arguments that is named `match_scores`, with one score for each
/// cell of the window.
#[verifier::external_body]
pub(crate) fn run_matcher(
    window: &[i32],
    rows: usize,
    cols: usize,
    shape: &Vec<Vec<bool>>,
    radius: usize,
    engine: Engine,
) -> (scores: Vec<i32>)
    requires
        can_match(window@, rows as nat, cols as nat, mask_of(shape@), radius as nat),
    ensures
        scores@ == match_scores(
            window@,
            rows as nat,
            cols as nat,
            mask_of(shape@),
            radius as nat,
            engine,
        ),
        scores@.len() == rows * cols,
{
    let device = Device {  };
    let processor = match engine {
        Engine::SingleCore => Processor::SingleCore,
        Engine::MultiCore => Processor::MultiCore,
        Engine::Device { step } => Processor::GPU(&device, step),
    };
    geogrid::util::match_shape(window, (rows, cols), shape, radius, processor)
}

/// A row has no more marked cells than cells.
proof fn lemma_row_marks_bound(row: Seq<bool>, upto: int)
    requires
        0 <= upto,
    ensures
        row_marks(row, upto) <= upto,
    decreases upto,
{
    if upto > 0 {
        lemma_row_marks_bound(row, upto - 1);
    }
}

/// Rows that are at most `width` long have at most `width` marked cells each.
proof fn lemma_marks_bound(mask: Seq<Seq<bool>>, upto: int, width: nat)
    requires
        0 <= upto <= mask.len(),
        forall|r: int| 0 <= r < mask.len() ==> (#[trigger] mask[r]).len() <= width,
    ensures
        marks(mask, upto) <= upto * width,
    decreases upto,
{
    if upto > 0 {
        lemma_marks_bound(mask, upto - 1, width);
        lemma_row_marks_bound(mask[upto - 1], mask[upto - 1].len() as int);
        assert((upto - 1) * width + width == upto * width) by (nonlinear_arith);
    }
}

/// Whether the shape can be laid on a window of these dimensions.
fn fits(shape: &Vec<Vec<bool>>, rows: usize, cols: usize) -> (ok: bool)
    ensures
        ok == shape_fits(mask_of(shape@), rows as nat, cols as nat),
{
    let n: usize = shape.len();
    if n < 1 || n > rows {
        return false;
    }
    let width: usize = shape[0].len();
    if width > cols {
        return false;
    }
    let ghost mask = mask_of(shape@);
    let mut r: usize = 0;
    while r < n
        invariant
            r <= n,
            n == shape@.len(),
            n >= 1,
            mask == mask_of(shape@),
            width == mask[0].len(),
            forall|k: int| 0 <= k < r ==> (#[trigger] mask[k]).len() <= width,
        decreases n - r,
    {
        if shape[r].len() > width {
            assert(mask[r as int].len() > mask[0].len());
            return false;
        }
        r += 1;
    }
    true
}

/// Counts the marked cells of a shape whose rows are at most `width` long.
fn count_marks(shape: &Vec<Vec<bool>>, width: usize) -> (count: usize)
    requires
        forall|r: int| 0 <= r < shape@.len() ==> (#[trigger] shape@[r])@.len() <= width,
        shape@.len() * width <= usize::MAX,
    ensures
        count == marks(mask_of(shape@), shape@.len() as int),
        count <= shape@.len() * width,
{
    let ghost mask = mask_of(shape@);
    let n: usize = shape.len();
    let mut count: usize = 0;
    let mut r: usize = 0;
    while r < n
        invariant
            r <= n,
            n == shape@.len(),
            mask == mask_of(shape@),
            forall|k: int| 0 <= k < mask.len() ==> (#[trigger] mask[k]).len() <= width,
            n * width <= usize::MAX,
            count == marks(mask, r as int),
            count <= r * width,
        decreases n - r,
    {
        let row = &shape[r];
        let len: usize = row.len();
        let ghost start = count;
        assert(mask[r as int] == row@);
        let mut c: usize = 0;
        proof {
            assert(r * width + width <= n * width) by (nonlinear_arith)
                requires
                    r < n,
            ;
        }
        while c < len
            invariant
                c <= len,
                len == row@.len(),
                len <= width,
                count == start + row_marks(row@, c as int),
                start <= r * width,
                r * width + width <= usize::MAX,
                row_marks(row@, c as int) <= c,
            decreases len - c,
        {
            if row[c] {
                count += 1;
            }
            c += 1;
        }
        proof {
            assert(r * width + width == (r + 1) * width) by (nonlinear_arith);
        }
        r += 1;
    }
    proof {
        lemma_marks_bound(mask, n as int, width as nat);
    }
    count
}

/// Whether no sum of `marked` values of the window leaves the values' type.
fn sums_stay(window: &[i32], marked: usize) -> (ok: bool)
    requires
        marked <= i32::MAX,
    ensures
        ok == sums_fit(window@, marked as nat),
{
    let n: usize = window.len();
    let mut i: usize = 0;
    while i < n
        invariant
            i <= n,
            n == window@.len(),
            marked <= i32::MAX,
            forall|j: int|
                0 <= j < i ==> 0 <= (#[trigger] window@[j]) && window@[j] * marked <= i32::MAX,
        decreases n - i,
    {
        let v: i32 = window[i];
        if v < 0 {
            return false;
        }
        assert(0 <= v * marked <= 0x7fff_ffff * 0x7fff_ffff) by (nonlinear_arith)
            requires
                0 <= v <= 0x7fff_ffff,
                0 <= marked <= 0x7fff_ffff,
        ;
        let total: u64 = (v as u64) * (marked as u64);
        if total > 0x7fff_ffff {
            return false;
        }
        i += 1;
    }
    true
}

/// Whether the shape can be matched against the window.
fn matchable(window: &[i32], rows: usize, cols: usize, shape: &Vec<Vec<bool>>, radius: usize) -> (ok:
    bool)
    ensures
        ok == can_match(window@, rows as nat, cols as nat, mask_of(shape@), radius as nat),
{
    let area: usize = match rows.checked_mul(cols) {
        Some(a) => a,
        None => { return false; },
    };
    if window.len() != area || area > 0x7fff_ffff {
        return false;
    }
    if rows >= 0x7fff_ffff || cols >= 0x7fff_ffff || radius >= 0x7fff_ffff - rows || radius
        >= 0x7fff_ffff - cols {
        return false;
    }
    if !fits(shape, rows, cols) {
        return false;
    }
    let width: usize = shape[0].len();
    proof {
        let mask = mask_of(shape@);
        assert(mask[0].len() == width);
        assert forall|r: int| 0 <= r < shape@.len() implies (#[trigger] shape@[r])@.len()
            <= width by {
            assert(mask[r] == shape@[r]@);
        }
        assert(shape@.len() * width <= rows * cols) by (nonlinear_arith)
            requires
                shape@.len() <= rows,
                width <= cols,
        ;
    }
    let marked = count_marks(shape, width);
    sums_stay(window, marked)
}

/// Scores every cell of a window of `dims.0` rows by `dims.1` columns for
/// a shape, where the shape can be matched against the window: the window
/// has one value for each cell, the shape has a first row, no longer row,
/// and is no larger than the window, and no sum of as many values of the
/// window as the shape has marked cells leaves the values' type.
pub fn match_window(
    window: &[i32],
    dims: (usize, usize),
    shape: &Vec<Vec<bool>>,
    radius: usize,
    engine: Engine,
) -> (out: Option<Vec<i32>>)
    ensures
        out is Some <==> can_match(
            window@,
            dims.0 as nat,
            dims.1 as nat,
            mask_of(shape@),
            radius as nat,
        ),
        out matches Some(scores) ==> scores@ == match_scores(
            window@,
            dims.0 as nat,
            dims.1 as nat,
            mask_of(shape@),
            radius as nat,
            engine,
        ) && scores@.len() == dims.0 * dims.1,
{
    if matchable(window, dims.0, dims.1, shape, radius) {
        Some(run_matcher(window, dims.0, dims.1, shape, radius, engine))
    } else {
        None
    }
}

/// The positions, in a window that is `cols` wide, of cells given by row
/// and column.
pub open spec fn positions(cells: Seq<(usize, usize)>, cols: nat) -> Seq<usize> {
    Seq::new(cells.len(), |i: int| (cells[i].0 * cols + cells[i].1) as usize)
}

/// `cells` are the best cells of a window for a shape. Where the shape can
/// be matched against the window, they are the ranking of the match's
/// scores, by row and column in the window. Where it cannot, as for a
/// window that does not lie inside the buffer, there are none.
pub open spec fn is_best(
    dt: Seq<i32>,
    buf_cols: nat,
    start: nat,
    rows: nat,
    cols: nat,
    mask: Seq<Seq<bool>>,
    engine: Engine,
    cells: Seq<(usize, usize)>,
) -> bool {
    let window = subrect_spec(dt, buf_cols as int, start as int, rows as int, cols as int);
    if can_match(window, rows, cols, mask, SUPPRESS_RADIUS as nat) {
        &&& forall|i: int| 0 <= i < cells.len() ==> (#[trigger] cells[i]).1 < cols
        &&& is_ranking(
            match_scores(window, rows, cols, mask, SUPPRESS_RADIUS as nat, engine),
            TOP_K as nat,
            positions(cells, cols),
        )
    } else {
        cells.len() == 0
    }
}

/// Finds where a shape fits a built location best within a window of its
/// grid: takes the window of `subdim.0` rows by `subdim.1` columns at
/// offset `start` out of the distance buffer, scores its cells for the
/// shape, and ranks them. The result gives the best cells by row and
/// column in the window, the best first.
pub fn find_match(
    saved: &SavedLocation,
    start: usize,
    subdim: (usize, usize),
    shape: &Vec<Vec<bool>>,
    engine: Engine,
) -> (cells: Vec<(usize, usize)>)
    ensures
        is_best(
            saved.spec_dt(),
            saved.spec_cols(),
            start as nat,
            subdim.0 as nat,
            subdim.1 as nat,
            mask_of(shape@),
            engine,
            cells@,
        ),
{
    let window = subrect(saved.dt(), saved.cols(), start, subdim);
    match match_window(window.as_slice(), subdim, shape, SUPPRESS_RADIUS, engine) {
        None => Vec::new(),
        Some(scores) => {
            if subdim.1 == 0 {
                assert(scores@.len() == 0) by (nonlinear_arith)
                    requires
                        scores@.len() == subdim.0 * subdim.1,
                        subdim.1 == 0,
                ;
            }
            let ranking = rank(scores.as_slice(), TOP_K);
            if subdim.1 == 0 {
                proof {
                    if ranking@.len() > 0 {
                        assert(ranking@[0] < scores@.len());
                    }
                    assert(positions(Seq::<(usize, usize)>::empty(), 0) =~= ranking@);
                }
                return Vec::new();
            }
            let cells = window_offsets(&ranking, subdim.1);
            proof {
                let cols = subdim.1 as int;
                let flat = positions(cells@, cols as nat);
                assert forall|i: int| 0 <= i < cells@.len() implies (#[trigger] cells@[i]).1 < cols
                    && flat[i] == ranking@[i] by {
                    let index = ranking@[i] as int;
                    assert((cells@[i].0 as int, cells@[i].1 as int) == cell_of(index, cols));
                    vstd::arithmetic::div_mod::lemma_fundamental_div_mod(index, cols);
                    assert(cols * (index / cols) == (index / cols) * cols) by (nonlinear_arith);
                }
                assert(flat =~= ranking@);
            }
            cells
        },
    }
}

} // verus!
