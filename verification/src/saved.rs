//! A built location: its road grid, as `geogrid` made it, and the buffer of
//! squared distances to the nearest road.

use geogrid::GeoGrid;
use vstd::prelude::*;

verus! {

/// `geogrid::GeoGrid`, a grid of road cells with its place on the map. Its
/// coordinates stay with `geogrid`; the library reads its dimensions and
/// its cells, and carries the rest along.
#[verifier::external_type_specification]
#[verifier::external_body]
pub struct ExGeoGrid(GeoGrid);

/// What a grid holds: its cells, row by row, a road cell marked by a value
/// above zero.
pub uninterp spec fn grid_cells(grid: GeoGrid) -> Seq<u8>;

/// The number of rows that a grid was made with.
pub uninterp spec fn grid_rows(grid: GeoGrid) -> nat;

/// The number of columns that a grid was made with.
pub uninterp spec fn grid_cols(grid: GeoGrid) -> nat;

/// `GeoGrid::size` gives the rows and columns that the grid was made with.
pub assume_specification[ GeoGrid::size ](grid: &GeoGrid) -> (dims: (usize, usize))
    ensures
        dims.0 == grid_rows(*grid),
        dims.1 == grid_cols(*grid),
;

/// `GeoGrid::grid` gives the grid's cells.
pub assume_specification<'a>[ GeoGrid::grid ](grid: &'a GeoGrid) -> (cells: &'a [u8])
    ensures
        cells@ == grid_cells(*grid),
;

/// `GeoGrid::clear_grid` lets the cells go and keeps the dimensions.
pub assume_specification[ GeoGrid::clear_grid ](grid: &mut GeoGrid)
    ensures
        grid_cells(*final(grid)) == Seq::<u8>::empty(),
        grid_rows(*final(grid)) == grid_rows(*old(grid)),
        grid_cols(*final(grid)) == grid_cols(*old(grid)),
;

/// The distance of every cell of a grid to the nearest marked cell, counted
/// in steps along rows and columns, as `geogrid::util::l1dist_transform`
/// computes it from the cells and the grid's dimensions.
pub uninterp spec fn l1_distances(cells: Seq<u8>, rows: nat, cols: nat) -> Seq<i32>;

/// The dimensions for which the distance transform can be asked: the cells
/// are those of the grid, and one more than their number is a distance that
/// can still grow by one.
pub open spec fn transformable(cells: Seq<u8>, rows: nat, cols: nat) -> bool {
    cells.len() == rows * cols && rows * cols + 1 < i32::MAX
}

/// Calls `geogrid::util::l1dist_transform`. Trusted: the result is the
/// function of the cells and the dimensions that is named `l1_distances`,
/// with one distance for each cell.
#[verifier::external_body]
pub(crate) fn distance_transform(cells: &[u8], rows: usize, cols: usize) -> (raw: Vec<i32>)
    requires
        transformable(cells@, rows as nat, cols as nat),
    ensures
        raw@ == l1_distances(cells@, rows as nat, cols as nat),
        raw@.len() == rows * cols,
{
    geogrid::util::l1dist_transform(cells, (rows, cols))
}

/// Every value's square fits the values' type.
pub open spec fn squares_fit(raw: Seq<i32>) -> bool {
    forall|i: int| 0 <= i < raw.len() ==> (#[trigger] raw[i]) * raw[i] <= i32::MAX
}

/// The squares of the values.
pub open spec fn squares(raw: Seq<i32>) -> Seq<i32> {
    Seq::new(raw.len(), |i: int| (raw[i] * raw[i]) as i32)
}

/// Squares every value, or gives the values up where one of the squares
/// does not fit.
pub fn squared(raw: Vec<i32>) -> (out: Option<Vec<i32>>)
    ensures
        out is Some <==> squares_fit(raw@),
        out matches Some(dt) ==> dt@ == squares(raw@),
{
    let mut dt = raw;
    let n: usize = dt.len();
    let mut i: usize = 0;
    while i < n
        invariant
            i <= n,
            n == raw@.len(),
            dt@.len() == n,
            forall|j: int| 0 <= j < i ==> (#[trigger] raw@[j]) * raw@[j] <= i32::MAX,
            forall|j: int| 0 <= j < i ==> (#[trigger] dt@[j]) == raw@[j] * raw@[j],
            forall|j: int| i <= j < n ==> (#[trigger] dt@[j]) == raw@[j],
        decreases n - i,
    {
        let v: i32 = dt[i];
        assert(v == raw@[i as int]);
        assert(v * v >= 0) by (nonlinear_arith);
        match v.checked_mul(v) {
            Some(sq) => {
                dt.set(i, sq);
            },
            None => {
                assert(raw@[i as int] * raw@[i as int] > i32::MAX);
                return None;
            },
        }
        i += 1;
    }
    assert(dt@ =~= squares(raw@));
    Some(dt)
}

/// The squared distance of every cell of a grid to its nearest marked cell,
/// or nothing where the cells are not those of a grid of these dimensions,
/// the grid is too large to have its distances counted, or a square does
/// not fit.
pub fn distance_buffer(cells: &[u8], rows: usize, cols: usize) -> (out: Option<Vec<i32>>)
    ensures
        out is Some <==> transformable(cells@, rows as nat, cols as nat) && squares_fit(
            l1_distances(cells@, rows as nat, cols as nat),
        ),
        out matches Some(dt) ==> dt@ == squares(l1_distances(cells@, rows as nat, cols as nat))
            && dt@.len() == rows * cols,
{
    let area: usize = match rows.checked_mul(cols) {
        Some(a) => a,
        None => { return None; },
    };
    if cells.len() != area || area >= 0x7fff_fffe {
        return None;
    }
    let raw = distance_transform(cells, rows, cols);
    squared(raw)
}

/// A built location. Its distance buffer has one value for each cell of
/// its grid, row by row.
pub struct SavedLocation {
    geo: GeoGrid,
    rows: usize,
    cols: usize,
    dt: Vec<i32>,
}

impl SavedLocation {
    #[verifier::type_invariant]
    spec fn buffer_covers_grid(self) -> bool {
        self.dt@.len() == self.rows * self.cols
    }

    /// The number of rows of the grid.
    pub closed spec fn spec_rows(&self) -> nat {
        self.rows as nat
    }

    /// The number of columns of the grid.
    pub closed spec fn spec_cols(&self) -> nat {
        self.cols as nat
    }

    /// The distance buffer.
    pub closed spec fn spec_dt(&self) -> Seq<i32> {
        self.dt@
    }

    /// The grid.
    pub closed spec fn spec_geo(&self) -> GeoGrid {
        self.geo
    }

    /// Puts a location together from a grid, its dimensions and a distance
    /// buffer, where the buffer has one value for each cell.
    pub fn assemble(geo: GeoGrid, rows: usize, cols: usize, dt: Vec<i32>) -> (out: Option<
        SavedLocation,
    >)
        ensures
            out is Some <==> dt@.len() == rows * cols,
            out matches Some(saved) ==> saved.spec_rows() == rows && saved.spec_cols() == cols
                && saved.spec_dt() == dt@ && saved.spec_geo() == geo,
    {
        let len: usize = dt.len();
        match rows.checked_mul(cols) {
            Some(area) => {
                if len == area {
                    Some(SavedLocation { geo, rows, cols, dt })
                } else {
                    None
                }
            },
            None => None,
        }
    }

    /// Whether a location can be built from a grid: its cells are those of
    /// a grid of its dimensions, and the squares of their distances fit.
    pub open spec fn buildable(geo: GeoGrid) -> bool {
        &&& transformable(grid_cells(geo), grid_rows(geo), grid_cols(geo))
        &&& squares_fit(l1_distances(grid_cells(geo), grid_rows(geo), grid_cols(geo)))
    }

    /// Builds a location from its road grid: takes the grid's distance
    /// transform, squares it, and lets the grid's cells go, which are not
    /// needed any more. Fails where the grid cannot be transformed or a
    /// squared distance does not fit, as for a large grid without any road.
    pub fn new(geo: GeoGrid) -> (out: Option<SavedLocation>)
        ensures
            out is Some <==> Self::buildable(geo),
            out matches Some(saved) ==> {
                &&& saved.spec_rows() == grid_rows(geo)
                &&& saved.spec_cols() == grid_cols(geo)
                &&& saved.spec_dt() == squares(
                    l1_distances(grid_cells(geo), grid_rows(geo), grid_cols(geo)),
                )
                &&& grid_rows(saved.spec_geo()) == grid_rows(geo)
                &&& grid_cols(saved.spec_geo()) == grid_cols(geo)
                &&& grid_cells(saved.spec_geo()) == Seq::<u8>::empty()
            },
    {
        let mut geo = geo;
        let (rows, cols) = geo.size();
        let built = distance_buffer(geo.grid(), rows, cols);
        match built {
            Some(dt) => {
                geo.clear_grid();
                SavedLocation::assemble(geo, rows, cols, dt)
            },
            None => None,
        }
    }

    /// The number of rows of the grid.
    pub fn rows(&self) -> (rows: usize)
        ensures
            rows == self.spec_rows(),
    {
        self.rows
    }

    /// The number of columns of the grid.
    pub fn cols(&self) -> (cols: usize)
        ensures
            cols == self.spec_cols(),
    {
        self.cols
    }

    /// The distance buffer: one value for each cell of the grid.
    pub fn dt(&self) -> (dt: &[i32])
        ensures
            dt@ == self.spec_dt(),
            dt@.len() == self.spec_rows() * self.spec_cols(),
    {
        proof {
            use_type_invariant(self);
        }
        self.dt.as_slice()
    }

    /// The grid, for the coordinates of its cells.
    pub fn geo(&self) -> (geo: &GeoGrid)
        ensures
            *geo == self.spec_geo(),
    {
        &self.geo
    }
}

} // verus!
