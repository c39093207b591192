//! The grid that is filled, cell by cell, with tiles that agree with their
//! neighbours as far as the sample allows.

use crate::random::{draw_index, drawn, fresh_seed, seeded, seeded_state, state_of};
use crate::sample::{holds, TerrainSample};
use crate::shape::{in_bounds, rectangular, rows_have_length, rows_of};
use crate::tile::Tile;
use rand::rngs::StdRng;
use vstd::prelude::*;

verus! {

/// The cells of a grid: each holds the index of a tile, or nothing yet.
pub type Cells = Seq<Seq<Option<usize>>>;

/// A grid of `width` rows of `height` cells that hold nothing.
pub open spec fn blank(width: nat, height: nat) -> Cells {
    Seq::new(width, |x: int| Seq::new(height, |y: int| None::<usize>))
}

/// Whether every cell holds a tile.
pub open spec fn full(cells: Cells) -> bool {
    forall|x: int, y: int| in_bounds(cells, x, y) ==> (#[trigger] cells[x][y]) is Some
}

/// Whether every tile that a cell holds has an index below `count`.
pub open spec fn tiles_below(cells: Cells, count: int) -> bool {
    forall|x: int, y: int|
        in_bounds(cells, x, y) ==> match #[trigger] cells[x][y] {
            Some(tile) => tile < count,
            None => true,
        }
}

/// The cells with the tile `tile` put at `(x, y)`.
pub open spec fn with_tile(cells: Cells, x: int, y: int, tile: usize) -> Cells {
    cells.update(x, cells[x].update(y, Some(tile)))
}

/// The tile at `(x, y)` as a sequence of one, or of none where there is no
/// such cell or the cell holds nothing.
pub open spec fn tile_at(cells: Cells, x: int, y: int) -> Seq<usize> {
    if in_bounds(cells, x, y) && cells[x][y] is Some {
        seq![cells[x][y]->0]
    } else {
        Seq::empty()
    }
}

/// The tiles that the cells at the sides of `(x, y)` hold, in the order
/// `(x - 1, y)`, `(x, y - 1)`, `(x + 1, y)`, `(x, y + 1)`.
pub open spec fn tiles_around(cells: Cells, x: int, y: int) -> Seq<usize> {
    tile_at(cells, x - 1, y) + tile_at(cells, x, y - 1) + tile_at(cells, x + 1, y) + tile_at(
        cells,
        x,
        y + 1,
    )
}

/// Whether `tile` was seen at the side of each tile of `beside`.
pub open spec fn fits_beside(sets: Seq<Seq<usize>>, beside: Seq<usize>, tile: usize) -> bool {
    forall|k: int| 0 <= k < beside.len() ==> (#[trigger] sets[beside[k] as int]).contains(tile)
}

/// The indices `0`, `1`, and so on, below `count`.
pub open spec fn all_tiles(count: nat) -> Seq<usize> {
    Seq::new(count, |tile: int| tile as usize)
}

/// `fits_beside` as a test on a tile.
pub open spec fn fitting(sets: Seq<Seq<usize>>, beside: Seq<usize>) -> spec_fn(usize) -> bool {
    |tile: usize| fits_beside(sets, beside, tile)
}

/// The tiles that were seen at the side of each tile of `beside`, in
/// ascending order. With nothing in `beside` they are all tiles.
pub open spec fn candidates(sets: Seq<Seq<usize>>, beside: Seq<usize>) -> Seq<usize> {
    all_tiles(sets.len()).filter(fitting(sets, beside))
}

/// The tiles that one is drawn from for a cell with `beside` at its sides:
/// the candidates, or all tiles where there is no candidate.
pub open spec fn choices(sets: Seq<Seq<usize>>, beside: Seq<usize>) -> Seq<usize> {
    if candidates(sets, beside).len() > 0 {
        candidates(sets, beside)
    } else {
        all_tiles(sets.len())
    }
}

/// The candidates are the tiles that fit, and no others.
pub proof fn candidates_are_what_fits(sets: Seq<Seq<usize>>, beside: Seq<usize>, tile: usize)
    requires
        sets.len() <= usize::MAX,
    ensures
        candidates(sets, beside).contains(tile) <==> tile < sets.len() && fits_beside(
            sets,
            beside,
            tile,
        ),
{
    let tiles = all_tiles(sets.len());
    let test = fitting(sets, beside);
    if candidates(sets, beside).contains(tile) {
        let k = choose|k: int| 0 <= k < tiles.filter(test).len() && tiles.filter(test)[k] == tile;
        tiles.lemma_filter_pred(test, k);
        tiles.lemma_filter_contains_rev(test, tile);
        let i = choose|i: int| 0 <= i < tiles.len() && tiles[i] == tile;
    }
    if tile < sets.len() && fits_beside(sets, beside, tile) {
        assert(tiles[tile as int] == tile);
        tiles.lemma_filter_contains(test, tile as int);
    }
}

/// Where a tile fits, each of the choices fits; where none fits, each tile
/// is a choice. Either way a choice is the index of a tile.
pub proof fn choices_are_tiles(sets: Seq<Seq<usize>>, beside: Seq<usize>, k: int)
    requires
        sets.len() <= usize::MAX,
        0 <= k < choices(sets, beside).len(),
    ensures
        choices(sets, beside)[k] < sets.len(),
        candidates(sets, beside).len() > 0 ==> fits_beside(sets, beside, choices(sets, beside)[k]),
        candidates(sets, beside).len() == 0 ==> choices(sets, beside)[k] == k,
{
    if candidates(sets, beside).len() > 0 {
        let tile = candidates(sets, beside)[k];
        assert(candidates(sets, beside).contains(tile));
        candidates_are_what_fits(sets, beside, tile);
    }
}

/// The tile that is drawn for `(x, y)` from a generator in the state `state`,
/// and the state that the draw leaves the generator in.
pub open spec fn tile_drawn(sets: Seq<Seq<usize>>, cells: Cells, x: int, y: int, state: Seq<u8>) -> (
    usize,
    Seq<u8>,
) {
    let options = choices(sets, tiles_around(cells, x, y));
    let (k, after) = drawn(state, options.len() as u64);
    (options[k as int], after)
}

/// The cells `(x, 0)`, `(x, 1)`, and so on, of a row of `height` cells.
pub open spec fn row_coordinates(x: int, height: nat) -> Seq<(usize, usize)> {
    Seq::new(height, |y: int| (x as usize, y as usize))
}

/// The cells of `width` rows of `height` cells, row after row.
pub open spec fn coordinates(width: nat, height: nat) -> Seq<(usize, usize)>
    decreases width,
{
    if width == 0 {
        Seq::empty()
    } else {
        coordinates((width - 1) as nat, height) + row_coordinates(width - 1, height)
    }
}

/// `coordinates(width, height)` names each cell of such a grid, and nothing
/// else, in `width * height` places.
pub proof fn coordinates_cover(width: nat, height: nat)
    requires
        width <= usize::MAX,
        height <= usize::MAX,
    ensures
        coordinates(width, height).len() == width * height,
        forall|k: int|
            0 <= k < coordinates(width, height).len() ==> (#[trigger] coordinates(
                width,
                height,
            )[k]).0 < width && coordinates(width, height)[k].1 < height,
        forall|x: usize, y: usize|
            x < width && y < height ==> coordinates(width, height).contains((x, y)),
    decreases width,
{
    let all = coordinates(width, height);
    if width > 0 {
        let rows = coordinates((width - 1) as nat, height);
        let row = row_coordinates(width - 1, height);
        coordinates_cover((width - 1) as nat, height);
        assert(all.len() == width * height) by (nonlinear_arith)
            requires
                all.len() == rows.len() + height,
                rows.len() == (width - 1) * height,
        ;
        assert forall|x: usize, y: usize| x < width && y < height implies all.contains((x, y)) by {
            if x < width - 1 {
                assert(rows.contains((x, y)));
                let k = choose|k: int| 0 <= k < rows.len() && rows[k] == (x, y);
                assert(all[k] == (x, y));
            } else {
                assert(row[y as int] == (x, y));
                assert(all[rows.len() + y] == (x, y));
            }
        }
    } else {
        assert(all.len() == width * height) by (nonlinear_arith)
            requires
                all.len() == 0,
                width == 0,
        ;
    }
}

/// The cells after a collapse that starts from `cells` with a generator in
/// the state `state` and has the cells named in `open` yet to fill.
///
/// Each step draws one of the cells that are left, then draws a tile for it
/// from its choices, and puts the tile there. A draw is below its bound, so
/// the last branch stands for no run.
pub open spec fn collapse_run(
    sets: Seq<Seq<usize>>,
    cells: Cells,
    open: Seq<(usize, usize)>,
    state: Seq<u8>,
) -> Cells
    decreases open.len(),
{
    if open.len() == 0 {
        cells
    } else {
        let (i, picked) = drawn(state, open.len() as u64);
        if i < open.len() {
            let (x, y) = open[i as int];
            let (tile, after) = tile_drawn(sets, cells, x as int, y as int, picked);
            collapse_run(
                sets,
                with_tile(cells, x as int, y as int, tile),
                open.remove(i as int),
                after,
            )
        } else {
            cells
        }
    }
}

/// A grid of cells and the sample that its tiles are taken from.
pub struct Grid<T: Tile> {
    inner: Vec<Vec<Option<usize>>>,
    sample: TerrainSample<T>,
}

impl<T: Tile + Copy + PartialEq> Grid<T> {
    /// The cells, row by row.
    pub closed spec fn cells(&self) -> Cells {
        rows_of(self.inner)
    }

    /// The sample that the grid was made with.
    pub closed spec fn terrain(&self) -> TerrainSample<T> {
        self.sample
    }

    /// The length of the rows.
    pub open spec fn rows_length(&self) -> nat {
        if self.cells().len() > 0 {
            self.cells()[0].len()
        } else {
            0
        }
    }

    /// The cells after a collapse of this grid with the seed `seed`.
    pub open spec fn collapsed(&self, seed: u64) -> Cells {
        collapse_run(
            self.terrain().constraint_sets(),
            self.cells(),
            coordinates(self.cells().len(), self.rows_length()),
            seeded_state(seed),
        )
    }

    /// The tiles of a grid whose cells all hold one.
    pub open spec fn finished(&self) -> Seq<Seq<T>> {
        Seq::new(
            self.cells().len(),
            |x: int|
                Seq::new(
                    self.cells()[x].len(),
                    |y: int| self.terrain().tileset@[self.cells()[x][y]->0 as int],
                ),
        )
    }

    /// Whether `shown` is what the cell at `(x, y)` is shown as: what its tile
    /// is shown as, or what the empty tile, the default of `T`, is shown as
    /// where the cell holds none.
    pub open spec fn shows(&self, x: int, y: int, shown: T::Output) -> bool {
        match self.cells()[x][y] {
            Some(tile) => shown == self.terrain().tileset@[tile as int].shown(),
            None => exists|empty: T|
                #[trigger] call_ensures(<T as Default>::default, (), empty) && shown
                    == empty.shown(),
        }
    }

    /// What holds of every grid: its sample is well formed, its rows are of
    /// one length, and its cells hold tiles of the sample.
    pub open spec fn well_formed(&self) -> bool {
        &&& self.terrain().well_formed()
        &&& rows_have_length(self.cells(), self.rows_length() as int)
        &&& tiles_below(self.cells(), self.terrain().tileset@.len() as int)
    }

    /// Every tile that a cell holds is a tile of the sample.
    pub proof fn tiles_are_of_the_sample(&self, x: int, y: int)
        requires
            self.well_formed(),
            in_bounds(self.cells(), x, y),
            self.cells()[x][y] is Some,
        ensures
            self.cells()[x][y]->0 < self.terrain().tileset@.len(),
    {
    }

    /// Two grids of the same cells, with samples of the same sets of
    /// neighbours, are the same after a collapse with the same seed.
    pub proof fn same_seed_same_tiles(&self, other: &Self, seed: u64)
        requires
            self.cells() == other.cells(),
            self.terrain().constraint_sets() == other.terrain().constraint_sets(),
        ensures
            self.collapsed(seed) == other.collapsed(seed),
    {
    }

    /// Two grids of the same cells, with samples learned from the same rows,
    /// are the same after a collapse with the same seed.
    pub proof fn same_sample_same_seed_same_tiles(
        &self,
        other: &Self,
        rows: Seq<Seq<T>>,
        seed: u64,
    )
        requires
            rectangular(rows),
            self.terrain().learned_from(rows),
            other.terrain().learned_from(rows),
            self.cells() == other.cells(),
        ensures
            self.collapsed(seed) == other.collapsed(seed),
    {
        self.terrain().learned_alike(&other.terrain(), rows);
    }

    /// With a sample of one tile, a grid whose cells all hold a tile holds
    /// that tile everywhere.
    pub proof fn one_tile_fills_all(&self, x: int, y: int)
        requires
            self.well_formed(),
            self.terrain().tileset@.len() == 1,
            full(self.cells()),
            in_bounds(self.cells(), x, y),
        ensures
            self.cells()[x][y] == Some(0usize),
    {
    }

    /// A grid of `width` rows of `height` cells that hold nothing.
    pub fn new(width: usize, height: usize, sample: TerrainSample<T>) -> (grid: Self)
        requires
            sample.well_formed(),
        ensures
            grid.well_formed(),
            grid.terrain() == sample,
            grid.cells() == blank(width as nat, height as nat),
    {
        let mut inner: Vec<Vec<Option<usize>>> = Vec::new();
        while inner.len() < width
            invariant
                inner@.len() <= width,
                forall|x: int| 0 <= x < inner@.len() ==> (#[trigger] inner@[x])@ == Seq::new(
                    height as nat,
                    |y: int| None::<usize>,
                ),
            decreases width - inner.len(),
        {
            let mut row: Vec<Option<usize>> = Vec::new();
            while row.len() < height
                invariant
                    row@.len() <= height,
                    forall|y: int| 0 <= y < row@.len() ==> (#[trigger] row@[y]) is None,
                decreases height - row.len(),
            {
                row.push(None);
            }
            assert(row@ == Seq::new(height as nat, |y: int| None::<usize>));
            inner.push(row);
        }
        assert(rows_of(inner) == blank(width as nat, height as nat));
        Grid { inner, sample }
    }

    /// The sample that the grid was made with.
    pub fn sample(&self) -> (sample: &TerrainSample<T>)
        ensures
            *sample == self.terrain(),
    {
        &self.sample
    }

    /// The number of rows.
    pub fn width(&self) -> (width: usize)
        ensures
            width == self.cells().len(),
    {
        self.inner.len()
    }

    /// The length of the first row, or 0 where there is no row.
    pub fn height(&self) -> (height: usize)
        ensures
            height == self.rows_length(),
    {
        if self.inner.len() > 0 {
            assert(self.cells()[0] == self.inner@[0]@);
            self.inner[0].len()
        } else {
            0
        }
    }

    /// The index of the tile at `(x, y)`: nothing where the cell holds none
    /// yet, or where there is no such cell.
    pub fn get(&self, x: usize, y: usize) -> (tile: Option<usize>)
        ensures
            in_bounds(self.cells(), x as int, y as int) ==> tile == self.cells()[x as int][y as int],
            !in_bounds(self.cells(), x as int, y as int) ==> tile is None,
    {
        if x < self.inner.len() {
            assert(self.cells()[x as int] == self.inner@[x as int]@);
            if y < self.inner[x].len() {
                return self.inner[x][y];
            }
        }
        None
    }

    /// Whether every cell holds a tile.
    pub fn is_collapsed(&self) -> (done: bool)
        ensures
            done == full(self.cells()),
    {
        let ghost cells = self.cells();
        let mut x: usize = 0;
        while x < self.inner.len()
            invariant
                cells == self.cells(),
                x <= cells.len(),
                forall|a: int, b: int|
                    0 <= a < x && 0 <= b < cells[a].len() ==> (#[trigger] cells[a][b]) is Some,
            decreases self.inner.len() - x,
        {
            let row = &self.inner[x];
            assert(cells[x as int] == row@);
            let mut y: usize = 0;
            while y < row.len()
                invariant
                    cells == self.cells(),
                    x < cells.len(),
                    cells[x as int] == row@,
                    y <= row@.len(),
                    forall|b: int| 0 <= b < y ==> (#[trigger] row@[b]) is Some,
                decreases row.len() - y,
            {
                if row[y].is_none() {
                    assert(in_bounds(cells, x as int, y as int) && !(cells[x as int][y as int] is Some));
                    return false;
                }
                y += 1;
            }
            x += 1;
        }
        true
    }

    /// The tiles that the cells at the sides of `(x, y)` hold.
    pub fn get_neighbors(&self, x: usize, y: usize) -> (neighbors: Vec<usize>)
        requires
            self.well_formed(),
            in_bounds(self.cells(), x as int, y as int),
        ensures
            neighbors@ == tiles_around(self.cells(), x as int, y as int),
            forall|k: int|
                0 <= k < neighbors@.len() ==> (#[trigger] neighbors@[k])
                    < self.terrain().tileset@.len(),
    {
        let ghost cells = self.cells();
        let mut neighbors: Vec<usize> = Vec::new();
        let (width, height) = (self.inner.len(), self.inner[0].len());
        assert(cells[0] == self.inner@[0]@);
        assert(cells[x as int] == self.inner@[x as int]@);
        assert(cells[x as int].len() == height);
        if x > 0 {
            assert(cells[x - 1] == self.inner@[x - 1]@);
            assert(cells[x - 1].len() == height);
            if let Some(neighbor) = self.inner[x - 1][y] {
                assert(cells[x - 1][y as int] == Some(neighbor));
                neighbors.push(neighbor)
            }
        }
        assert(neighbors@ == tile_at(cells, x - 1, y as int));
        if y > 0 {
            if let Some(neighbor) = self.inner[x][y - 1] {
                assert(cells[x as int][y - 1] == Some(neighbor));
                neighbors.push(neighbor)
            }
        }
        assert(neighbors@ == tile_at(cells, x - 1, y as int) + tile_at(cells, x as int, y - 1));
        if x < width - 1 {
            assert(cells[x + 1] == self.inner@[x + 1]@);
            assert(cells[x + 1].len() == height);
            if let Some(neighbor) = self.inner[x + 1][y] {
                assert(cells[x + 1][y as int] == Some(neighbor));
                neighbors.push(neighbor)
            }
        }
        assert(neighbors@ == tile_at(cells, x - 1, y as int) + tile_at(cells, x as int, y - 1)
            + tile_at(cells, x + 1, y as int));
        if y < height - 1 {
            if let Some(neighbor) = self.inner[x][y + 1] {
                assert(cells[x as int][y + 1] == Some(neighbor));
                neighbors.push(neighbor)
            }
        }
        assert(neighbors@ == tiles_around(cells, x as int, y as int));
        neighbors
    }

    /// Whether `tile` was seen at the side of each tile of `beside`.
    fn fits(&self, beside: &Vec<usize>, tile: usize) -> (ok: bool)
        requires
            self.well_formed(),
            forall|k: int|
                0 <= k < beside@.len() ==> (#[trigger] beside@[k]) < self.terrain().tileset@.len(),
        ensures
            ok == fits_beside(self.terrain().constraint_sets(), beside@, tile),
    {
        let ghost sets = self.terrain().constraint_sets();
        let mut k: usize = 0;
        while k < beside.len()
            invariant
                self.well_formed(),
                sets == self.terrain().constraint_sets(),
                k <= beside@.len(),
                forall|i: int|
                    0 <= i < beside@.len() ==> (#[trigger] beside@[i])
                        < self.terrain().tileset@.len(),
                forall|i: int| 0 <= i < k ==> (#[trigger] sets[beside@[i] as int]).contains(tile),
            decreases beside.len() - k,
        {
            let seen = &self.sample.constraints[beside[k]];
            assert(seen@ == sets[beside@[k as int] as int]);
            if !holds(seen, tile) {
                return false;
            }
            k += 1;
        }
        true
    }

    /// The tiles that fit at `(x, y)`: those that were seen at the side of
    /// each tile that a cell at the side of `(x, y)` holds. They come in
    /// ascending order; where no cell at its side holds a tile, they are all
    /// tiles.
    pub fn get_valid_neighbors(&self, x: usize, y: usize) -> (valid: Vec<usize>)
        requires
            self.well_formed(),
            in_bounds(self.cells(), x as int, y as int),
        ensures
            valid@ == candidates(
                self.terrain().constraint_sets(),
                tiles_around(self.cells(), x as int, y as int),
            ),
            forall|k: int|
                0 <= k < valid@.len() ==> (#[trigger] valid@[k]) < self.terrain().tileset@.len(),
    {
        let beside = self.get_neighbors(x, y);
        let count = self.sample.constraints.len();
        let ghost sets = self.terrain().constraint_sets();
        let ghost test = fitting(sets, beside@);
        let ghost tiles = all_tiles(count as nat);
        let mut valid: Vec<usize> = Vec::new();
        let mut tile: usize = 0;
        proof {
            tiles.take(0).lemma_filter_len(test);
        }
        while tile < count
            invariant
                self.well_formed(),
                sets == self.terrain().constraint_sets(),
                count == sets.len(),
                test == fitting(sets, beside@),
                tiles == all_tiles(count as nat),
                tile <= count,
                forall|k: int|
                    0 <= k < beside@.len() ==> (#[trigger] beside@[k])
                        < self.terrain().tileset@.len(),
                valid@ == tiles.take(tile as int).filter(test),
                forall|k: int| 0 <= k < valid@.len() ==> (#[trigger] valid@[k]) < count,
            decreases count - tile,
        {
            proof {
                assert(tiles.take(tile + 1) == tiles.take(tile as int).push(tile));
                tiles.take(tile as int).lemma_filter_push(tile, test);
            }
            if self.fits(&beside, tile) {
                valid.push(tile);
            }
            tile += 1;
        }
        assert(tiles.take(tile as int) == tiles);
        valid
    }

    /// The tiles that one is drawn from for `(x, y)`: those that fit there,
    /// or all tiles where none fits.
    pub fn get_choices(&self, x: usize, y: usize) -> (options: Vec<usize>)
        requires
            self.well_formed(),
            in_bounds(self.cells(), x as int, y as int),
        ensures
            options@ == choices(
                self.terrain().constraint_sets(),
                tiles_around(self.cells(), x as int, y as int),
            ),
            options@.len() > 0,
            forall|k: int|
                0 <= k < options@.len() ==> (#[trigger] options@[k])
                    < self.terrain().tileset@.len(),
    {
        let valid = self.get_valid_neighbors(x, y);
        if valid.len() > 0 {
            return valid;
        }
        let count = self.sample.constraints.len();
        proof {
            self.terrain().has_tiles();
        }
        let mut all: Vec<usize> = Vec::new();
        while all.len() < count
            invariant
                all@.len() <= count,
                forall|k: int| 0 <= k < all@.len() ==> (#[trigger] all@[k]) == k,
            decreases count - all.len(),
        {
            all.push(all.len());
        }
        assert(all@ == all_tiles(count as nat));
        all
    }

    /// Puts the tile `tile` at `(x, y)`, whatever the cell held.
    pub fn assign(&mut self, x: usize, y: usize, tile: usize)
        requires
            old(self).well_formed(),
            in_bounds(old(self).cells(), x as int, y as int),
            tile < old(self).terrain().tileset@.len(),
        ensures
            final(self).well_formed(),
            final(self).terrain() == old(self).terrain(),
            final(self).cells() == with_tile(old(self).cells(), x as int, y as int, tile),
    {
        let ghost before = self.cells();
        assert(before[x as int] == self.inner@[x as int]@);
        self.inner[x].set(y, Some(tile));
        proof {
            let after = self.cells();
            assert(after[x as int] == self.inner@[x as int]@);
            assert forall|a: int| 0 <= a < after.len() implies #[trigger] after[a] == with_tile(
                before,
                x as int,
                y as int,
                tile,
            )[a] by {
                if a != x {
                    assert(after[a] == self.inner@[a]@);
                    assert(before[a] == old(self).inner@[a]@);
                }
            }
            assert(after == with_tile(before, x as int, y as int, tile));
            assert(after[0].len() == before[0].len());
            assert forall|a: int| 0 <= a < after.len() implies (#[trigger] after[a]).len()
                == self.rows_length() by {
                assert(before[a].len() == old(self).rows_length());
            }
            assert forall|a: int, b: int| in_bounds(after, a, b) implies match #[trigger] after[a][b] {
                Some(t) => t < self.terrain().tileset@.len(),
                None => true,
            } by {
                if a == x && b == y {
                } else {
                    assert(after[a][b] == before[a][b]);
                }
            }
        }
    }

    /// Draws a tile for `(x, y)` from its choices and puts it there.
    fn collapse_cell(&mut self, x: usize, y: usize, rng: &mut StdRng)
        requires
            old(self).well_formed(),
            in_bounds(old(self).cells(), x as int, y as int),
        ensures
            final(self).well_formed(),
            final(self).terrain() == old(self).terrain(),
            final(self).cells() == with_tile(
                old(self).cells(),
                x as int,
                y as int,
                tile_drawn(
                    old(self).terrain().constraint_sets(),
                    old(self).cells(),
                    x as int,
                    y as int,
                    state_of(*old(rng)),
                ).0,
            ),
            state_of(*final(rng)) == tile_drawn(
                old(self).terrain().constraint_sets(),
                old(self).cells(),
                x as int,
                y as int,
                state_of(*old(rng)),
            ).1,
    {
        let options = self.get_choices(x, y);
        let k = draw_index(rng, options.len());
        self.assign(x, y, options[k]);
    }

    /// The cells of the grid, row after row.
    fn all_coordinates(&self) -> (all: Vec<(usize, usize)>)
        requires
            self.well_formed(),
        ensures
            all@ == coordinates(self.cells().len(), self.rows_length()),
    {
        let width = self.width();
        let height = self.height();
        let mut all: Vec<(usize, usize)> = Vec::new();
        let mut x: usize = 0;
        while x < width
            invariant
                x <= width,
                all@ == coordinates(x as nat, height as nat),
            decreases width - x,
        {
            let ghost rows = all@;
            let mut y: usize = 0;
            assert(rows + row_coordinates(x as int, height as nat).take(0) == rows);
            while y < height
                invariant
                    x < width,
                    y <= height,
                    rows == coordinates(x as nat, height as nat),
                    all@ == rows + row_coordinates(x as int, height as nat).take(y as int),
                decreases height - y,
            {
                all.push((x, y));
                y += 1;
                assert(row_coordinates(x as int, height as nat).take(y as int)
                    == row_coordinates(x as int, height as nat).take(y - 1).push((x, (y - 1) as usize)));
            }
            assert(row_coordinates(x as int, height as nat).take(y as int) == row_coordinates(
                x as int,
                height as nat,
            ));
            x += 1;
        }
        all
    }

    /// Fills the grid as `collapse` does, with a generator made from `seed`:
    /// the same grid and the same seed give the same tiles. Returns the
    /// number of tiles that were put.
    pub fn collapse_with_seed(&mut self, seed: u64) -> (steps: usize)
        requires
            old(self).well_formed(),
        ensures
            final(self).well_formed(),
            final(self).terrain() == old(self).terrain(),
            final(self).cells() == old(self).collapsed(seed),
            full(final(self).cells()),
            final(self).cells().len() == old(self).cells().len(),
            final(self).rows_length() == old(self).rows_length(),
            steps == old(self).cells().len() * old(self).rows_length(),
    {
        let ghost sets = self.terrain().constraint_sets();
        let width = self.width();
        let height = self.height();
        let mut rng = seeded(seed);
        let mut available = self.all_coordinates();
        let total = available.len();
        let mut steps: usize = 0;
        proof {
            coordinates_cover(width as nat, height as nat);
        }
        while available.len() > 0
            invariant
                self.well_formed(),
                self.terrain() == old(self).terrain(),
                sets == self.terrain().constraint_sets(),
                self.cells().len() == width,
                self.rows_length() == height,
                total == width * height,
                steps + available@.len() == total,
                forall|k: int|
                    0 <= k < available@.len() ==> (#[trigger] available@[k]).0 < width
                        && available@[k].1 < height,
                forall|x: usize, y: usize|
                    x < width && y < height ==> available@.contains((x, y)) || (
                    #[trigger] self.cells()[x as int][y as int]) is Some,
                collapse_run(sets, self.cells(), available@, state_of(rng)) == old(self).collapsed(
                    seed,
                ),
            decreases available@.len(),
        {
            let ghost cells = self.cells();
            let ghost open = available@;
            let i = draw_index(&mut rng, available.len());
            let (x, y) = available.remove(i);
            assert(cells[x as int].len() == height);
            self.collapse_cell(x, y, &mut rng);
            steps += 1;
            proof {
                let after = self.cells();
                assert(after[0].len() == cells[0].len());
                assert forall|a: usize, b: usize| a < width && b < height implies available@.contains(
                    (a, b),
                ) || (#[trigger] after[a as int][b as int]) is Some by {
                    if a == x && b == y {
                    } else {
                        assert(after[a as int][b as int] == cells[a as int][b as int]);
                        if open.contains((a, b)) {
                            let k = choose|k: int| 0 <= k < open.len() && open[k] == (a, b);
                            if k < i {
                                assert(available@[k] == (a, b));
                            } else {
                                assert(available@[k - 1] == (a, b));
                            }
                        }
                    }
                }
            }
        }
        proof {
            let cells = self.cells();
            assert forall|a: int, b: int| in_bounds(cells, a, b) implies (#[trigger] cells[a][b])
                is Some by {
                assert(cells[a].len() == height);
                assert(!available@.contains((a as usize, b as usize)));
                assert(cells[a as usize as int][b as usize as int] is Some);
            }
        }
        steps
    }

    /// Fills the grid: one cell after the other, in an order that is drawn,
    /// gets a tile drawn from those that fit beside the tiles at its sides,
    /// or from all tiles where none fits. The seed is fresh each time.
    pub fn collapse(&mut self)
        requires
            old(self).well_formed(),
        ensures
            final(self).well_formed(),
            final(self).terrain() == old(self).terrain(),
            full(final(self).cells()),
            final(self).cells().len() == old(self).cells().len(),
            final(self).rows_length() == old(self).rows_length(),
            exists|seed: u64| final(self).cells() == old(self).collapsed(seed),
    {
        let seed = fresh_seed();
        let _ = self.collapse_with_seed(seed);
    }

    /// The tiles of the grid, once every cell holds one; nothing before.
    pub fn generate(&mut self) -> (tiles: Option<Vec<Vec<T>>>)
        requires
            old(self).well_formed(),
        ensures
            *final(self) == *old(self),
            match tiles {
                Some(tiles) => full(old(self).cells()) && rows_of(tiles) == old(self).finished(),
                None => !full(old(self).cells()),
            },
    {
        if !self.is_collapsed() {
            return None;
        }
        let ghost cells = self.cells();
        let ghost wanted = self.finished();
        let mut tiles: Vec<Vec<T>> = Vec::new();
        let mut x: usize = 0;
        while x < self.inner.len()
            invariant
                self.well_formed(),
                full(cells),
                cells == self.cells(),
                wanted == self.finished(),
                x <= cells.len(),
                tiles@.len() == x,
                forall|a: int| 0 <= a < x ==> (#[trigger] tiles@[a])@ == wanted[a],
            decreases self.inner.len() - x,
        {
            let line = &self.inner[x];
            assert(cells[x as int] == line@);
            let mut row: Vec<T> = Vec::new();
            let mut y: usize = 0;
            while y < line.len()
                invariant
                    self.well_formed(),
                    full(cells),
                    cells == self.cells(),
                    wanted == self.finished(),
                    x < cells.len(),
                    cells[x as int] == line@,
                    y <= line@.len(),
                    row@.len() == y,
                    forall|b: int| 0 <= b < y ==> (#[trigger] row@[b]) == wanted[x as int][b],
                decreases line.len() - y,
            {
                assert(in_bounds(cells, x as int, y as int));
                assert(cells[x as int][y as int] is Some);
                match line[y] {
                    Some(tile) => {
                        row.push(self.sample.tileset[tile]);
                    },
                    None => {},
                }
                y += 1;
            }
            assert(row@ == wanted[x as int]);
            tiles.push(row);
            x += 1;
        }
        assert(rows_of(tiles) == wanted);
        Some(tiles)
    }

    /// What the grid is shown as, cell by cell.
    pub fn render(&self) -> (shown: Vec<Vec<T::Output>>)
        requires
            self.well_formed(),
        ensures
            rows_of(shown).len() == self.cells().len(),
            forall|x: int|
                0 <= x < self.cells().len() ==> (#[trigger] rows_of(shown)[x]).len()
                    == self.cells()[x].len(),
            forall|x: int, y: int|
                in_bounds(self.cells(), x, y) ==> self.shows(x, y, #[trigger] rows_of(shown)[x][y]),
    {
        let ghost cells = self.cells();
        let mut shown: Vec<Vec<T::Output>> = Vec::new();
        let mut x: usize = 0;
        while x < self.inner.len()
            invariant
                self.well_formed(),
                cells == self.cells(),
                x <= cells.len(),
                shown@.len() == x,
                forall|a: int| 0 <= a < x ==> (#[trigger] shown@[a])@.len() == cells[a].len(),
                forall|a: int, b: int|
                    0 <= a < x && 0 <= b < cells[a].len() ==> self.shows(
                        a,
                        b,
                        #[trigger] shown@[a]@[b],
                    ),
            decreases self.inner.len() - x,
        {
            let line = &self.inner[x];
            assert(cells[x as int] == line@);
            let mut row: Vec<T::Output> = Vec::new();
            let mut y: usize = 0;
            while y < line.len()
                invariant
                    self.well_formed(),
                    cells == self.cells(),
                    x < cells.len(),
                    cells[x as int] == line@,
                    y <= line@.len(),
                    row@.len() == y,
                    forall|b: int| 0 <= b < y ==> self.shows(x as int, b, #[trigger] row@[b]),
                decreases line.len() - y,
            {
                assert(in_bounds(cells, x as int, y as int));
                let cell = match line[y] {
                    Some(tile) => self.sample.tileset[tile].value(),
                    None => T::default().value(),
                };
                row.push(cell);
                y += 1;
            }
            shown.push(row);
            x += 1;
        }
        proof {
            let rows = rows_of(shown);
            assert forall|a: int, b: int| in_bounds(cells, a, b) implies self.shows(
                a,
                b,
                #[trigger] rows[a][b],
            ) by {
                assert(shown@[a]@.len() == cells[a].len());
                assert(self.shows(a, b, shown@[a]@[b]));
            }
            assert forall|a: int| 0 <= a < cells.len() implies (#[trigger] rows[a]).len()
                == cells[a].len() by {
                assert(shown@[a]@.len() == cells[a].len());
            }
        }
        shown
    }
}

} // verus!
