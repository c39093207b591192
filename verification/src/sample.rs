//! What a sample teaches: its tiles, and which tiles were seen side by side.

use crate::shape::{adjacent, around, around_holds_adjacent, around_is_adjacent, ascending, cell_at, in_bounds, rectangular, rows_have_length, rows_of};
use crate::sets::{in_order, put};
use crate::tile::{compares_by_value, Tile};
use std::collections::BTreeSet;
use vstd::prelude::*;
use vstd::std_specs::cmp::PartialEqSpec;

verus! {

/// The values of `s`, each once, in the order in which they first occur.
pub open spec fn distinct<A>(s: Seq<A>) -> Seq<A>
    decreases s.len(),
{
    if s.len() == 0 {
        Seq::empty()
    } else {
        let before = distinct(s.drop_last());
        if before.contains(s.last()) {
            before
        } else {
            before.push(s.last())
        }
    }
}

/// `distinct(s)` holds what `s` holds, and nothing twice.
pub proof fn distinct_holds_each_once<A>(s: Seq<A>)
    ensures
        distinct(s).no_duplicates(),
        forall|a: A| distinct(s).contains(a) <==> s.contains(a),
        distinct(s).len() == s.to_set().len(),
    decreases s.len(),
{
    if s.len() > 0 {
        let front = s.drop_last();
        let before = distinct(front);
        distinct_holds_each_once(front);
        let last = s.last();
        let whole = distinct(s);
        assert(s =~= front.push(last));
        assert forall|a: A| whole.contains(a) <==> s.contains(a) by {
            assert(before.contains(a) <==> front.contains(a));
            if s.contains(a) {
                let k = choose|k: int| 0 <= k < s.len() && s[k] == a;
                if k < front.len() {
                    assert(front[k] == a);
                    assert(front.contains(a));
                    let i = choose|i: int| 0 <= i < before.len() && before[i] == a;
                    assert(whole[i] == a);
                } else if before.contains(last) {
                    assert(whole.contains(a));
                } else {
                    assert(whole[before.len() as int] == a);
                }
            }
            if whole.contains(a) {
                let i = choose|i: int| 0 <= i < whole.len() && whole[i] == a;
                if i < before.len() {
                    assert(before[i] == a);
                    assert(before.contains(a));
                    let k = choose|k: int| 0 <= k < front.len() && front[k] == a;
                    assert(s[k] == a);
                } else {
                    assert(s[s.len() - 1] == a);
                }
            }
        }
    }
    assert(distinct(s).to_set() =~= s.to_set());
    distinct(s).unique_seq_to_set();
}

/// Two ascending sequences that hold the same numbers are the same.
pub proof fn ascending_is_unique(a: Seq<usize>, b: Seq<usize>)
    requires
        ascending(a),
        ascending(b),
        forall|j: usize| a.contains(j) <==> b.contains(j),
    ensures
        a == b,
    decreases a.len(),
{
    if a.len() == 0 {
        if b.len() > 0 {
            assert(b.contains(b[0]));
        }
        assert(a =~= b);
    } else {
        let top = a.last();
        assert(a.contains(top));
        assert(b.contains(top));
        assert(b.contains(b.last()));
        assert(a.contains(b.last()));
        let ka = choose|k: int| 0 <= k < a.len() && a[k] == b.last();
        let kb = choose|k: int| 0 <= k < b.len() && b[k] == top;
        assert(b.last() == top);
        let front_a = a.drop_last();
        let front_b = b.drop_last();
        assert forall|j: usize| front_a.contains(j) <==> front_b.contains(j) by {
            if front_a.contains(j) {
                let k = choose|k: int| 0 <= k < front_a.len() && front_a[k] == j;
                assert(a[k] == j);
                assert(a.contains(j));
                let k2 = choose|k2: int| 0 <= k2 < b.len() && b[k2] == j;
                assert(front_b[k2] == j);
            }
            if front_b.contains(j) {
                let k = choose|k: int| 0 <= k < front_b.len() && front_b[k] == j;
                assert(b[k] == j);
                assert(b.contains(j));
                let k2 = choose|k2: int| 0 <= k2 < a.len() && a[k2] == j;
                assert(front_a[k2] == j);
            }
        }
        ascending_is_unique(front_a, front_b);
        assert(a =~= front_a.push(top));
        assert(b =~= front_b.push(top));
    }
}

/// Whether the cell at `(x, y)` of `map` holds `i` and has `j` at its side.
pub open spec fn beside_at(map: Seq<Seq<usize>>, x: int, y: int, i: usize, j: usize) -> bool {
    in_bounds(map, x, y) && map[x][y] == i && around(map, x, y).contains(j)
}

/// Whether `j` was seen at the side of `i` somewhere in `map`.
pub open spec fn seen_beside(map: Seq<Seq<usize>>, i: usize, j: usize) -> bool {
    exists|x: int, y: int| #[trigger] beside_at(map, x, y, i, j)
}

/// Whether the cell at `(x, y)` of `map` holds `i`.
pub open spec fn holds_at(map: Seq<Seq<usize>>, x: int, y: int, i: usize) -> bool {
    in_bounds(map, x, y) && map[x][y] == i
}

/// Whether some cell of `map` holds `i`.
pub open spec fn occurs(map: Seq<Seq<usize>>, i: usize) -> bool {
    exists|x: int, y: int| #[trigger] holds_at(map, x, y, i)
}

/// Whether every cell of `map` holds a number below `count`.
pub open spec fn indices_below(map: Seq<Seq<usize>>, count: int) -> bool {
    forall|x: int, y: int| in_bounds(map, x, y) ==> (#[trigger] map[x][y]) < count
}

/// Whether `sets` holds, for each of `sets.len()` tiles, the tiles seen at its
/// side in `map`, each once and in ascending order.
pub open spec fn constraints_of(map: Seq<Seq<usize>>, sets: Seq<Seq<usize>>) -> bool {
    forall|i: int|
        0 <= i < sets.len() ==> {
            &&& ascending(#[trigger] sets[i])
            &&& forall|j: usize| sets[i].contains(j) <==> seen_beside(map, i as usize, j)
        }
}

/// Whether `j` was seen at the side of `i` in a cell of `map` that comes
/// before `(px, py)`, going through the rows one after the other.
pub open spec fn seen_before(map: Seq<Seq<usize>>, i: usize, j: usize, px: int, py: int) -> bool {
    exists|x: int, y: int| #[trigger] beside_at(map, x, y, i, j) && (x < px || (x == px && y < py))
}

/// Why a grid of tiles cannot serve as a sample.
#[derive(Clone, Copy, Debug, PartialEq, Eq, Structural)]
pub enum ShapeError {
    /// There is no row, or the first row holds no tile.
    Empty,
    /// A row is longer or shorter than the first.
    Ragged,
}

/// What `data` is as a sample: nothing, where it has the shape of one.
pub open spec fn shape_error<A>(rows: Seq<Seq<A>>) -> Option<ShapeError> {
    if rows.len() == 0 || rows[0].len() == 0 {
        Some(ShapeError::Empty)
    } else if !rows_have_length(rows, rows[0].len() as int) {
        Some(ShapeError::Ragged)
    } else {
        None
    }
}

/// The tiles of a sample and what was seen of them in it.
///
/// A tile is known by its place in `tileset`, its index. `constraints` holds
/// for each index the indices seen at its side in the sample.
pub struct TerrainSample<T: Tile> {
    /// The tiles of the sample, each once, in the order in which they first
    /// occur in it.
    pub tileset: Vec<T>,
    /// The sample, with each tile replaced by its index.
    pub map: Vec<Vec<usize>>,
    /// For each index the indices seen at its side, in ascending order.
    pub constraints: Vec<Vec<usize>>,
}

/// Whether `set` holds `n`.
pub(crate) fn holds(set: &Vec<usize>, n: usize) -> (found: bool)
    ensures
        found == set@.contains(n),
{
    let mut k: usize = 0;
    while k < set.len()
        invariant
            k <= set.len(),
            forall|i: int| 0 <= i < k ==> set@[i] != n,
        decreases set.len() - k,
    {
        if set[k] == n {
            return true;
        }
        k += 1;
    }
    false
}

impl<T: Tile + Copy + PartialEq> TerrainSample<T> {
    /// The sample as indices: what `get_tile_index` reads.
    pub open spec fn index_map(&self) -> Seq<Seq<usize>> {
        rows_of(self.map)
    }

    /// The sets of `constraints` as sequences.
    pub open spec fn constraint_sets(&self) -> Seq<Seq<usize>> {
        rows_of(self.constraints)
    }

    /// What holds of every sample that `new` has made.
    pub open spec fn well_formed(&self) -> bool {
        &&& rectangular(self.index_map())
        &&& indices_below(self.index_map(), self.tileset@.len() as int)
        &&& forall|i: usize| i < self.tileset@.len() ==> occurs(self.index_map(), i)
        &&& self.tileset@.no_duplicates()
        &&& self.constraints@.len() == self.tileset@.len()
        &&& constraints_of(self.index_map(), self.constraint_sets())
    }

    /// Whether this is the sample that the rows `rows` teach: `tileset`
    /// holds their tiles, each once, in the order in which they first occur,
    /// going through the rows one after the other, and the tile with the
    /// index that stands at a place is the tile that `rows` has there.
    pub open spec fn learned_from(&self, rows: Seq<Seq<T>>) -> bool {
        &&& self.well_formed()
        &&& self.tileset@ == distinct(rows.flatten())
        &&& self.index_map().len() == rows.len()
        &&& rows_have_length(self.index_map(), rows[0].len() as int)
        &&& forall|x: int, y: int|
            in_bounds(rows, x, y) ==> self.tileset@[(#[trigger] self.index_map()[x][y]) as int]
                == rows[x][y]
    }

    /// The rows of a sample leave nothing open: two samples learned from the
    /// same rows have the same tiles, indices and sets of neighbours.
    pub proof fn learned_alike(&self, other: &Self, rows: Seq<Seq<T>>)
        requires
            rectangular(rows),
            self.learned_from(rows),
            other.learned_from(rows),
        ensures
            self.tileset@ == other.tileset@,
            self.index_map() == other.index_map(),
            self.constraint_sets() == other.constraint_sets(),
    {
        let mine = self.index_map();
        let theirs = other.index_map();
        assert forall|x: int| 0 <= x < mine.len() implies #[trigger] mine[x] == theirs[x] by {
            assert(rows[x].len() == rows[0].len());
            assert forall|y: int| 0 <= y < mine[x].len() implies mine[x][y] == theirs[x][y] by {
                assert(in_bounds(rows, x, y));
                assert(in_bounds(mine, x, y));
                assert(in_bounds(theirs, x, y));
                assert(self.tileset@[mine[x][y] as int] == self.tileset@[theirs[x][y] as int]);
            }
            assert(mine[x] =~= theirs[x]);
        }
        assert(mine =~= theirs);
        let a = self.constraint_sets();
        let b = other.constraint_sets();
        assert forall|i: int| 0 <= i < a.len() implies #[trigger] a[i] == b[i] by {
            assert forall|j: usize| a[i].contains(j) <==> b[i].contains(j) by {
                assert(a[i].contains(j) <==> seen_beside(mine, i as usize, j));
                assert(b[i].contains(j) <==> seen_beside(mine, i as usize, j));
            }
            ascending_is_unique(a[i], b[i]);
        }
        assert(a =~= b);
    }

    /// A well-formed sample has a tile, and a set of neighbours for each.
    pub proof fn has_tiles(&self)
        requires
            self.well_formed(),
        ensures
            self.tileset@.len() > 0,
            self.constraint_sets().len() == self.tileset@.len(),
    {
        assert(in_bounds(self.index_map(), 0, 0));
        assert(self.index_map()[0][0] < self.tileset@.len());
    }

    /// Two cells that lie side by side in the sample hold tiles that may
    /// stand side by side: each is in the set of the other.
    pub proof fn neighbors_are_allowed(&self, x: int, y: int, x2: int, y2: int)
        requires
            self.well_formed(),
            in_bounds(self.index_map(), x, y),
            in_bounds(self.index_map(), x2, y2),
            adjacent(x, y, x2, y2),
        ensures
            self.constraint_sets()[self.index_map()[x][y] as int].contains(
                self.index_map()[x2][y2],
            ),
            self.constraint_sets()[self.index_map()[x2][y2] as int].contains(
                self.index_map()[x][y],
            ),
    {
        let map = self.index_map();
        around_holds_adjacent(map, x, y, x2, y2);
        around_holds_adjacent(map, x2, y2, x, y);
        assert(beside_at(map, x, y, map[x][y], map[x2][y2]));
        assert(beside_at(map, x2, y2, map[x2][y2], map[x][y]));
        assert(seen_beside(map, map[x][y], map[x2][y2]));
        assert(seen_beside(map, map[x2][y2], map[x][y]));
    }

    /// What the set of a tile holds is the index of a tile, and the two were
    /// seen side by side in the sample.
    pub proof fn constraints_name_tiles(&self, i: usize, j: usize) -> (at: (int, int, int, int))
        requires
            self.well_formed(),
            i < self.tileset@.len(),
            self.constraint_sets()[i as int].contains(j),
        ensures
            j < self.tileset@.len(),
            in_bounds(self.index_map(), at.0, at.1),
            in_bounds(self.index_map(), at.2, at.3),
            adjacent(at.0, at.1, at.2, at.3),
            self.index_map()[at.0][at.1] == i,
            self.index_map()[at.2][at.3] == j,
    {
        let map = self.index_map();
        assert(seen_beside(map, i, j));
        let (x, y) = choose|x: int, y: int| #[trigger] beside_at(map, x, y, i, j);
        let (x2, y2) = around_is_adjacent(map, x, y, j);
        (x, y, x2, y2)
    }

    /// A sample of one cell has one tile, and nothing was seen at its side.
    pub proof fn one_cell_has_one_tile(&self)
        requires
            self.well_formed(),
            self.index_map().len() == 1,
            self.index_map()[0].len() == 1,
        ensures
            self.tileset@.len() == 1,
            self.constraint_sets()[0].len() == 0,
    {
        let map = self.index_map();
        self.has_tiles();
        if self.tileset@.len() > 1 {
            assert(occurs(map, 0usize));
            let (x, y) = choose|x: int, y: int| #[trigger] holds_at(map, x, y, 0usize);
            assert(occurs(map, 1usize));
            let (x2, y2) = choose|x2: int, y2: int| #[trigger] holds_at(map, x2, y2, 1usize);
            assert(map[x][y] == map[x2][y2]);
        }
        let set = self.constraint_sets()[0];
        if set.len() > 0 {
            let j = set[0];
            assert(set.contains(j));
            let at = self.constraints_name_tiles(0, j);
        }
    }

    /// The place of `tile` in `tileset`, if it is there.
    fn position(tileset: &Vec<T>, tile: &T) -> (found: Option<usize>)
        requires
            compares_by_value::<T>(),
        ensures
            match found {
                Some(i) => i < tileset@.len() && tileset@[i as int] == *tile,
                None => !tileset@.contains(*tile),
            },
    {
        let mut i: usize = 0;
        while i < tileset.len()
            invariant
                compares_by_value::<T>(),
                i <= tileset@.len(),
                forall|k: int| 0 <= k < i ==> tileset@[k] != *tile,
            decreases tileset.len() - i,
        {
            if tileset[i] == *tile {
                assert(tileset@[i as int].eq_spec(tile));
                return Some(i);
            }
            assert(!tileset@[i as int].eq_spec(tile));
            i += 1;
        }
        None
    }

    /// The indices at the sides of `(x, y)` in `map`.
    fn get_neighbors(map: &Vec<Vec<usize>>, x: usize, y: usize) -> (neighbors: Vec<usize>)
        requires
            rectangular(rows_of(*map)),
            in_bounds(rows_of(*map), x as int, y as int),
        ensures
            neighbors@ == around(rows_of(*map), x as int, y as int),
    {
        let ghost rows = rows_of(*map);
        let mut neighbors = Vec::new();
        assert(rows[0].len() == map@[0]@.len());
        assert(rows[x as int].len() == rows[0].len());
        if x > 0 {
            assert(rows[x - 1].len() == rows[0].len());
            neighbors.push(map[x - 1][y]);
        }
        assert(neighbors@ == cell_at(rows, x - 1, y as int));
        if y > 0 {
            neighbors.push(map[x][y - 1]);
        }
        assert(neighbors@ == cell_at(rows, x - 1, y as int) + cell_at(rows, x as int, y - 1));
        if x < map.len() - 1 {
            assert(rows[x + 1].len() == rows[0].len());
            neighbors.push(map[x + 1][y]);
        }
        assert(neighbors@ == cell_at(rows, x - 1, y as int) + cell_at(rows, x as int, y - 1)
            + cell_at(rows, x + 1, y as int));
        if y < map[0].len() - 1 {
            neighbors.push(map[x][y + 1]);
        }
        assert(neighbors@ == around(rows, x as int, y as int));
        neighbors
    }

    /// For each tile the tiles seen at its side in `map`, in ascending order.
    fn generate_constraints(tileset: &Vec<T>, map: &Vec<Vec<usize>>) -> (constraints: Vec<
        Vec<usize>,
    >)
        requires
            rectangular(rows_of(*map)),
            indices_below(rows_of(*map), tileset@.len() as int),
        ensures
            constraints@.len() == tileset@.len(),
            constraints_of(rows_of(*map), rows_of(constraints)),
    {
        let ghost rows = rows_of(*map);
        let count = tileset.len();
        let mut seen: Vec<BTreeSet<usize>> = Vec::new();
        while seen.len() < count
            invariant
                seen@.len() <= count,
                forall|i: int| 0 <= i < seen@.len() ==> (#[trigger] seen@[i])@ == Set::<usize>::empty(),
            decreases count - seen.len(),
        {
            seen.push(BTreeSet::new());
        }
        let width = map.len();
        let height = map[0].len();
        assert(rows[0].len() == height);
        let mut x: usize = 0;
        while x < width
            invariant
                rows == rows_of(*map),
                rectangular(rows),
                indices_below(rows, count as int),
                width == rows.len(),
                height == rows[0].len(),
                x <= width,
                seen@.len() == count,
                forall|i: int|
                    0 <= i < count ==> {
                        forall|j: usize|
                            (#[trigger] seen@[i])@.contains(j) <==> seen_before(
                                rows,
                                i as usize,
                                j,
                                x as int,
                                0,
                            )
                    },
            decreases width - x,
        {
            assert(rows[x as int].len() == height);
            let mut y: usize = 0;
            while y < height
                invariant
                    rows == rows_of(*map),
                    rectangular(rows),
                    indices_below(rows, count as int),
                    width == rows.len(),
                    height == rows[0].len(),
                    x < width,
                    y <= height,
                    seen@.len() == count,
                    forall|i: int|
                        0 <= i < count ==> {
                            forall|j: usize|
                                (#[trigger] seen@[i])@.contains(j) <==> seen_before(
                                    rows,
                                    i as usize,
                                    j,
                                    x as int,
                                    y as int,
                                )
                        },
                decreases height - y,
            {
                assert(rows[x as int].len() == height);
                let tile = map[x][y];
                assert(tile == rows[x as int][y as int]);
                let neighbors = Self::get_neighbors(map, x, y);
                let mut k: usize = 0;
                while k < neighbors.len()
                    invariant
                        k <= neighbors@.len(),
                        tile < count,
                        seen@.len() == count,
                        forall|i: int|
                            0 <= i < count ==> {
                                forall|j: usize|
                                    (#[trigger] seen@[i])@.contains(j) <==> (seen_before(
                                        rows,
                                        i as usize,
                                        j,
                                        x as int,
                                        y as int,
                                    ) || (i == tile && neighbors@.take(k as int).contains(j)))
                            },
                    decreases neighbors.len() - k,
                {
                    let ghost before = seen@;
                    let n = neighbors[k];
                    put(&mut seen[tile], n);
                    proof {
                        let taken = neighbors@.take(k as int);
                        let more = neighbors@.take(k + 1);
                        assert(more == taken.push(n));
                        assert forall|j: usize| more.contains(j) <==> (j == n || taken.contains(
                            j,
                        )) by {
                            if taken.contains(j) {
                                let a = choose|a: int| 0 <= a < taken.len() && taken[a] == j;
                                assert(more[a] == j);
                            }
                            assert(more[k as int] == n);
                        }
                        assert forall|i: int| 0 <= i < count && i != tile implies seen@[i]
                            == before[i] by {}
                    }
                    k += 1;
                }
                proof {
                    assert(neighbors@.take(k as int) == neighbors@);
                    let xi = x as int;
                    let yi = y as int;
                    let next = y + 1;
                    assert forall|i: usize, j: usize| #[trigger]
                        seen_before(rows, i, j, xi, next) <==> (seen_before(rows, i, j, xi, yi)
                            || (i == tile && neighbors@.contains(j))) by {
                        if seen_before(rows, i, j, xi, next) {
                            let (a, b) = choose|a: int, b: int|
                                #[trigger] beside_at(rows, a, b, i, j) && (a < xi || (a == xi && b
                                    < next));
                            if a == xi && b == yi {
                            } else {
                                assert(beside_at(rows, a, b, i, j) && (a < xi || (a == xi && b
                                    < yi)));
                            }
                        }
                        if seen_before(rows, i, j, xi, yi) {
                            let (a, b) = choose|a: int, b: int|
                                #[trigger] beside_at(rows, a, b, i, j) && (a < xi || (a == xi && b
                                    < yi));
                            assert(beside_at(rows, a, b, i, j) && (a < xi || (a == xi && b
                                < next)));
                        }
                        if i == tile && neighbors@.contains(j) {
                            assert(beside_at(rows, xi, yi, i, j) && (xi < xi || (xi == xi && yi
                                < next)));
                        }
                    }
                }
                y += 1;
            }
            proof {
                let xi = x as int;
                let next = x + 1;
                let end = height as int;
                assert forall|i: usize, j: usize| #[trigger]
                    seen_before(rows, i, j, next, 0) <==> seen_before(rows, i, j, xi, end) by {
                    if seen_before(rows, i, j, next, 0) {
                        let (a, b) = choose|a: int, b: int|
                            #[trigger] beside_at(rows, a, b, i, j) && (a < next || (a == next && b
                                < 0));
                        assert(rows[a].len() == height);
                        assert(beside_at(rows, a, b, i, j) && (a < xi || (a == xi && b < end)));
                    }
                    if seen_before(rows, i, j, xi, end) {
                        let (a, b) = choose|a: int, b: int|
                            #[trigger] beside_at(rows, a, b, i, j) && (a < xi || (a == xi && b
                                < end));
                        assert(beside_at(rows, a, b, i, j) && (a < next || (a == next && b < 0)));
                    }
                }
            }
            x += 1;
        }
        proof {
            let end = width as int;
            assert forall|i: usize, j: usize| #[trigger]
                seen_beside(rows, i, j) <==> seen_before(rows, i, j, end, 0) by {
                if seen_beside(rows, i, j) {
                    let (a, b) = choose|a: int, b: int| #[trigger] beside_at(rows, a, b, i, j);
                    assert(beside_at(rows, a, b, i, j) && (a < end || (a == end && b < 0)));
                }
            }
        }
        let mut constraints: Vec<Vec<usize>> = Vec::new();
        let mut tile: usize = 0;
        while tile < count
            invariant
                seen@.len() == count,
                tile <= count,
                constraints@.len() == tile,
                forall|i: int|
                    0 <= i < tile ==> {
                        &&& ascending(#[trigger] constraints@[i]@)
                        &&& forall|j: usize| constraints@[i]@.contains(j) <==> seen@[i]@.contains(j)
                    },
            decreases count - tile,
        {
            constraints.push(in_order(&seen[tile]));
            tile += 1;
        }
        proof {
            let sets = rows_of(constraints);
            assert forall|i: int| 0 <= i < sets.len() implies {
                &&& ascending(#[trigger] sets[i])
                &&& forall|j: usize| sets[i].contains(j) <==> seen_beside(rows, i as usize, j)
            } by {
                assert(sets[i] == constraints@[i]@);
                assert forall|j: usize| sets[i].contains(j) <==> seen_beside(
                    rows,
                    i as usize,
                    j,
                ) by {
                    assert(seen@[i]@.contains(j) <==> seen_before(
                        rows,
                        i as usize,
                        j,
                        width as int,
                        0,
                    ));
                }
            }
        }
        constraints
    }

    /// Learns a sample: `data` holds its rows, which are of one length, and
    /// there is at least one tile.
    ///
    /// The tileset holds the tiles of the sample, each once, in the order in
    /// which they first occur, going through the rows one after the other.
    pub fn new(data: Vec<Vec<T>>) -> (sample: Self)
        requires
            compares_by_value::<T>(),
            rectangular(rows_of(data)),
        ensures
            sample.learned_from(rows_of(data)),
            sample.tileset@.len() == rows_of(data).flatten().to_set().len(),
    {
        let ghost rows = rows_of(data);
        let mut tileset: Vec<T> = Vec::new();
        let mut map: Vec<Vec<usize>> = Vec::new();
        let ghost mut first: Seq<(int, int)> = Seq::empty();
        let mut x: usize = 0;
        while x < data.len()
            invariant
                compares_by_value::<T>(),
                rows == rows_of(data),
                x <= rows.len(),
                first.len() == tileset@.len(),
                forall|i: int|
                    0 <= i < first.len() ==> in_bounds(rows, (#[trigger] first[i]).0, first[i].1)
                        && rows[first[i].0][first[i].1] == tileset@[i],
                rows_have_length(rows, rows[0].len() as int),
                map@.len() == x,
                tileset@ == distinct(rows.take(x as int).flatten_alt()),
                forall|a: int| 0 <= a < x ==> (#[trigger] map@[a])@.len() == rows[a].len(),
                forall|a: int, b: int|
                    0 <= a < x && 0 <= b < rows[a].len() ==> (#[trigger] map@[a]@[b])
                        < tileset@.len() && tileset@[map@[a]@[b] as int] == rows[a][b],
            decreases data.len() - x,
        {
            let row = &data[x];
            let ghost done = rows.take(x as int).flatten_alt();
            assert(row@ == rows[x as int]);
            let mut indices: Vec<usize> = Vec::new();
            let mut y: usize = 0;
            assert(done + row@.take(0) == done);
            while y < row.len()
                invariant
                    compares_by_value::<T>(),
                    rows == rows_of(data),
                    x < rows.len(),
                    row@ == rows[x as int],
                    y <= row@.len(),
                    map@.len() == x,
                    indices@.len() == y,
                    first.len() == tileset@.len(),
                    forall|i: int|
                        0 <= i < first.len() ==> in_bounds(rows, (#[trigger] first[i]).0, first[i].1)
                            && rows[first[i].0][first[i].1] == tileset@[i],
                    tileset@ == distinct(done + row@.take(y as int)),
                    forall|a: int| 0 <= a < x ==> (#[trigger] map@[a])@.len() == rows[a].len(),
                    forall|a: int, b: int|
                        0 <= a < x && 0 <= b < rows[a].len() ==> (#[trigger] map@[a]@[b])
                            < tileset@.len() && tileset@[map@[a]@[b] as int] == rows[a][b],
                    forall|b: int|
                        0 <= b < y ==> (#[trigger] indices@[b]) < tileset@.len()
                            && tileset@[indices@[b] as int] == row@[b],
                decreases row.len() - y,
            {
                let tile = row[y];
                let ghost seen = done + row@.take(y as int);
                let ghost more = done + row@.take(y + 1);
                proof {
                    assert(more == seen.push(tile));
                    assert(more.drop_last() == seen);
                }
                let index = match Self::position(&tileset, &tile) {
                    Some(index) => index,
                    None => {
                        tileset.push(tile);
                        proof {
                            first = first.push((x as int, y as int));
                        }
                        tileset.len() - 1
                    },
                };
                indices.push(index);
                y += 1;
            }
            proof {
                let next = rows.take(x + 1);
                assert(row@.take(y as int) == row@);
                assert(next.drop_last() == rows.take(x as int));
                assert(next.last() == row@);
            }
            map.push(indices);
            x += 1;
        }
        proof {
            assert(rows.take(x as int) == rows);
            rows.lemma_flatten_and_flatten_alt_are_equivalent();
            distinct_holds_each_once(rows.flatten());
            let indices = rows_of(map);
            assert forall|a: int| 0 <= a < indices.len() implies (#[trigger] indices[a]).len()
                == rows[0].len() by {
                assert(map@[a]@.len() == rows[a].len());
            }
            assert forall|a: int, b: int| in_bounds(indices, a, b) implies (
            #[trigger] indices[a][b]) < tileset@.len() && tileset@[indices[a][b] as int]
                == rows[a][b] by {
                assert(map@[a]@.len() == rows[a].len());
                assert(map@[a]@[b] < tileset@.len());
            }
            assert forall|a: int, b: int| in_bounds(rows, a, b) implies tileset@[(
            #[trigger] indices[a][b]) as int] == rows[a][b] by {
                assert(map@[a]@.len() == rows[a].len());
                assert(in_bounds(indices, a, b));
            }
            assert forall|i: usize| i < tileset@.len() implies occurs(indices, i) by {
                let (a, b) = first[i as int];
                assert(map@[a]@.len() == rows[a].len());
                assert(tileset@[indices[a][b] as int] == tileset@[i as int]);
                assert(holds_at(indices, a, b, i));
            }
        }
        let constraints = Self::generate_constraints(&tileset, &map);
        TerrainSample { tileset, map, constraints }
    }

    /// Learns a sample from `data` if it has the shape of one, and says what
    /// is wrong with its shape if it has not.
    pub fn try_new(data: Vec<Vec<T>>) -> (learned: Result<Self, ShapeError>)
        requires
            compares_by_value::<T>(),
        ensures
            match learned {
                Ok(sample) => {
                    &&& shape_error(rows_of(data)) is None
                    &&& sample.learned_from(rows_of(data))
                    &&& sample.tileset@.len() == rows_of(data).flatten().to_set().len()
                },
                Err(error) => shape_error(rows_of(data)) == Some(error),
            },
    {
        let ghost rows = rows_of(data);
        if data.len() == 0 {
            return Err(ShapeError::Empty);
        }
        let height = data[0].len();
        assert(rows[0].len() == height);
        if height == 0 {
            return Err(ShapeError::Empty);
        }
        let mut x: usize = 1;
        while x < data.len()
            invariant
                rows == rows_of(data),
                1 <= x <= rows.len(),
                0 < height == rows[0].len(),
                forall|a: int| 0 <= a < x ==> (#[trigger] rows[a]).len() == height,
            decreases data.len() - x,
        {
            assert(rows[x as int].len() == data@[x as int]@.len());
            if data[x].len() != height {
                assert(!rows_have_length(rows, height as int)) by {
                    assert(rows[x as int].len() != height);
                }
                return Err(ShapeError::Ragged);
            }
            x += 1;
        }
        Ok(Self::new(data))
    }

    /// The indices at the sides of `(x, y)` in the sample that the tile at
    /// `(x, y)` may have at its side. They are all of them, in the order
    /// `(x - 1, y)`, `(x, y - 1)`, `(x + 1, y)`, `(x, y + 1)`, since each was
    /// seen there.
    pub fn get_valid_neighbors(&self, x: usize, y: usize) -> (valid: Vec<usize>)
        requires
            self.well_formed(),
            in_bounds(self.index_map(), x as int, y as int),
        ensures
            valid@ == around(self.index_map(), x as int, y as int),
    {
        let ghost rows = self.index_map();
        let neighbors = Self::get_neighbors(&self.map, x, y);
        assert(rows[x as int] == self.map@[x as int]@);
        let tile = self.map[x][y];
        let allowed = &self.constraints[tile];
        assert(allowed@ == self.constraint_sets()[tile as int]);
        assert forall|j: usize| neighbors@.contains(j) implies allowed@.contains(j) by {
            assert(beside_at(rows, x as int, y as int, tile, j));
            assert(seen_beside(rows, tile, j));
        }
        let mut valid: Vec<usize> = Vec::new();
        let mut k: usize = 0;
        while k < neighbors.len()
            invariant
                k <= neighbors@.len(),
                valid@ == neighbors@.take(k as int),
                forall|j: usize| neighbors@.contains(j) ==> allowed@.contains(j),
            decreases neighbors.len() - k,
        {
            let n = neighbors[k];
            assert(neighbors@.contains(n));
            if holds(allowed, n) {
                valid.push(n);
            }
            assert(neighbors@.take(k + 1) == neighbors@.take(k as int).push(n));
            k += 1;
        }
        assert(neighbors@.take(k as int) == neighbors@);
        valid
    }

    /// The tile with the given index.
    pub fn get(&self, index: usize) -> (tile: Option<&T>)
        ensures
            index < self.tileset@.len() ==> tile == Some(&self.tileset@[index as int]),
            index >= self.tileset@.len() ==> tile is None,
    {
        if index < self.tileset.len() {
            Some(&self.tileset[index])
        } else {
            None
        }
    }

    /// The index of the tile that the sample holds at `(x, y)`.
    pub fn get_tile_index(&self, x: usize, y: usize) -> (index: Option<usize>)
        ensures
            in_bounds(self.index_map(), x as int, y as int) ==> index == Some(
                self.index_map()[x as int][y as int],
            ),
            !in_bounds(self.index_map(), x as int, y as int) ==> index is None,
    {
        if x < self.map.len() {
            if y < self.map[x].len() {
                return Some(self.map[x][y]);
            }
        }
        None
    }
}

} // verus!
