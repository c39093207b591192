//! Rows of cells as mathematical sequences, and what lies next to a cell.

use vstd::prelude::*;

verus! {

/// The rows of a vector of vectors, each as a sequence.
pub open spec fn rows_of<A>(v: Vec<Vec<A>>) -> Seq<Seq<A>> {
    Seq::new(v@.len(), |x: int| v@[x]@)
}

/// Whether `(x, y)` names a cell: `x` picks the row and `y` the place in it.
pub open spec fn in_bounds<A>(rows: Seq<Seq<A>>, x: int, y: int) -> bool {
    0 <= x < rows.len() && 0 <= y < rows[x].len()
}

/// Whether all rows have the length `height`.
pub open spec fn rows_have_length<A>(rows: Seq<Seq<A>>, height: int) -> bool {
    forall|x: int| 0 <= x < rows.len() ==> (#[trigger] rows[x]).len() == height
}

/// Whether there is at least one cell and all rows are of one length.
pub open spec fn rectangular<A>(rows: Seq<Seq<A>>) -> bool {
    &&& rows.len() > 0
    &&& rows[0].len() > 0
    &&& rows_have_length(rows, rows[0].len() as int)
}

/// Whether two cells lie side by side: one step apart in one direction.
pub open spec fn adjacent(x: int, y: int, x2: int, y2: int) -> bool {
    ||| x2 == x && (y2 == y + 1 || y2 == y - 1)
    ||| y2 == y && (x2 == x + 1 || x2 == x - 1)
}

/// The cell at `(x, y)` as a sequence of one, or of none where there is no
/// such cell.
pub open spec fn cell_at<A>(rows: Seq<Seq<A>>, x: int, y: int) -> Seq<A> {
    if in_bounds(rows, x, y) {
        seq![rows[x][y]]
    } else {
        Seq::empty()
    }
}

/// The cells that lie side by side with `(x, y)`, in the order
/// `(x - 1, y)`, `(x, y - 1)`, `(x + 1, y)`, `(x, y + 1)`. Nothing wraps
/// around: a cell at the edge has fewer of them.
pub open spec fn around<A>(rows: Seq<Seq<A>>, x: int, y: int) -> Seq<A> {
    cell_at(rows, x - 1, y) + cell_at(rows, x, y - 1) + cell_at(rows, x + 1, y) + cell_at(
        rows,
        x,
        y + 1,
    )
}

/// Whether each number of `s` is below the one after it. Such a sequence
/// holds nothing twice.
pub open spec fn ascending(s: Seq<usize>) -> bool {
    forall|i: int, j: int| 0 <= i < j < s.len() ==> s[i] < s[j]
}

/// What lies at `(x2, y2)` is among what lies around `(x, y)`, where the two
/// cells are side by side.
pub proof fn around_holds_adjacent<A>(rows: Seq<Seq<A>>, x: int, y: int, x2: int, y2: int)
    requires
        in_bounds(rows, x2, y2),
        adjacent(x, y, x2, y2),
    ensures
        around(rows, x, y).contains(rows[x2][y2]),
{
    let a = cell_at(rows, x - 1, y);
    let b = cell_at(rows, x, y - 1);
    let c = cell_at(rows, x + 1, y);
    let d = cell_at(rows, x, y + 1);
    let all = around(rows, x, y);
    if x2 == x - 1 {
        assert(all[0] == rows[x2][y2]);
    } else if y2 == y - 1 {
        assert(all[a.len() as int] == rows[x2][y2]);
    } else if x2 == x + 1 {
        assert(all[(a.len() + b.len()) as int] == rows[x2][y2]);
    } else {
        assert(all[(a.len() + b.len() + c.len()) as int] == rows[x2][y2]);
    }
}

/// Whatever is among what lies around `(x, y)` lies in a cell at its side.
pub proof fn around_is_adjacent<A>(rows: Seq<Seq<A>>, x: int, y: int, v: A) -> (at: (int, int))
    requires
        around(rows, x, y).contains(v),
    ensures
        in_bounds(rows, at.0, at.1),
        adjacent(x, y, at.0, at.1),
        rows[at.0][at.1] == v,
{
    let a = cell_at(rows, x - 1, y);
    let b = cell_at(rows, x, y - 1);
    let c = cell_at(rows, x + 1, y);
    let d = cell_at(rows, x, y + 1);
    let all = around(rows, x, y);
    let k = choose|k: int| 0 <= k < all.len() && all[k] == v;
    if k < a.len() {
        (x - 1, y)
    } else if k < a.len() + b.len() {
        (x, y - 1)
    } else if k < a.len() + b.len() + c.len() {
        (x + 1, y)
    } else {
        (x, y + 1)
    }
}

} // verus!
