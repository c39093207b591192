//! What a tile has to offer, and the tile that is a single character.

use std::fmt::Display;
use vstd::prelude::*;
use vstd::std_specs::cmp::{PartialEqSpec, PartialEqSpecImpl};
use vstd::std_specs::convert::FromSpecImpl;

verus! {

/// One kind of terrain. A tile has an empty value (its `Default`), can say
/// whether it stands for a decided kind of terrain, and can be shown.
pub trait Tile: Default {
    /// What a tile is shown as.
    type Output: Display + Default;

    /// Whether the tile stands for a decided kind of terrain.
    spec fn collapsed(&self) -> bool;

    /// What the tile is shown as.
    spec fn shown(&self) -> Self::Output;

    fn is_collapsed(&self) -> (b: bool)
        ensures
            b == self.collapsed(),
    ;

    fn value(&self) -> (v: Self::Output)
        ensures
            v == self.shown(),
    ;
}

/// `==` on `T` holds of two tiles exactly when they are the same value, so that
/// tiles can be told apart by comparing them.
pub open spec fn compares_by_value<T: PartialEq>() -> bool {
    &&& T::obeys_eq_spec()
    &&& forall|a: T, b: T| #[trigger] a.eq_spec(&b) <==> a == b
}

/// A tile that is one character. The space is the empty tile.
#[derive(Clone, Copy, Debug)]
pub struct CharTile(pub char);

impl PartialEq for CharTile {
    fn eq(&self, other: &Self) -> (r: bool) {
        self.0 == other.0
    }
}

impl Eq for CharTile {

}

impl PartialEqSpecImpl for CharTile {
    open spec fn obeys_eq_spec() -> bool {
        true
    }

    open spec fn eq_spec(&self, other: &Self) -> bool {
        self.0 == other.0
    }
}

impl Default for CharTile {
    fn default() -> (r: Self)
        ensures
            r == CharTile(' '),
    {
        CharTile(' ')
    }
}

impl From<char> for CharTile {
    fn from(value: char) -> (r: Self) {
        CharTile(value)
    }
}

impl FromSpecImpl<char> for CharTile {
    open spec fn obeys_from_spec() -> bool {
        true
    }

    open spec fn from_spec(value: char) -> Self {
        CharTile(value)
    }
}

impl Tile for CharTile {
    type Output = char;

    open spec fn collapsed(&self) -> bool {
        self.0 != ' '
    }

    open spec fn shown(&self) -> char {
        self.0
    }

    fn is_collapsed(&self) -> (b: bool) {
        self.0 != ' '
    }

    fn value(&self) -> (v: char) {
        self.0
    }
}

/// `CharTile` is compared by its character, so two tiles are equal exactly
/// when they are the same tile.
pub proof fn char_tiles_compare_by_value()
    ensures
        compares_by_value::<CharTile>(),
{
}

} // verus!
