//! Cell types stored in a grid: the player/solution cell (`FieldCell`) and the
//! clue cell (`HintCell`), together with the traits a grid needs of its items.

use vstd::prelude::*;

verus! {

/// An item a `Grid` can be filled with: it has a default value, used for
/// fresh cells and for padding.
pub trait GridItem: Sized + Copy {
    /// The default (empty) value of this item type.
    spec fn default_spec() -> Self;

    /// Produce the default value.
    fn default_item() -> (r: Self)
        ensures
            r == Self::default_spec(),
    ;
}

/// An item that can pass through the 2-bit binary codec: it maps to and from
/// an unsigned 2-bit value.
pub trait CellCodec: GridItem {
    /// The 2-bit value this item encodes to.
    spec fn bits_spec(self) -> u8;

    /// The item a 2-bit value decodes to.
    spec fn from_bits_spec(b: u8) -> Self;

    /// Whether this item survives an encode/decode round trip. Items whose
    /// encoding is not a faithful 2-bit value (e.g. an out-of-range raw byte)
    /// are not canonical.
    spec fn is_canonical(self) -> bool;

    /// A canonical item encodes to a value below 4 and decodes back to itself.
    proof fn lemma_canonical_round_trip(self)
        requires
            self.is_canonical(),
        ensures
            self.bits_spec() < 4,
            Self::from_bits_spec(self.bits_spec()) == self,
    ;

    /// Encode this item as a 2-bit value.
    fn to_bits(self) -> (r: u8)
        ensures
            r == self.bits_spec(),
    ;

    /// Decode a 2-bit value into an item.
    fn from_bits(b: u8) -> (r: Self)
        requires
            b < 4,
        ensures
            r == Self::from_bits_spec(b),
    ;
}

/// One cell of the playing field or of the solution pattern.
#[derive(Clone, Copy, Debug, PartialEq, Eq, Structural)]
pub enum FieldCell {
    /// Nothing recorded for the cell.
    Empty,
    /// The cell is filled in.
    Filled,
    /// The player marked the cell as known-empty.
    Marked,
}

impl GridItem for FieldCell {
    open spec fn default_spec() -> Self {
        FieldCell::Empty
    }

    fn default_item() -> (r: Self) {
        FieldCell::Empty
    }
}

impl CellCodec for FieldCell {
    open spec fn bits_spec(self) -> u8 {
        match self {
            FieldCell::Empty => 0,
            FieldCell::Filled => 1,
            FieldCell::Marked => 2,
        }
    }

    open spec fn from_bits_spec(b: u8) -> Self {
        if b == 1 {
            FieldCell::Filled
        } else if b == 2 {
            FieldCell::Marked
        } else {
            FieldCell::Empty
        }
    }

    open spec fn is_canonical(self) -> bool {
        true
    }

    proof fn lemma_canonical_round_trip(self) {
    }

    fn to_bits(self) -> (r: u8) {
        match self {
            FieldCell::Empty => 0,
            FieldCell::Filled => 1,
            FieldCell::Marked => 2,
        }
    }

    fn from_bits(b: u8) -> (r: Self) {
        if b == 1 {
            FieldCell::Filled
        } else if b == 2 {
            FieldCell::Marked
        } else {
            FieldCell::Empty
        }
    }
}

impl GridItem for u8 {
    open spec fn default_spec() -> Self {
        0
    }

    fn default_item() -> (r: Self) {
        0
    }
}

impl CellCodec for u8 {
    open spec fn bits_spec(self) -> u8 {
        self
    }

    open spec fn from_bits_spec(b: u8) -> Self {
        b
    }

    open spec fn is_canonical(self) -> bool {
        self < 4
    }

    proof fn lemma_canonical_round_trip(self) {
    }

    fn to_bits(self) -> (r: u8) {
        self
    }

    fn from_bits(b: u8) -> (r: Self) {
        b
    }
}

/// One clue slot of a row or column: the length of a run of filled cells
/// (`0` meaning "no clue shown"), plus a player-only crossed-off annotation.
#[derive(Clone, Copy, Debug, PartialEq, Eq, Structural)]
pub struct HintCell {
    /// Length of the run this slot announces; 0 shows an empty slot.
    pub number: u16,
    /// Player annotation: the clue has been crossed off. Never persisted.
    pub crossed: bool,
}

impl GridItem for HintCell {
    open spec fn default_spec() -> Self {
        HintCell { number: 0, crossed: false }
    }

    fn default_item() -> (r: Self) {
        HintCell { number: 0, crossed: false }
    }
}

impl Default for HintCell {
    fn default() -> (r: Self)
        ensures
            r == Self::default_spec(),
    {
        HintCell { number: 0, crossed: false }
    }
}

} // verus!
