use vstd::prelude::*;

verus! {

/// The eight directions an icon state may face.
#[allow(non_camel_case_types)]
#[derive(Debug, Clone, Copy, PartialEq, Eq, Hash)]
pub enum Dirs {
    NORTH,
    SOUTH,
    EAST,
    WEST,
    NORTHEAST,
    NORTHWEST,
    SOUTHEAST,
    SOUTHWEST,
}

/// The bit of each cardinal direction; a diagonal is the union of two.
pub open spec fn dir_bits(d: Dirs) -> u8 {
    match d {
        Dirs::NORTH => 1,
        Dirs::SOUTH => 2,
        Dirs::EAST => 4,
        Dirs::WEST => 8,
        Dirs::NORTHEAST => 5,
        Dirs::NORTHWEST => 9,
        Dirs::SOUTHEAST => 6,
        Dirs::SOUTHWEST => 10,
    }
}

/// Whether a direction is one of the four cardinal ones.
pub open spec fn is_cardinal(d: Dirs) -> bool {
    d == Dirs::NORTH || d == Dirs::SOUTH || d == Dirs::EAST || d == Dirs::WEST
}

impl Dirs {
    /// The bit pattern of the direction.
    pub fn bits(&self) -> (r: u8)
        ensures
            r == dir_bits(*self),
    {
        match self {
            Dirs::NORTH => 1,
            Dirs::SOUTH => 2,
            Dirs::EAST => 4,
            Dirs::WEST => 8,
            Dirs::NORTHEAST => 5,
            Dirs::NORTHWEST => 9,
            Dirs::SOUTHEAST => 6,
            Dirs::SOUTHWEST => 10,
        }
    }

    /// Whether the direction is one of the four cardinal ones.
    pub fn is_cardinal(&self) -> (r: bool)
        ensures
            r == is_cardinal(*self),
    {
        match self {
            Dirs::NORTH | Dirs::SOUTH | Dirs::EAST | Dirs::WEST => true,
            _ => false,
        }
    }
}

/// Every cardinal direction.
pub fn cardinal_dirs() -> (r: [Dirs; 4])
    ensures
        r@ == seq![Dirs::NORTH, Dirs::SOUTH, Dirs::EAST, Dirs::WEST],
{
    let r = [Dirs::NORTH, Dirs::SOUTH, Dirs::EAST, Dirs::WEST];
    assert(r@ =~= seq![Dirs::NORTH, Dirs::SOUTH, Dirs::EAST, Dirs::WEST]);
    r
}

/// Every direction, cardinals then diagonals.
pub fn all_dirs() -> (r: [Dirs; 8])
    ensures
        r@ == seq![
            Dirs::NORTH,
            Dirs::SOUTH,
            Dirs::EAST,
            Dirs::WEST,
            Dirs::NORTHEAST,
            Dirs::NORTHWEST,
            Dirs::SOUTHEAST,
            Dirs::SOUTHWEST,
        ],
{
    let r = [
        Dirs::NORTH,
        Dirs::SOUTH,
        Dirs::EAST,
        Dirs::WEST,
        Dirs::NORTHEAST,
        Dirs::NORTHWEST,
        Dirs::SOUTHEAST,
        Dirs::SOUTHWEST,
    ];
    assert(r@ =~= seq![
        Dirs::NORTH,
        Dirs::SOUTH,
        Dirs::EAST,
        Dirs::WEST,
        Dirs::NORTHEAST,
        Dirs::NORTHWEST,
        Dirs::SOUTHEAST,
        Dirs::SOUTHWEST,
    ]);
    r
}

} // verus!
