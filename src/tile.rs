//! Tile values and their canonical numbering into 34 kinds.
use vstd::prelude::*;

verus! {

#[derive(Clone, Copy, PartialEq, Eq, Structural, Debug, Hash)]
pub enum Suit {
    Pin,
    Man,
    Sou,
}

#[derive(Clone, Copy, PartialEq, Eq, Structural, Debug, Hash)]
pub enum Wind {
    North,
    East,
    South,
    West,
}

#[derive(Clone, Copy, PartialEq, Eq, Structural, Debug, Hash)]
pub enum Dragon {
    Green,
    White,
    Red,
}

/// A single tile: an honor (wind or dragon) or a suited tile with a rank.
#[derive(Clone, Copy, PartialEq, Eq, Structural, Debug, Hash)]
pub enum Tile {
    Wind(Wind),
    Dragon(Dragon),
    Suit(Suit, i8),
}

/// Number of distinct tile kinds: 27 suited, 4 winds, 3 dragons.
pub const KINDS: usize = 34;

pub open spec fn suit_index(s: Suit) -> int {
    match s {
        Suit::Pin => 0,
        Suit::Man => 1,
        Suit::Sou => 2,
    }
}

pub open spec fn wind_index(w: Wind) -> int {
    match w {
        Wind::North => 0,
        Wind::East => 1,
        Wind::South => 2,
        Wind::West => 3,
    }
}

pub open spec fn dragon_index(d: Dragon) -> int {
    match d {
        Dragon::Green => 0,
        Dragon::White => 1,
        Dragon::Red => 2,
    }
}

/// The position of a tile in the canonical order: suits by rank, then winds, then dragons.
pub open spec fn kind_of(t: Tile) -> int {
    match t {
        Tile::Suit(s, r) => 9 * suit_index(s) + r - 1,
        Tile::Wind(w) => 27 + wind_index(w),
        Tile::Dragon(d) => 31 + dragon_index(d),
    }
}

/// The tile at a position of the canonical order.
pub open spec fn tile_of_kind(k: int) -> Tile {
    if k < 9 {
        Tile::Suit(Suit::Pin, (k + 1) as i8)
    } else if k < 18 {
        Tile::Suit(Suit::Man, (k - 8) as i8)
    } else if k < 27 {
        Tile::Suit(Suit::Sou, (k - 17) as i8)
    } else if k == 27 {
        Tile::Wind(Wind::North)
    } else if k == 28 {
        Tile::Wind(Wind::East)
    } else if k == 29 {
        Tile::Wind(Wind::South)
    } else if k == 30 {
        Tile::Wind(Wind::West)
    } else if k == 31 {
        Tile::Dragon(Dragon::Green)
    } else if k == 32 {
        Tile::Dragon(Dragon::White)
    } else {
        Tile::Dragon(Dragon::Red)
    }
}

impl Tile {
    /// A suited tile has a rank from 1 to 9.
    pub open spec fn wf(self) -> bool {
        match self {
            Tile::Suit(_, r) => 1 <= r <= 9,
            _ => true,
        }
    }

    pub open spec fn is_honor_spec(self) -> bool {
        !(self is Suit)
    }

    /// The canonical kind number of a well-formed tile.
    pub fn kind(&self) -> (k: usize)
        requires
            self.wf(),
        ensures
            k == kind_of(*self),
            k < KINDS,
    {
        match *self {
            Tile::Suit(s, r) => {
                let base: usize = match s {
                    Suit::Pin => 0,
                    Suit::Man => 9,
                    Suit::Sou => 18,
                };
                base + (r as usize) - 1
            },
            Tile::Wind(w) => match w {
                Wind::North => 27,
                Wind::East => 28,
                Wind::South => 29,
                Wind::West => 30,
            },
            Tile::Dragon(d) => match d {
                Dragon::Green => 31,
                Dragon::White => 32,
                Dragon::Red => 33,
            },
        }
    }

    /// The tile of a canonical kind number.
    pub fn from_kind(k: usize) -> (t: Tile)
        requires
            k < KINDS,
        ensures
            t == tile_of_kind(k as int),
            t.wf(),
            kind_of(t) == k,
    {
        if k < 9 {
            Tile::Suit(Suit::Pin, (k + 1) as i8)
        } else if k < 18 {
            Tile::Suit(Suit::Man, (k - 8) as i8)
        } else if k < 27 {
            Tile::Suit(Suit::Sou, (k - 17) as i8)
        } else if k == 27 {
            Tile::Wind(Wind::North)
        } else if k == 28 {
            Tile::Wind(Wind::East)
        } else if k == 29 {
            Tile::Wind(Wind::South)
        } else if k == 30 {
            Tile::Wind(Wind::West)
        } else if k == 31 {
            Tile::Dragon(Dragon::Green)
        } else if k == 32 {
            Tile::Dragon(Dragon::White)
        } else {
            Tile::Dragon(Dragon::Red)
        }
    }

    /// Winds and dragons are honors; they never take part in a run.
    pub fn is_honor(&self) -> (r: bool)
        ensures
            r == self.is_honor_spec(),
    {
        match self {
            Tile::Suit(_, _) => false,
            _ => true,
        }
    }
}

/// Kind numbers identify well-formed tiles one to one.
pub proof fn lemma_kind_bijection(t: Tile, k: int)
    ensures
        t.wf() ==> 0 <= kind_of(t) < KINDS && tile_of_kind(kind_of(t)) == t,
        0 <= k < KINDS ==> tile_of_kind(k).wf() && kind_of(tile_of_kind(k)) == k,
{
}

/// The tile that follows `t`: the next rank of its suit (9 wraps to 1), the next wind, or
/// the next dragon.
pub open spec fn next_tile(t: Tile) -> Tile {
    match t {
        Tile::Suit(s, r) => Tile::Suit(s, ((r % 9) + 1) as i8),
        Tile::Wind(w) => Tile::Wind(next_wind(w)),
        Tile::Dragon(d) => Tile::Dragon(
            match d {
                Dragon::Green => Dragon::White,
                Dragon::White => Dragon::Red,
                Dragon::Red => Dragon::Green,
            },
        ),
    }
}

impl Tile {
    /// The tile that follows this one in its own cycle.
    pub fn next(&self) -> (t: Tile)
        requires
            self.wf(),
        ensures
            t == next_tile(*self),
            t.wf(),
    {
        match *self {
            Tile::Suit(s, r) => Tile::Suit(s, (r % 9) + 1),
            Tile::Wind(w) => Tile::Wind(w.next()),
            Tile::Dragon(d) => Tile::Dragon(
                match d {
                    Dragon::Green => Dragon::White,
                    Dragon::White => Dragon::Red,
                    Dragon::Red => Dragon::Green,
                },
            ),
        }
    }
}

impl Wind {
    /// The next wind in the cycle East, South, West, North, then East again.
    pub fn next(&self) -> (w: Wind)
        ensures
            w == next_wind(*self),
    {
        match self {
            Wind::East => Wind::South,
            Wind::South => Wind::West,
            Wind::West => Wind::North,
            Wind::North => Wind::East,
        }
    }
}

pub open spec fn next_wind(w: Wind) -> Wind {
    match w {
        Wind::East => Wind::South,
        Wind::South => Wind::West,
        Wind::West => Wind::North,
        Wind::North => Wind::East,
    }
}

} // verus!
