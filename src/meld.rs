//! Melds (complete groups of three) and protoruns (groups of two one tile short of a meld),
//! and the candidates of each that a single tile can take part in.
use vstd::prelude::*;
use vstd::multiset::Multiset;
use crate::tile::{Suit, Tile};

verus! {

/// A complete group: three identical tiles, or three consecutive ranks of one suit.
#[derive(Clone, Copy, PartialEq, Eq, Structural, Debug)]
pub enum Meld {
    Pung(Tile),
    Chow(Tile, Tile, Tile),
}

/// A two-tile group one tile away from a meld, its tiles in the order they were paired.
#[derive(Clone, Copy, PartialEq, Eq, Structural, Debug)]
pub enum Protorun {
    /// Consecutive ranks: completed by either neighbour.
    Side(Tile, Tile),
    /// Ranks two apart away from the ends: completed only by the middle tile.
    Closed(Tile, Tile),
    /// Ranks two apart with a rank 1 or 9 at one end.
    Edge(Tile, Tile),
    /// Two identical tiles.
    Pair(Tile, Tile),
}

pub open spec fn meld_tiles(x: Meld) -> Seq<Tile> {
    match x {
        Meld::Pung(t) => seq![t, t, t],
        Meld::Chow(a, b, c) => seq![a, b, c],
    }
}

pub open spec fn meld_ms(x: Meld) -> Multiset<Tile> {
    match x {
        Meld::Pung(t) => Multiset::empty().insert(t).insert(t).insert(t),
        Meld::Chow(a, b, c) => Multiset::empty().insert(a).insert(b).insert(c),
    }
}

pub open spec fn proto_first(p: Protorun) -> Tile {
    match p {
        Protorun::Side(a, _) => a,
        Protorun::Closed(a, _) => a,
        Protorun::Edge(a, _) => a,
        Protorun::Pair(a, _) => a,
    }
}

pub open spec fn proto_second(p: Protorun) -> Tile {
    match p {
        Protorun::Side(_, b) => b,
        Protorun::Closed(_, b) => b,
        Protorun::Edge(_, b) => b,
        Protorun::Pair(_, b) => b,
    }
}

pub open spec fn proto_tiles(p: Protorun) -> Seq<Tile> {
    seq![proto_first(p), proto_second(p)]
}

pub open spec fn proto_ms(p: Protorun) -> Multiset<Tile> {
    Multiset::empty().insert(proto_first(p)).insert(proto_second(p))
}

/// Discard preference: the lower, the sooner a protorun is broken up.
pub open spec fn proto_rank(p: Protorun) -> int {
    match p {
        Protorun::Edge(_, _) => 0,
        Protorun::Closed(_, _) => 1,
        Protorun::Pair(_, _) => 2,
        Protorun::Side(_, _) => 3,
    }
}

pub open spec fn rank_of(t: Tile) -> int {
    match t {
        Tile::Suit(_, r) => r as int,
        _ => 0,
    }
}

/// Three tiles of one suit with consecutive ranks `start`, `start + 1`, `start + 2`.
pub open spec fn is_run(a: Tile, b: Tile, c: Tile) -> bool {
    match (a, b, c) {
        (Tile::Suit(sa, ra), Tile::Suit(sb, rb), Tile::Suit(sc, rc)) => sa == sb && sb == sc && 1
            <= ra && rb == ra + 1 && rc == ra + 2 && rc <= 9,
        _ => false,
    }
}

pub open spec fn meld_wf(x: Meld) -> bool {
    match x {
        Meld::Pung(t) => t.wf(),
        Meld::Chow(a, b, c) => is_run(a, b, c),
    }
}

/// Whether the tiles of a meld are all present in `m`.
pub open spec fn meld_fits(m: Multiset<Tile>, x: Meld) -> bool {
    match x {
        Meld::Pung(t) => m.count(t) >= 3,
        Meld::Chow(a, b, c) => m.count(a) >= 1 && m.count(b) >= 1 && m.count(c) >= 1,
    }
}

/// Whether the tiles of a protorun are both present in `m`.
pub open spec fn proto_fits(m: Multiset<Tile>, p: Protorun) -> bool {
    if proto_first(p) == proto_second(p) {
        m.count(proto_first(p)) >= 2
    } else {
        m.count(proto_first(p)) >= 1 && m.count(proto_second(p)) >= 1
    }
}

/// The protorun that two tiles form, if any: decided by suit equality and rank distance alone.
pub open spec fn form_spec(a: Tile, b: Tile) -> Option<Protorun> {
    if a == b {
        Some(Protorun::Pair(a, b))
    } else {
        match a {
            Tile::Suit(sa, ra) => match b {
                Tile::Suit(sb, rb) => {
                    let d = if ra < rb { rb - ra } else { ra - rb };
                    if sa != sb {
                        None
                    } else if d == 1 {
                        Some(Protorun::Side(a, b))
                    } else if d == 2 {
                        if ra == 1 || rb == 1 || ra == 9 || rb == 9 {
                            Some(Protorun::Edge(a, b))
                        } else {
                            Some(Protorun::Closed(a, b))
                        }
                    } else {
                        None
                    }
                },
                _ => None,
            },
            _ => None,
        }
    }
}

pub open spec fn run_from(s: Suit, start: int) -> Seq<Meld> {
    if 1 <= start && start + 2 <= 9 {
        seq![
            Meld::Chow(
                Tile::Suit(s, start as i8),
                Tile::Suit(s, (start + 1) as i8),
                Tile::Suit(s, (start + 2) as i8),
            ),
        ]
    } else {
        seq![]
    }
}

/// The melds a tile can belong to: its triplet first, then each run holding it, lowest first.
pub open spec fn meld_candidates(t: Tile) -> Seq<Meld> {
    match t {
        Tile::Suit(s, r) => seq![Meld::Pung(t)] + run_from(s, r - 2) + run_from(s, r - 1)
            + run_from(s, r as int),
        _ => seq![Meld::Pung(t)],
    }
}

pub open spec fn partner(t: Tile, s: Suit, q: int) -> Seq<Protorun> {
    if 1 <= q <= 9 {
        match form_spec(t, Tile::Suit(s, q as i8)) {
            Some(p) => seq![p],
            None => seq![],
        }
    } else {
        seq![]
    }
}

/// The protoruns a tile can belong to, the tile itself first in each: with each rank within
/// two of its own in its suit, lowest partner first (its own rank giving the pair); an honor
/// only forms its pair.
pub open spec fn proto_candidates(t: Tile) -> Seq<Protorun> {
    match t {
        Tile::Suit(s, r) => partner(t, s, r - 2) + partner(t, s, r - 1) + partner(t, s, r as int)
            + partner(t, s, r + 1) + partner(t, s, r + 2),
        _ => seq![Protorun::Pair(t, t)],
    }
}

impl Protorun {
    pub fn is_pair(&self) -> (r: bool)
        ensures
            r == (*self is Pair),
    {
        matches!(self, Protorun::Pair(_, _))
    }

    pub fn is_side(&self) -> (r: bool)
        ensures
            r == (*self is Side),
    {
        matches!(self, Protorun::Side(_, _))
    }

    pub fn is_edge(&self) -> (r: bool)
        ensures
            r == (*self is Edge),
    {
        matches!(self, Protorun::Edge(_, _))
    }

    pub fn is_closed(&self) -> (r: bool)
        ensures
            r == (*self is Closed),
    {
        matches!(self, Protorun::Closed(_, _))
    }

    /// The first of its two tiles.
    pub fn first_tile(&self) -> (t: Tile)
        ensures
            t == proto_first(*self),
    {
        match *self {
            Protorun::Side(a, _) => a,
            Protorun::Closed(a, _) => a,
            Protorun::Edge(a, _) => a,
            Protorun::Pair(a, _) => a,
        }
    }

    /// Discard preference: Edge 0, Closed 1, Pair 2, Side 3.
    pub fn rank(&self) -> (r: u8)
        ensures
            r == proto_rank(*self),
    {
        match self {
            Protorun::Edge(_, _) => 0,
            Protorun::Closed(_, _) => 1,
            Protorun::Pair(_, _) => 2,
            Protorun::Side(_, _) => 3,
        }
    }
}

/// The protorun that two tiles form, if they form one.
pub fn form_protorun(a: Tile, b: Tile) -> (r: Option<Protorun>)
    ensures
        r == form_spec(a, b),
{
    if a == b {
        return Some(Protorun::Pair(a, b));
    }
    match (a, b) {
        (Tile::Suit(sa, ra), Tile::Suit(sb, rb)) => {
            if sa != sb {
                return None;
            }
            let d: i16 = if ra < rb {
                rb as i16 - ra as i16
            } else {
                ra as i16 - rb as i16
            };
            if d == 1 {
                Some(Protorun::Side(a, b))
            } else if d == 2 {
                if ra == 1 || rb == 1 || ra == 9 || rb == 9 {
                    Some(Protorun::Edge(a, b))
                } else {
                    Some(Protorun::Closed(a, b))
                }
            } else {
                None
            }
        },
        _ => None,
    }
}

fn push_run(melds: &mut Vec<Meld>, s: Suit, start: i8)
    requires
        -1 <= start <= 9,
    ensures
        final(melds)@ == old(melds)@ + run_from(s, start as int),
{
    if 1 <= start && start <= 7 {
        melds.push(Meld::Chow(Tile::Suit(s, start), Tile::Suit(s, start + 1), Tile::Suit(s, start + 2)));
    }
}

fn push_partner(protoruns: &mut Vec<Protorun>, t: Tile, s: Suit, q: i8)
    ensures
        final(protoruns)@ == old(protoruns)@ + partner(t, s, q as int),
{
    if 1 <= q && q <= 9 {
        match form_protorun(t, Tile::Suit(s, q)) {
            Some(p) => protoruns.push(p),
            None => {},
        }
    }
}

impl Tile {
    /// Every meld this tile could belong to, triplet first.
    pub fn possible_melds(&self) -> (r: Vec<Meld>)
        requires
            self.wf(),
        ensures
            r@ == meld_candidates(*self),
    {
        let mut melds: Vec<Meld> = Vec::new();
        melds.push(Meld::Pung(*self));
        if let Tile::Suit(s, r) = *self {
            push_run(&mut melds, s, r - 2);
            push_run(&mut melds, s, r - 1);
            push_run(&mut melds, s, r);
        }
        assert(melds@ =~= meld_candidates(*self));
        melds
    }

    /// Every protorun this tile could belong to, lowest partner rank first.
    pub fn possible_protoruns(&self) -> (r: Vec<Protorun>)
        requires
            self.wf(),
        ensures
            r@ == proto_candidates(*self),
    {
        let mut protoruns: Vec<Protorun> = Vec::new();
        match *self {
            Tile::Suit(s, r) => {
                push_partner(&mut protoruns, *self, s, r - 2);
                push_partner(&mut protoruns, *self, s, r - 1);
                push_partner(&mut protoruns, *self, s, r);
                push_partner(&mut protoruns, *self, s, r + 1);
                push_partner(&mut protoruns, *self, s, r + 2);
            },
            _ => {
                protoruns.push(Protorun::Pair(*self, *self));
            },
        }
        assert(protoruns@ =~= proto_candidates(*self));
        protoruns
    }
}


broadcast use vstd::seq_lib::group_to_multiset_ensures;

/// How many copies of `t` the list holds.
pub fn count_of(tiles: &Vec<Tile>, t: Tile) -> (n: usize)
    ensures
        n == tiles@.to_multiset().count(t),
{
    let mut n: usize = 0;
    let mut i: usize = 0;
    assert(tiles@.subrange(0, 0).to_multiset().len() == 0);
    while i < tiles.len()
        invariant
            i <= tiles.len(),
            n <= i,
            n == tiles@.subrange(0, i as int).to_multiset().count(t),
        decreases tiles.len() - i,
    {
        assert(tiles@.subrange(0, i + 1) =~= tiles@.subrange(0, i as int).push(tiles@[i as int]));
        if tiles[i] == t {
            n = n + 1;
        }
        i = i + 1;
    }
    assert(tiles@.subrange(0, tiles@.len() as int) =~= tiles@);
    n
}

impl Meld {
    /// Whether the list holds all tiles of this meld.
    pub fn included(&self, tiles: &Vec<Tile>) -> (r: bool)
        ensures
            r == meld_fits(tiles@.to_multiset(), *self),
    {
        match *self {
            Meld::Pung(t) => count_of(tiles, t) >= 3,
            Meld::Chow(a, b, c) => count_of(tiles, a) >= 1 && count_of(tiles, b) >= 1 && count_of(
                tiles,
                c,
            ) >= 1,
        }
    }
}

impl Protorun {
    /// Whether the list holds both tiles of this protorun (two copies for a pair).
    pub fn included(&self, tiles: &Vec<Tile>) -> (r: bool)
        ensures
            r == proto_fits(tiles@.to_multiset(), *self),
    {
        let a = self.first_tile();
        let b = match *self {
            Protorun::Side(_, b) => b,
            Protorun::Closed(_, b) => b,
            Protorun::Edge(_, b) => b,
            Protorun::Pair(_, b) => b,
        };
        if a == b {
            count_of(tiles, a) >= 2
        } else {
            count_of(tiles, a) >= 1 && count_of(tiles, b) >= 1
        }
    }
}

} // verus!
