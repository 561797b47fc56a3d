//! The wall, the seats, and one turn of play: draw, decide, offer the discard around.
use vstd::prelude::*;
use rand::seq::SliceRandom;
use crate::tile::{Tile, Wind, KINDS, kind_of, wind_index, lemma_kind_bijection};
use crate::calculation::{all_wf, lemma_discard_in_hand, spec_discard, spec_winning};
use crate::player::{DiscardState, Player, TurnState};

verus! {

broadcast use vstd::seq_lib::group_to_multiset_ensures;

/// Relies on rand's `SliceRandom::shuffle` driven by `thread_rng()`: it only swaps elements
/// of the slice, so the same tiles come back in some order.
#[verifier::external_body]
fn shuffle_tiles(tiles: &mut Vec<Tile>)
    ensures
        final(tiles)@.to_multiset() == old(tiles)@.to_multiset(),
{
    tiles.shuffle(&mut rand::thread_rng());
}

/// The wall to draw from and the discards made so far.
pub struct TilePile {
    pub discards: Vec<Tile>,
    pub tiles: Vec<Tile>,
}

impl TilePile {
    /// Takes the tile at the end of the wall; `None` once the wall is exhausted.
    pub fn draw(&mut self) -> (r: Option<Tile>)
        ensures
            old(self).tiles@.len() == 0 ==> r is None && final(self).tiles@ == old(self).tiles@,
            old(self).tiles@.len() > 0 ==> r == Some(old(self).tiles@.last())
                && final(self).tiles@ == old(self).tiles@.drop_last(),
            final(self).discards@ == old(self).discards@,
    {
        self.tiles.pop()
    }

    pub fn discard(&mut self, tile: Tile)
        ensures
            final(self).discards@ == old(self).discards@.push(tile),
            final(self).tiles@ == old(self).tiles@,
    {
        self.discards.push(tile);
    }

    pub fn has_tiles(&self) -> (r: bool)
        ensures
            r == (self.tiles@.len() > 0),
    {
        !self.tiles.is_empty()
    }
}

/// A seat at the table: its player, its wind, and the tiles it has discarded.
pub struct PlayerState {
    pub player: Player,
    pub wind: Wind,
    pub discards: Vec<Tile>,
}

impl PlayerState {
    pub fn new(wind: Wind) -> (s: PlayerState)
        ensures
            s.wind == wind,
            s.player.hand.tiles@.len() == 0,
            s.discards@.len() == 0,
    {
        PlayerState { player: Player::new(), wind, discards: Vec::new() }
    }

    pub fn wind(&self) -> (w: Wind)
        ensures
            w == self.wind,
    {
        self.wind
    }
}

/// How a turn ended: play goes on, or a seat has won.
pub enum GameTurnState {
    Continue,
    Win(Wind),
}

/// The seat that plays after `w`: East, North, West, South, then East again.
pub open spec fn next_round(w: Wind) -> Wind {
    match w {
        Wind::East => Wind::North,
        Wind::North => Wind::West,
        Wind::West => Wind::South,
        Wind::South => Wind::East,
    }
}

/// The seat of wind number `i`: North, East, South, West.
pub open spec fn seat_wind(i: int) -> Wind {
    if i == 0 {
        Wind::North
    } else if i == 1 {
        Wind::East
    } else if i == 2 {
        Wind::South
    } else {
        Wind::West
    }
}

/// A full set: four copies of each of the 34 kinds.
pub open spec fn is_full_set(tiles: Seq<Tile>) -> bool {
    forall|t: Tile| #[trigger] tiles.to_multiset().count(t) == if t.wf() { 4nat } else { 0nat }
}

pub struct Game {
    pub tile_pile: TilePile,
    pub players: Vec<PlayerState>,
    pub current_round: Wind,
}

fn seat_of(w: Wind) -> (i: usize)
    ensures
        i == wind_index(w),
        i < 4,
        seat_wind(i as int) == w,
{
    match w {
        Wind::North => 0,
        Wind::East => 1,
        Wind::South => 2,
        Wind::West => 3,
    }
}

/// A full set of tiles in canonical order.
fn full_set() -> (tiles: Vec<Tile>)
    ensures
        is_full_set(tiles@),
        all_wf(tiles@),
{
    let mut tiles: Vec<Tile> = Vec::new();
    let mut copy: usize = 0;
    proof {
        assert(tiles@.to_multiset().len() == 0);
    }
    while copy < 4
        invariant
            copy <= 4,
            all_wf(tiles@),
            forall|t: Tile| #[trigger]
                tiles@.to_multiset().count(t) == if t.wf() { copy as nat } else { 0nat },
        decreases 4 - copy,
    {
        let mut k: usize = 0;
        while k < KINDS
            invariant
                k <= KINDS,
                copy < 4,
                all_wf(tiles@),
                forall|t: Tile| #[trigger]
                    tiles@.to_multiset().count(t) == if t.wf() {
                        (copy + if kind_of(t) < k { 1nat } else { 0nat }) as nat
                    } else {
                        0nat
                    },
            decreases KINDS - k,
        {
            let t = Tile::from_kind(k);
            let ghost before = tiles@;
            tiles.push(t);
            proof {
                assert(tiles@ == before.push(t));
                assert forall|u: Tile| #[trigger]
                    tiles@.to_multiset().count(u) == if u.wf() {
                        (copy + if kind_of(u) < k + 1 { 1nat } else { 0nat }) as nat
                    } else {
                        0nat
                    } by {
                    lemma_kind_bijection(u, k as int);
                    assert(before.to_multiset().count(u) == if u.wf() {
                        (copy + if kind_of(u) < k { 1nat } else { 0nat }) as nat
                    } else {
                        0nat
                    });
                }
                assert forall|i: int| 0 <= i < tiles@.len() implies (#[trigger] tiles@[i]).wf() by {
                    if i < before.len() {
                        assert(tiles@[i] == before[i]);
                    }
                }
            }
            k = k + 1;
        }
        proof {
            assert forall|t: Tile| #[trigger]
                tiles@.to_multiset().count(t) == if t.wf() { (copy + 1) as nat } else { 0nat } by {
                lemma_kind_bijection(t, 0);
            }
        }
        copy = copy + 1;
    }
    tiles
}

impl Game {
    /// Seats are North, East, South, West in that order, every tile held or in the wall is
    /// well-formed.
    pub open spec fn wf(&self) -> bool {
        &&& self.players@.len() == 4
        &&& forall|i: int| 0 <= i < 4 ==> (#[trigger] self.players@[i]).wind == seat_wind(i)
        &&& forall|i: int| 0 <= i < 4 ==> (#[trigger] self.players@[i]).player.wf()
        &&& all_wf(self.tile_pile.tiles@)
    }

    /// A fresh game: a shuffled full wall, four empty seats, East to play.
    pub fn new() -> (g: Game)
        ensures
            g.wf(),
            is_full_set(g.tile_pile.tiles@),
            g.tile_pile.discards@.len() == 0,
            g.current_round == Wind::East,
            forall|i: int| 0 <= i < 4 ==> (#[trigger] g.players@[i]).player.hand.tiles@.len() == 0,
            forall|i: int| 0 <= i < 4 ==> (#[trigger] g.players@[i]).discards@.len() == 0,
    {
        let mut tiles = full_set();
        let ghost ordered = tiles@;
        shuffle_tiles(&mut tiles);
        proof {
            assert forall|i: int| 0 <= i < tiles@.len() implies (#[trigger] tiles@[i]).wf() by {
                assert(tiles@.to_multiset().count(tiles@[i]) > 0);
                assert(ordered.to_multiset().count(tiles@[i]) > 0);
            }
        }
        let mut players: Vec<PlayerState> = Vec::new();
        players.push(PlayerState::new(Wind::North));
        players.push(PlayerState::new(Wind::East));
        players.push(PlayerState::new(Wind::South));
        players.push(PlayerState::new(Wind::West));
        let g = Game {
            tile_pile: TilePile { discards: Vec::new(), tiles },
            players,
            current_round: Wind::East,
        };
        proof {
            assert forall|i: int| 0 <= i < 4 implies (#[trigger] g.players@[i]).player.wf() by {
                assert(g.players@[i].player.hand.tiles@.len() == 0);
            }
        }
        g
    }

    fn progress_round(&mut self)
        ensures
            final(self).current_round == next_round(old(self).current_round),
            final(self).players == old(self).players,
            final(self).tile_pile == old(self).tile_pile,
    {
        self.current_round = match self.current_round {
            Wind::East => Wind::North,
            Wind::North => Wind::West,
            Wind::West => Wind::South,
            Wind::South => Wind::East,
        };
    }

    /// Offers a discard to every other seat in seat order; the first whose hand it completes
    /// takes it and wins. Otherwise it joins the discarding seat's discards.
    fn handle_discard(&mut self, tile: Tile) -> (r: GameTurnState)
        requires
            old(self).wf(),
            tile.wf(),
        ensures
            final(self).wf(),
            final(self).current_round == old(self).current_round,
            final(self).tile_pile == old(self).tile_pile,
            r is Win ==> r->Win_0 != old(self).current_round && spec_winning(
                final(self).players@[wind_index(r->Win_0)].player.hand.tiles@.to_multiset(),
            ),
            r is Continue ==> forall|i: int|
                0 <= i < 4 && seat_wind(i) != old(self).current_round ==> !spec_winning(
                    (#[trigger] old(self).players@[i]).player.hand.tiles@.push(tile).to_multiset(),
                ),
            r is Continue ==> final(self).players@[wind_index(old(self).current_round)].discards@
                == old(self).players@[wind_index(old(self).current_round)].discards@.push(tile),
            r is Win ==> final(self).players@[wind_index(r->Win_0)].player.hand.tiles@ == old(
                self,
            ).players@[wind_index(r->Win_0)].player.hand.tiles@.push(tile),
            forall|j: int|
                0 <= j < 4 && !(r is Win && j == wind_index(r->Win_0)) ==> (#[trigger] final(self).players@[j]).player.hand.tiles@ == old(self).players@[j].player.hand.tiles@,
    {
        let cur = seat_of(self.current_round);
        let mut i: usize = 0;
        while i < 4
            invariant
                i <= 4,
                self.wf(),
                cur == wind_index(old(self).current_round),
                self.current_round == old(self).current_round,
                self.tile_pile == old(self).tile_pile,
                tile.wf(),
                forall|j: int|
                    0 <= j < 4 ==> (#[trigger] self.players@[j]).player.hand.tiles@ == old(
                        self,
                    ).players@[j].player.hand.tiles@,
                forall|j: int|
                    0 <= j < 4 ==> (#[trigger] self.players@[j]).discards@ == old(
                        self,
                    ).players@[j].discards@,
                forall|j: int|
                    0 <= j < i && j != cur ==> !spec_winning(
                        (#[trigger] old(self).players@[j]).player.hand.tiles@.push(
                            tile,
                        ).to_multiset(),
                    ),
            decreases 4 - i,
        {
            if i != cur {
                let ghost before = self.players@;
                let mut seat = self.players.remove(i);
                let w = seat.wind;
                let res = seat.player.offer_discard(tile);
                self.players.insert(i, seat);
                proof {
                    assert(self.players@ =~= before.update(i as int, self.players@[i as int]));
                    assert(seat_wind(i as int) == w);
                }
                if let DiscardState::Ron = res {
                    return GameTurnState::Win(w);
                }
            }
            i = i + 1;
        }
        let ghost before = self.players@;
        let mut seat = self.players.remove(cur);
        seat.discards.push(tile);
        self.players.insert(cur, seat);
        proof {
            assert(self.players@ =~= before.update(cur as int, self.players@[cur as int]));
        }
        GameTurnState::Continue
    }

    /// One turn: the seat to play draws; it wins by self-draw, or discards and the discard is
    /// offered around; then, unless someone won, play passes to the next seat. An exhausted
    /// wall only passes play on.
    pub fn turn(&mut self) -> (r: GameTurnState)
        requires
            old(self).wf(),
        ensures
            final(self).wf(),
            old(self).tile_pile.tiles@.len() == 0 ==> r is Continue && final(self).tile_pile.tiles@
                == old(self).tile_pile.tiles@,
            old(self).tile_pile.tiles@.len() > 0 ==> final(self).tile_pile.tiles@ == old(
                self,
            ).tile_pile.tiles@.drop_last(),
            r is Continue ==> final(self).current_round == next_round(old(self).current_round),
            r is Win ==> final(self).current_round == old(self).current_round && spec_winning(
                final(self).players@[wind_index(r->Win_0)].player.hand.tiles@.to_multiset(),
            ),
            ({
                let hand = old(self).players@[wind_index(
                    old(self).current_round,
                )].player.hand.tiles@;
                let full = hand.push(old(self).tile_pile.tiles@.last());
                old(self).tile_pile.tiles@.len() > 0 && full.len() > 13 && spec_winning(
                    full.to_multiset(),
                ) ==> r == GameTurnState::Win(old(self).current_round)
            }),
            ({
                let cur = wind_index(old(self).current_round);
                let hand = old(self).players@[cur].player.hand.tiles@;
                let full = hand.push(old(self).tile_pile.tiles@.last());
                old(self).tile_pile.tiles@.len() > 0 && full.len() > 13 && r is Continue ==> (
                spec_discard(full.to_multiset()) matches Some(d) && final(self).players@[cur].discards@
                    == old(self).players@[cur].discards@.push(d) && forall|i: int|
                    0 <= i < 4 && i != cur ==> !spec_winning(
                        (#[trigger] old(self).players@[i]).player.hand.tiles@.push(d).to_multiset(),
                    ))
            }),
            // The hand of the seat that played.
            ({
                let cur = wind_index(old(self).current_round);
                let full = old(self).players@[cur].player.hand.tiles@.push(
                    old(self).tile_pile.tiles@.last(),
                );
                let after = final(self).players@[cur].player.hand.tiles@;
                old(self).tile_pile.tiles@.len() > 0 ==> if full.len() <= 13 || spec_winning(
                    full.to_multiset(),
                ) {
                    after == full
                } else {
                    spec_discard(full.to_multiset()) matches Some(d) && after.to_multiset()
                        == full.to_multiset().remove(d)
                }
            }),
            // The other seats: unchanged, but for a seat that won on the discard, which took it.
            ({
                let cur = wind_index(old(self).current_round);
                let full = old(self).players@[cur].player.hand.tiles@.push(
                    old(self).tile_pile.tiles@.last(),
                );
                &&& forall|j: int|
                    0 <= j < 4 && j != cur && !(r is Win && j == wind_index(r->Win_0)) ==> (
                    #[trigger] final(self).players@[j]).player.hand.tiles@ == old(
                        self,
                    ).players@[j].player.hand.tiles@
                &&& old(self).tile_pile.tiles@.len() == 0 ==> forall|j: int|
                    0 <= j < 4 ==> (#[trigger] final(self).players@[j]).player.hand.tiles@ == old(
                        self,
                    ).players@[j].player.hand.tiles@
                &&& r is Win && r->Win_0 != old(self).current_round ==> (spec_discard(
                    full.to_multiset(),
                ) matches Some(d) && final(self).players@[wind_index(
                    r->Win_0,
                )].player.hand.tiles@ == old(self).players@[wind_index(
                    r->Win_0,
                )].player.hand.tiles@.push(d))
            }),
    {
        let cur = seat_of(self.current_round);
        let ghost pile = self.tile_pile.tiles@;
        if let Some(tile) = self.tile_pile.draw() {
            proof {
                assert(tile == pile[pile.len() - 1]);
            }
            let ghost before = self.players@;
            let ghost hand = before[cur as int].player.hand.tiles@;
            let mut seat = self.players.remove(cur);
            let res = seat.player.turn(tile);
            self.players.insert(cur, seat);
            proof {
                assert(self.players@ =~= before.update(cur as int, self.players@[cur as int]));
                assert(all_wf(self.tile_pile.tiles@)) by {
                    assert forall|i: int| 0 <= i < self.tile_pile.tiles@.len() implies (
                    #[trigger] self.tile_pile.tiles@[i]).wf() by {
                        assert(self.tile_pile.tiles@[i] == pile[i]);
                    }
                }
            }
            match res {
                TurnState::Tsumo => {
                    return GameTurnState::Win(self.current_round);
                },
                TurnState::Discard(d) => {
                    proof {
                        let full = hand.push(tile);
                        assert(all_wf(full)) by {
                            assert forall|i: int| 0 <= i < full.len() implies (
                            #[trigger] full[i]).wf() by {
                                if i < hand.len() {
                                    assert(full[i] == hand[i]);
                                }
                            }
                        }
                        lemma_discard_in_hand(full);
                        assert(full.contains(d));
                    }
                    let ghost mid = self.players@;
                    if let GameTurnState::Win(w) = self.handle_discard(d) {
                        return GameTurnState::Win(w);
                    }
                    proof {
                        assert forall|i: int| 0 <= i < 4 && i != cur implies mid[i] == before[i] by {}
                        assert forall|i: int| 0 <= i < 4 && seat_wind(i) != self.current_round
                            implies i != cur by {}
                    }
                },
                TurnState::Draw => {},
            }
        }
        self.progress_round();
        GameTurnState::Continue
    }
}

} // verus!
