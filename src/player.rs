//! A seat's closed hand and the decisions taken on it each turn.
use vstd::prelude::*;
use crate::tile::Tile;
use crate::calculation::{
    all_wf, lemma_discard_in_hand, spec_discard, spec_winning, ProvisionalHand,
};

verus! {

broadcast use vstd::seq_lib::group_to_multiset_ensures;

/// What a seat does with an opponent's discard.
pub enum DiscardState {
    Ron,
    /// Lets the discard go by.
    Pass,
}

/// What a seat does after drawing.
pub enum TurnState {
    Tsumo,
    Discard(Tile),
    /// Kept the drawn tile without discarding.
    Draw,
}

/// The tiles a seat holds concealed.
#[derive(Debug)]
pub struct ClosedHand {
    pub tiles: Vec<Tile>,
}

impl ClosedHand {
    pub fn add_tile(&mut self, tile: Tile)
        ensures
            final(self).tiles@ == old(self).tiles@.push(tile),
    {
        self.tiles.push(tile);
    }

    /// A hand over thirteen tiles must give one up.
    pub fn needs_discard(&self) -> (r: bool)
        ensures
            r == (self.tiles@.len() > 13),
    {
        self.tiles.len() > 13
    }

    /// Takes out the first copy of `tile`; fails, leaving the hand as it was, when the hand
    /// holds none.
    pub fn discard_tile(&mut self, tile: &Tile) -> (r: Option<Tile>)
        ensures
            r is Some <==> old(self).tiles@.contains(*tile),
            r is Some ==> r == Some(*tile) && exists|i: int|
                0 <= i < old(self).tiles@.len() && old(self).tiles@[i] == *tile && (forall|j: int|
                    0 <= j < i ==> old(self).tiles@[j] != *tile) && final(self).tiles@ == old(
                    self,
                ).tiles@.remove(i),
            r is None ==> final(self).tiles@ == old(self).tiles@,
    {
        let mut i: usize = 0;
        while i < self.tiles.len()
            invariant
                i <= self.tiles@.len(),
                self.tiles@ == old(self).tiles@,
                forall|j: int| 0 <= j < i ==> self.tiles@[j] != *tile,
            decreases self.tiles.len() - i,
        {
            if self.tiles[i] == *tile {
                let ghost before = self.tiles@;
                let t = self.tiles.remove(i);
                assert(before[i as int] == *tile);
                assert(before.contains(*tile));
                return Some(t);
            }
            i = i + 1;
        }
        assert(!self.tiles@.contains(*tile));
        None
    }
}

/// A seat that decomposes its hand to decide whether it has won and what to discard.
pub struct Player {
    pub hand: ClosedHand,
}

impl Player {
    pub fn new() -> (p: Player)
        ensures
            p.hand.tiles@.len() == 0,
    {
        Player { hand: ClosedHand { tiles: Vec::new() } }
    }

    /// Every tile held is a well-formed tile.
    pub open spec fn wf(&self) -> bool {
        all_wf(self.hand.tiles@)
    }

    /// Draws `tile`. A hand that then holds more than thirteen tiles wins if its decomposition
    /// is complete, and otherwise gives up the tile that the discard rule picks.
    pub fn turn(&mut self, tile: Tile) -> (r: TurnState)
        requires
            old(self).wf(),
            tile.wf(),
        ensures
            final(self).wf(),
            ({
                let full = old(self).hand.tiles@.push(tile);
                let after = final(self).hand.tiles@;
                if full.len() <= 13 {
                    r is Draw && after == full
                } else if spec_winning(full.to_multiset()) {
                    r is Tsumo && after == full
                } else {
                    spec_discard(full.to_multiset()) matches Some(d) && r == TurnState::Discard(d)
                        && after.to_multiset() == full.to_multiset().remove(d)
                }
            }),
            r is Discard ==> final(self).hand.tiles@.len() == old(self).hand.tiles@.len(),
            r is Draw ==> final(self).hand.tiles@.len() == old(self).hand.tiles@.len() + 1,
    {
        self.hand.add_tile(tile);
        let ghost full = self.hand.tiles@;
        assert(all_wf(full));
        if self.hand.needs_discard() {
            let provisional = ProvisionalHand::new(&self.hand.tiles);
            if provisional.winning() {
                return TurnState::Tsumo;
            }
            proof {
                lemma_discard_in_hand(full);
            }
            if let Some(d) = provisional.to_discard() {
                let removed = self.hand.discard_tile(&d);
                proof {
                    assert(full.contains(d));
                    let i = choose|i: int|
                        0 <= i < full.len() && full[i] == d && (forall|j: int|
                            0 <= j < i ==> full[j] != d) && self.hand.tiles@ == full.remove(i);
                    assert forall|j: int| 0 <= j < self.hand.tiles@.len() implies (
                    #[trigger] self.hand.tiles@[j]).wf() by {
                        if j < i {
                            assert(self.hand.tiles@[j] == full[j]);
                        } else {
                            assert(self.hand.tiles@[j] == full[j + 1]);
                        }
                    }
                }
                return TurnState::Discard(d);
            }
        }
        TurnState::Draw
    }

    /// Offered an opponent's discard, takes it and declares a win when the hand with it is
    /// complete; otherwise leaves the hand as it was.
    pub fn offer_discard(&mut self, tile: Tile) -> (r: DiscardState)
        requires
            old(self).wf(),
            tile.wf(),
        ensures
            final(self).wf(),
            spec_winning(old(self).hand.tiles@.push(tile).to_multiset()) ==> r is Ron
                && final(self).hand.tiles@ == old(self).hand.tiles@.push(tile),
            !spec_winning(old(self).hand.tiles@.push(tile).to_multiset()) ==> r is Pass
                && final(self).hand.tiles@ == old(self).hand.tiles@,
    {
        let mut prospective = ClosedHand { tiles: copy_tiles(&self.hand.tiles) };
        prospective.add_tile(tile);
        let provisional = ProvisionalHand::new(&prospective.tiles);
        if provisional.winning() {
            self.hand.add_tile(tile);
            return DiscardState::Ron;
        }
        DiscardState::Pass
    }
}

/// A copy of a sequence of tiles.
fn copy_tiles(tiles: &Vec<Tile>) -> (r: Vec<Tile>)
    ensures
        r@ == tiles@,
{
    let mut r: Vec<Tile> = Vec::new();
    let mut i: usize = 0;
    while i < tiles.len()
        invariant
            i <= tiles.len(),
            r@ == tiles@.subrange(0, i as int),
        decreases tiles.len() - i,
    {
        r.push(tiles[i]);
        i = i + 1;
        assert(r@ =~= tiles@.subrange(0, i as int));
    }
    assert(r@ =~= tiles@);
    r
}

} // verus!
