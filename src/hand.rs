//! The recursive completeness check: can a hand be tiled by melds and exactly one pair?
use vstd::prelude::*;
use vstd::multiset::Multiset;
use crate::tile::{Tile, KINDS, kind_of, tile_of_kind, lemma_kind_bijection};
use crate::meld::{Meld, Protorun, proto_first, meld_candidates, meld_fits, meld_ms, meld_wf, proto_ms, run_from};
use crate::calculation::{
    all_wf, counts_match, count_kinds, lemma_meld_candidates_wf, lemma_meld_subset,
    lemma_meld_tiles_ms, lemma_ms_wf, melds_flat, remove_meld, tiles_have_meld, ProvisionalHand,
    lemma_conservation, lemma_melds_flat_len, lemma_meld_pass_wf, lemma_first_pair_from,
    lemma_proto_tiles_ms, meld_pass, pair_tiles, protos_flat,
};

verus! {

broadcast use vstd::seq_lib::group_to_multiset_ensures;

/// A player's closed tiles, checked for completeness by recursive search.
#[derive(Debug)]
pub struct Hand {
    pub closed_tiles: Vec<Tile>,
}

pub open spec fn pair_ms(p: Tile) -> Multiset<Tile> {
    proto_ms(Protorun::Pair(p, p))
}

/// `m` is exactly the melds `ms` together with two copies of `p`.
pub open spec fn shape_of(m: Multiset<Tile>, ms: Seq<Meld>, p: Tile) -> bool {
    &&& forall|i: int| 0 <= i < ms.len() ==> meld_wf(#[trigger] ms[i])
    &&& p.wf()
    &&& melds_flat(ms).to_multiset().add(pair_ms(p)) == m
}

/// `m` splits into melds and exactly one pair.
pub open spec fn is_complete_shape(m: Multiset<Tile>) -> bool {
    exists|ms: Seq<Meld>, p: Tile| shape_of(m, ms, p)
}

/// Taking out the meld `x` does not leave a complete shape.
pub open spec fn split_fails(m: Multiset<Tile>, x: Meld) -> bool {
    meld_fits(m, x) ==> !is_complete_shape(m.sub(meld_ms(x)))
}

/// Every candidate meld of the kinds below `k` fails as a first split.
pub open spec fn no_split_below(m: Multiset<Tile>, k: int) -> bool {
    forall|k2: int, i: int|
        0 <= k2 < k && 0 <= i < meld_candidates(tile_of_kind(k2)).len() ==> split_fails(
            m,
            #[trigger] meld_candidates(tile_of_kind(k2))[i],
        )
}

/// A shape with a meld stays a shape once its first meld is taken out.
proof fn lemma_shape_rest(m: Multiset<Tile>, ms: Seq<Meld>, p: Tile)
    requires
        shape_of(m, ms, p),
        ms.len() > 0,
    ensures
        meld_fits(m, ms[0]),
        shape_of(m.sub(meld_ms(ms[0])), ms.drop_first(), p),
{
    let x = ms[0];
    let rest = ms.drop_first();
    assert(meld_wf(ms[0]));
    assert(melds_flat(ms) == crate::meld::meld_tiles(x) + melds_flat(rest));
    vstd::seq_lib::lemma_multiset_commutative(crate::meld::meld_tiles(x), melds_flat(rest));
    lemma_meld_tiles_ms(x);
    assert forall|i: int| 0 <= i < rest.len() implies meld_wf(#[trigger] rest[i]) by {
        assert(rest[i] == ms[i + 1]);
    }
    assert(m.sub(meld_ms(x)) =~= melds_flat(rest).to_multiset().add(pair_ms(p)));
}

/// Putting a fitting meld in front of a shape of what is left gives a shape.
proof fn lemma_shape_cons(m: Multiset<Tile>, x: Meld, ms: Seq<Meld>, p: Tile)
    requires
        meld_wf(x),
        meld_fits(m, x),
        shape_of(m.sub(meld_ms(x)), ms, p),
    ensures
        shape_of(m, seq![x] + ms, p),
{
    let all = seq![x] + ms;
    lemma_meld_subset(m, x);
    assert(all.drop_first() =~= ms);
    assert(melds_flat(all) == crate::meld::meld_tiles(x) + melds_flat(ms));
    vstd::seq_lib::lemma_multiset_commutative(crate::meld::meld_tiles(x), melds_flat(ms));
    lemma_meld_tiles_ms(x);
    assert forall|i: int| 0 <= i < all.len() implies meld_wf(#[trigger] all[i]) by {
        if i > 0 {
            assert(all[i] == ms[i - 1]);
        }
    }
    assert(melds_flat(all).to_multiset() == meld_ms(x).add(melds_flat(ms).to_multiset()));
    assert forall|t: Tile| melds_flat(all).to_multiset().add(pair_ms(p)).count(t) == m.count(t) by {
        assert(meld_ms(x).count(t) <= m.count(t));
        assert(melds_flat(ms).to_multiset().add(pair_ms(p)).count(t) == m.sub(meld_ms(x)).count(
            t,
        ));
    }
    assert(melds_flat(all).to_multiset().add(pair_ms(p)) =~= m);
}

/// Every meld is a candidate of the kind of its first tile.
proof fn lemma_meld_is_candidate(x: Meld) -> (i: int)
    requires
        meld_wf(x),
    ensures
        0 <= i < meld_candidates(tile_of_kind(kind_of(first_of(x)))).len(),
        meld_candidates(tile_of_kind(kind_of(first_of(x))))[i] == x,
        0 <= kind_of(first_of(x)) < KINDS,
{
    let t = first_of(x);
    lemma_kind_bijection(t, 0);
    match x {
        Meld::Pung(_) => 0,
        Meld::Chow(a, b, c) => {
            if let Tile::Suit(s, r) = a {
                let cands = meld_candidates(a);
                assert(cands == seq![Meld::Pung(a)] + run_from(s, r - 2) + run_from(s, r - 1)
                    + run_from(s, r as int));
                assert(run_from(s, r as int) == seq![x]);
                cands.len() - 1
            } else {
                0
            }
        },
    }
}

pub open spec fn first_of(x: Meld) -> Tile {
    match x {
        Meld::Pung(t) => t,
        Meld::Chow(a, _, _) => a,
    }
}

/// When no first split works, only a lone pair is a complete shape.
proof fn lemma_only_pair_left(m: Multiset<Tile>, ms: Seq<Meld>, p: Tile)
    requires
        no_split_below(m, KINDS as int),
        shape_of(m, ms, p),
    ensures
        ms.len() == 0,
        m.count(p) == 2,
        m.len() == 2,
{
    if ms.len() > 0 {
        lemma_shape_rest(m, ms, p);
        let x = ms[0];
        let i = lemma_meld_is_candidate(x);
        let k = kind_of(first_of(x));
        assert(split_fails(m, meld_candidates(tile_of_kind(k))[i]));
        assert(is_complete_shape(m.sub(meld_ms(x))));
    } else {
        assert(melds_flat(ms) =~= Seq::<Tile>::empty());
        assert(Seq::<Tile>::empty().to_multiset().len() == 0);
        assert(melds_flat(ms).to_multiset() =~= Multiset::empty());
        assert(m =~= pair_ms(p));
    }
}

/// Two copies of one tile and nothing else form a complete shape.
proof fn lemma_pair_alone(m: Multiset<Tile>, p: Tile)
    requires
        p.wf(),
        m.len() == 2,
        m.count(p) == 2,
    ensures
        shape_of(m, seq![], p),
{
    assert(pair_ms(p).subset_of(m));
    assert(m.sub(pair_ms(p)).len() == 0);
    assert forall|t: Tile| m.count(t) == pair_ms(p).count(t) by {
        assert(m.sub(pair_ms(p)).count(t) == 0);
    }
    assert(melds_flat(Seq::<Meld>::empty()) =~= Seq::<Tile>::empty());
    assert(Seq::<Tile>::empty().to_multiset().len() == 0);
    assert(Seq::<Tile>::empty().to_multiset() =~= Multiset::empty());
    assert(melds_flat(Seq::<Meld>::empty()).to_multiset().add(pair_ms(p)) =~= m);
}

/// A copy of the working copy.
fn copy_counts(counts: &Vec<usize>) -> (r: Vec<usize>)
    ensures
        r@ == counts@,
{
    let mut r: Vec<usize> = Vec::new();
    let mut i: usize = 0;
    while i < counts.len()
        invariant
            i <= counts.len(),
            r@ == counts@.subrange(0, i as int),
        decreases counts.len() - i,
    {
        r.push(counts[i]);
        i = i + 1;
        assert(r@ =~= counts@.subrange(0, i as int));
    }
    assert(r@ =~= counts@);
    r
}

/// Finds melds that, with one pair, use up the working copy exactly; `total` is its size.
fn split_chain(counts: &Vec<usize>, total: usize, Ghost(m): Ghost<Multiset<Tile>>) -> (r: Option<
    (Vec<Meld>, Tile),
>)
    requires
        counts_match(counts@, m),
        total == m.len(),
    ensures
        r is Some <==> is_complete_shape(m),
        r matches Some((ms, p)) ==> shape_of(m, ms@, p),
    decreases m.len(),
{
    let mut k: usize = 0;
    while k < KINDS
        invariant
            k <= KINDS,
            counts_match(counts@, m),
            total == m.len(),
            no_split_below(m, k as int),
        decreases KINDS - k,
    {
        let t = Tile::from_kind(k);
        let cands = t.possible_melds();
        proof {
            lemma_meld_candidates_wf(t);
        }
        let mut j: usize = 0;
        while j < cands.len()
            invariant
                j <= cands.len(),
                k < KINDS,
                    counts_match(counts@, m),
                total == m.len(),
                cands@ == meld_candidates(tile_of_kind(k as int)),
                forall|i: int| 0 <= i < cands@.len() ==> meld_wf(#[trigger] cands@[i]),
                no_split_below(m, k as int),
                forall|i: int| 0 <= i < j ==> split_fails(m, #[trigger] cands@[i]),
            decreases cands.len() - j,
        {
            let x = cands[j];
            if tiles_have_meld(counts, x, Ghost(m)) {
                proof {
                    lemma_meld_subset(m, x);
                }
                let mut rest_counts = copy_counts(counts);
                remove_meld(&mut rest_counts, x, Ghost(m));
                let sub = split_chain(&rest_counts, total - 3, Ghost(m.sub(meld_ms(x))));
                if let Some((mut rest, p)) = sub {
                    let mut chain: Vec<Meld> = Vec::new();
                    chain.push(x);
                    let ghost tail = rest@;
                    chain.append(&mut rest);
                    proof {
                        assert(chain@ =~= seq![x] + tail);
                        lemma_shape_cons(m, x, tail, p);
                        assert(shape_of(m, chain@, p));
                    }
                    return Some((chain, p));
                }
            }
            j = j + 1;
        }
        proof {
            assert forall|k2: int, i: int|
                0 <= k2 < k + 1 && 0 <= i < meld_candidates(tile_of_kind(k2)).len() implies split_fails(
                m,
                #[trigger] meld_candidates(tile_of_kind(k2))[i],
            ) by {
                if k2 == k {
                    assert(cands@[i] == meld_candidates(tile_of_kind(k2))[i]);
                }
            }
        }
        k = k + 1;
    }
    if total == 2 {
        let mut k: usize = 0;
        while k < KINDS
            invariant
                k <= KINDS,
                    counts_match(counts@, m),
                total == m.len(),
                total == 2,
                forall|k2: int| 0 <= k2 < k ==> m.count(#[trigger] tile_of_kind(k2)) != 2,
            decreases KINDS - k,
        {
            if counts[k] == 2 {
                let p = Tile::from_kind(k);
                proof {
                    lemma_kind_bijection(p, k as int);
                    lemma_pair_alone(m, p);
                }
                let none: Vec<Meld> = Vec::new();
                assert(none@ =~= Seq::<Meld>::empty());
                assert(shape_of(m, none@, p));
                return Some((none, p));
            }
            k = k + 1;
        }
        proof {
            assert forall|ms: Seq<Meld>, p: Tile| !shape_of(m, ms, p) by {
                if shape_of(m, ms, p) {
                    lemma_only_pair_left(m, ms, p);
                    lemma_kind_bijection(p, 0);
                    assert(m.count(tile_of_kind(kind_of(p))) != 2);
                }
            }
        }
        return None;
    }
    proof {
        assert forall|ms: Seq<Meld>, p: Tile| !shape_of(m, ms, p) by {
            if shape_of(m, ms, p) {
                lemma_only_pair_left(m, ms, p);
            }
        }
    }
    None
}

impl Hand {
    pub fn new() -> (h: Hand)
        ensures
            h.closed_tiles@.len() == 0,
    {
        Hand { closed_tiles: Vec::new() }
    }

    /// Whether the hand splits into melds and exactly one pair; if so, one such split: its
    /// melds and the tile of its pair. The search tries every meld the hand holds before
    /// giving up, so it misses no split.
    pub fn winning(&self) -> (r: Option<(Vec<Meld>, Tile)>)
        requires
            all_wf(self.closed_tiles@),
        ensures
            r is Some <==> is_complete_shape(self.closed_tiles@.to_multiset()),
            r matches Some((ms, p)) ==> shape_of(self.closed_tiles@.to_multiset(), ms@, p),
    {
        let counts = count_kinds(&self.closed_tiles);
        proof {
            lemma_ms_wf(self.closed_tiles@);
            assert(self.closed_tiles@.to_multiset().len() == self.closed_tiles@.len());
        }
        split_chain(&counts, self.closed_tiles.len(), Ghost(self.closed_tiles@.to_multiset()))
    }
}


/// Where the pass-based check finds a 14-tile hand complete (four melds and a pair), the
/// recursive check finds it complete too.
pub proof fn lemma_winning_decomposition_is_complete(tiles: Seq<Tile>, hand: ProvisionalHand)
    requires
        all_wf(tiles),
        tiles.len() == 14,
        hand.is_decomposition_of(tiles.to_multiset()),
        hand.melds@.len() == 4,
        hand.pair is Some,
    ensures
        is_complete_shape(tiles.to_multiset()),
{
    let m = tiles.to_multiset();
    lemma_conservation(tiles, hand);
    lemma_melds_flat_len(hand.melds@);
    lemma_meld_pass_wf(m);
    let m1 = meld_pass(m).1;
    lemma_first_pair_from(m1, 0);
    let t = proto_first(hand.pair->Some_0);
    assert(hand.pair == Some(Protorun::Pair(t, t)));
    lemma_proto_tiles_ms(Protorun::Pair(t, t));
    let a = melds_flat(hand.melds@).to_multiset();
    let b = pair_tiles(hand.pair).to_multiset();
    let c = protos_flat(hand.protoruns@).to_multiset();
    let d = hand.floating@.to_multiset();
    assert(a.len() == 12);
    assert(b.len() == 2);
    assert(m.len() == 14);
    assert(a.add(b).add(c).add(d) == m);
    assert(c.len() + d.len() == 0);
    assert forall|v: Tile| c.count(v) == 0 && d.count(v) == 0 by {}
    assert(a.add(pair_ms(t)) =~= m);
    assert(shape_of(m, hand.melds@, t));
}

} // verus!
