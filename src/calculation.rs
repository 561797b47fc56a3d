//! The decomposition engine: strips melds, one pair and protoruns out of a multiset of tiles.
//!
//! The working copy is a count per tile kind, scanned in canonical kind order, so the result
//! depends on the multiset of tiles alone and not on the order in which they were held.
use vstd::prelude::*;
use vstd::multiset::Multiset;
use vstd::seq_lib::lemma_multiset_commutative;
use crate::tile::{Tile, KINDS, kind_of, tile_of_kind, lemma_kind_bijection};
use crate::meld::{
    Meld, Protorun, meld_candidates, meld_fits, meld_ms, meld_tiles, meld_wf, partner,
    form_spec, proto_candidates, proto_first, proto_fits, proto_ms, proto_rank, proto_second, proto_tiles,
    run_from,
};

verus! {

broadcast use vstd::seq_lib::group_to_multiset_ensures;

pub open spec fn all_wf(s: Seq<Tile>) -> bool {
    forall|i: int| 0 <= i < s.len() ==> (#[trigger] s[i]).wf()
}

/// Only well-formed tiles occur in `m`.
pub open spec fn ms_wf(m: Multiset<Tile>) -> bool {
    forall|t: Tile| m.count(t) > 0 ==> (#[trigger] t.wf())
}

// ---------------------------------------------------------------------------------------------
// The three passes, stated over multisets.
// ---------------------------------------------------------------------------------------------

/// The first meld among `cands[j..]` whose tiles are all in `m`.
pub open spec fn first_meld_at(m: Multiset<Tile>, cands: Seq<Meld>, j: int) -> Option<Meld>
    decreases cands.len() - j,
{
    if j < 0 || j >= cands.len() {
        None
    } else if meld_fits(m, cands[j]) {
        Some(cands[j])
    } else {
        first_meld_at(m, cands, j + 1)
    }
}

/// The first meld, scanning tile kinds from `k` on in canonical order and each kind's
/// candidates in order, whose tiles are all in `m`.
pub open spec fn first_meld_from(m: Multiset<Tile>, k: int) -> Option<Meld>
    decreases KINDS - k,
{
    if k < 0 || k >= KINDS {
        None
    } else {
        match first_meld_at(m, meld_candidates(tile_of_kind(k)), 0) {
            Some(x) => Some(x),
            None => first_meld_from(m, k + 1),
        }
    }
}

/// Greedy meld pass: commit the first meld found, then start over on what is left.
/// Yields the melds in the order found and the tiles left over.
pub open spec fn meld_pass(m: Multiset<Tile>) -> (Seq<Meld>, Multiset<Tile>)
    decreases m.len(),
{
    match first_meld_from(m, 0) {
        Some(x) => {
            proof {
                lemma_first_meld_from(m, 0);
                lemma_meld_subset(m, x);
            }
            let rest = meld_pass(m.sub(meld_ms(x)));
            (seq![x] + rest.0, rest.1)
        },
        None => (seq![], m),
    }
}

/// The first tile kind from `k` on with at least two copies in `m`.
pub open spec fn first_pair_from(m: Multiset<Tile>, k: int) -> Option<Tile>
    decreases KINDS - k,
{
    if k < 0 || k >= KINDS {
        None
    } else if m.count(tile_of_kind(k)) >= 2 {
        Some(tile_of_kind(k))
    } else {
        first_pair_from(m, k + 1)
    }
}

/// Pair pass: at most one pair, the first kind with two copies.
pub open spec fn pair_pass(m: Multiset<Tile>) -> (Option<Protorun>, Multiset<Tile>) {
    match first_pair_from(m, 0) {
        Some(t) => (Some(Protorun::Pair(t, t)), m.sub(proto_ms(Protorun::Pair(t, t)))),
        None => (None, m),
    }
}

pub open spec fn first_proto_at(m: Multiset<Tile>, cands: Seq<Protorun>, j: int) -> Option<
    Protorun,
>
    decreases cands.len() - j,
{
    if j < 0 || j >= cands.len() {
        None
    } else if proto_fits(m, cands[j]) {
        Some(cands[j])
    } else {
        first_proto_at(m, cands, j + 1)
    }
}

pub open spec fn first_proto_from(m: Multiset<Tile>, k: int) -> Option<Protorun>
    decreases KINDS - k,
{
    if k < 0 || k >= KINDS {
        None
    } else {
        match first_proto_at(m, proto_candidates(tile_of_kind(k)), 0) {
            Some(p) => Some(p),
            None => first_proto_from(m, k + 1),
        }
    }
}

/// Greedy protorun pass, in the same manner as the meld pass.
pub open spec fn proto_pass(m: Multiset<Tile>) -> (Seq<Protorun>, Multiset<Tile>)
    decreases m.len(),
{
    match first_proto_from(m, 0) {
        Some(p) => {
            proof {
                lemma_first_proto_from(m, 0);
                lemma_proto_subset(m, p);
            }
            let rest = proto_pass(m.sub(proto_ms(p)));
            (seq![p] + rest.0, rest.1)
        },
        None => (seq![], m),
    }
}

pub open spec fn copies(t: Tile, n: nat) -> Seq<Tile> {
    Seq::new(n, |i: int| t)
}

/// The tiles of the first `k` kinds in `m`, in canonical order.
pub open spec fn listing(m: Multiset<Tile>, k: int) -> Seq<Tile>
    decreases k,
{
    if k <= 0 {
        seq![]
    } else {
        listing(m, k - 1) + copies(tile_of_kind(k - 1), m.count(tile_of_kind(k - 1)))
    }
}

pub open spec fn spec_melds(m: Multiset<Tile>) -> Seq<Meld> {
    meld_pass(m).0
}

pub open spec fn spec_pair(m: Multiset<Tile>) -> Option<Protorun> {
    pair_pass(meld_pass(m).1).0
}

pub open spec fn spec_protoruns(m: Multiset<Tile>) -> Seq<Protorun> {
    proto_pass(pair_pass(meld_pass(m).1).1).0
}

/// The tiles in no meld, pair or protorun, in canonical order.
pub open spec fn spec_floating(m: Multiset<Tile>) -> Seq<Tile> {
    listing(proto_pass(pair_pass(meld_pass(m).1).1).1, KINDS as int)
}

// ---------------------------------------------------------------------------------------------
// Facts about candidates and fitting.
// ---------------------------------------------------------------------------------------------

pub open spec fn proto_wf(p: Protorun) -> bool {
    &&& proto_first(p).wf()
    &&& proto_second(p).wf()
    &&& (p is Pair <==> proto_first(p) == proto_second(p))
    &&& form_spec(proto_first(p), proto_second(p)) == Some(p)
}

pub(crate) proof fn lemma_meld_candidates_wf(t: Tile)
    requires
        t.wf(),
    ensures
        forall|i: int|
            0 <= i < meld_candidates(t).len() ==> meld_wf(#[trigger] meld_candidates(t)[i]),
{
    if let Tile::Suit(s, r) = t {
        let c = meld_candidates(t);
        assert forall|i: int| 0 <= i < c.len() implies meld_wf(#[trigger] c[i]) by {
            let a = run_from(s, r - 2);
            let b = run_from(s, r - 1);
            let d = run_from(s, r as int);
            assert(c == seq![Meld::Pung(t)] + a + b + d);
        }
    }
}

proof fn lemma_proto_candidates_wf(t: Tile)
    requires
        t.wf(),
    ensures
        forall|i: int|
            0 <= i < proto_candidates(t).len() ==> proto_wf(#[trigger] proto_candidates(t)[i]),
{
    if let Tile::Suit(s, r) = t {
        let c = proto_candidates(t);
        assert forall|i: int| 0 <= i < c.len() implies proto_wf(#[trigger] c[i]) by {
            let a = partner(t, s, r - 2);
            let b = partner(t, s, r - 1);
            let d = partner(t, s, r as int);
            let e = partner(t, s, r + 1);
            let f = partner(t, s, r + 2);
            assert(c == a + b + d + e + f);
        }
    }
}

proof fn lemma_first_meld_at(m: Multiset<Tile>, cands: Seq<Meld>, j: int)
    requires
        forall|i: int| 0 <= i < cands.len() ==> meld_wf(#[trigger] cands[i]),
    ensures
        first_meld_at(m, cands, j) matches Some(x) ==> meld_wf(x) && meld_fits(m, x),
    decreases cands.len() - j,
{
    if 0 <= j < cands.len() && !meld_fits(m, cands[j]) {
        lemma_first_meld_at(m, cands, j + 1);
    }
}

pub proof fn lemma_first_meld_from(m: Multiset<Tile>, k: int)
    ensures
        first_meld_from(m, k) matches Some(x) ==> meld_wf(x) && meld_fits(m, x),
    decreases KINDS - k,
{
    if 0 <= k < KINDS {
        lemma_kind_bijection(tile_of_kind(k), k);
        lemma_meld_candidates_wf(tile_of_kind(k));
        lemma_first_meld_at(m, meld_candidates(tile_of_kind(k)), 0);
        lemma_first_meld_from(m, k + 1);
    }
}

proof fn lemma_first_proto_at(m: Multiset<Tile>, cands: Seq<Protorun>, j: int)
    requires
        forall|i: int| 0 <= i < cands.len() ==> proto_wf(#[trigger] cands[i]),
    ensures
        first_proto_at(m, cands, j) matches Some(p) ==> proto_wf(p) && proto_fits(m, p),
    decreases cands.len() - j,
{
    if 0 <= j < cands.len() && !proto_fits(m, cands[j]) {
        lemma_first_proto_at(m, cands, j + 1);
    }
}

pub proof fn lemma_first_proto_from(m: Multiset<Tile>, k: int)
    ensures
        first_proto_from(m, k) matches Some(p) ==> proto_wf(p) && proto_fits(m, p),
    decreases KINDS - k,
{
    if 0 <= k < KINDS {
        lemma_kind_bijection(tile_of_kind(k), k);
        lemma_proto_candidates_wf(tile_of_kind(k));
        lemma_first_proto_at(m, proto_candidates(tile_of_kind(k)), 0);
        lemma_first_proto_from(m, k + 1);
    }
}

pub proof fn lemma_first_pair_from(m: Multiset<Tile>, k: int)
    ensures
        first_pair_from(m, k) matches Some(t) ==> t.wf() && m.count(t) >= 2,
    decreases KINDS - k,
{
    if 0 <= k < KINDS {
        lemma_kind_bijection(tile_of_kind(k), k);
        lemma_first_pair_from(m, k + 1);
    }
}

/// A fitting meld is a sub-multiset of three tiles.
pub proof fn lemma_meld_subset(m: Multiset<Tile>, x: Meld)
    requires
        meld_wf(x),
        meld_fits(m, x),
    ensures
        meld_ms(x).subset_of(m),
        meld_ms(x).len() == 3,
        m.sub(meld_ms(x)).len() == m.len() - 3,
{
    match x {
        Meld::Pung(t) => {},
        Meld::Chow(a, b, c) => {
            assert(a != b && b != c && a != c);
        },
    }
}

/// A fitting protorun is a sub-multiset of two tiles.
pub proof fn lemma_proto_subset(m: Multiset<Tile>, p: Protorun)
    requires
        proto_wf(p),
        proto_fits(m, p),
    ensures
        proto_ms(p).subset_of(m),
        proto_ms(p).len() == 2,
        m.sub(proto_ms(p)).len() == m.len() - 2,
{
}


// ---------------------------------------------------------------------------------------------
// The working copy: a count per tile kind.
// ---------------------------------------------------------------------------------------------

/// `c` holds, for each kind, how many tiles of that kind `m` has, and `m` has no other tiles.
pub open spec fn counts_match(c: Seq<usize>, m: Multiset<Tile>) -> bool {
    &&& c.len() == KINDS
    &&& forall|k: int| 0 <= k < KINDS ==> c[k] == m.count(#[trigger] tile_of_kind(k))
    &&& ms_wf(m)
}

pub(crate) proof fn lemma_count_of(c: Seq<usize>, m: Multiset<Tile>, t: Tile)
    requires
        counts_match(c, m),
        t.wf(),
    ensures
        c[kind_of(t)] == m.count(t),
        0 <= kind_of(t) < KINDS,
{
    lemma_kind_bijection(t, 0);
}

/// Counts the tiles of each kind.
pub(crate) fn count_kinds(tiles: &Vec<Tile>) -> (c: Vec<usize>)
    requires
        all_wf(tiles@),
    ensures
        counts_match(c@, tiles@.to_multiset()),
{
    let mut c: Vec<usize> = Vec::new();
    let mut k: usize = 0;
    while k < KINDS
        invariant
            k <= KINDS,
            c@.len() == k,
            forall|j: int| 0 <= j < k ==> c@[j] == 0,
        decreases KINDS - k,
    {
        c.push(0);
        k = k + 1;
    }
    proof {
        let e = tiles@.subrange(0, 0);
        assert(e.to_multiset().len() == 0);
        assert forall|t: Tile| e.to_multiset().count(t) == 0 by {}
    }
    let mut i: usize = 0;
    while i < tiles.len()
        invariant
            i <= tiles.len(),
            all_wf(tiles@),
            counts_match(c@, tiles@.subrange(0, i as int).to_multiset()),
        decreases tiles.len() - i,
    {
        let t = tiles[i];
        let ghost before = tiles@.subrange(0, i as int).to_multiset();
        let k = t.kind();
        proof {
            lemma_count_of(c@, before, t);
            assert(before.len() == i);
        }
        let n = c[k];
        c.set(k, n + 1);
        proof {
            assert(tiles@.subrange(0, i + 1) =~= tiles@.subrange(0, i as int).push(t));
            let after = tiles@.subrange(0, i + 1).to_multiset();
            assert(after == before.insert(t));
            assert forall|j: int| 0 <= j < KINDS implies c@[j] == after.count(
                #[trigger] tile_of_kind(j),
            ) by {
                lemma_kind_bijection(t, j);
            }
        }
        i = i + 1;
    }
    assert(tiles@.subrange(0, tiles@.len() as int) =~= tiles@);
    c
}

/// Takes one tile of kind `t` out of the working copy.
pub(crate) fn remove_tile(counts: &mut Vec<usize>, t: Tile, Ghost(m): Ghost<Multiset<Tile>>)
    requires
        counts_match(old(counts)@, m),
        t.wf(),
        m.count(t) >= 1,
    ensures
        counts_match(final(counts)@, m.remove(t)),
{
    let k = t.kind();
    proof {
        lemma_count_of(counts@, m, t);
    }
    let n = counts[k];
    counts.set(k, n - 1);
    proof {
        assert forall|j: int| 0 <= j < KINDS implies counts@[j] == m.remove(t).count(
            #[trigger] tile_of_kind(j),
        ) by {
            lemma_kind_bijection(t, j);
        }
    }
}

/// Whether all tiles of a meld are in the working copy.
pub(crate) fn tiles_have_meld(counts: &Vec<usize>, x: Meld, Ghost(m): Ghost<Multiset<Tile>>) -> (r: bool)
    requires
        counts_match(counts@, m),
        meld_wf(x),
    ensures
        r == meld_fits(m, x),
{
    match x {
        Meld::Pung(t) => {
            proof {
                lemma_count_of(counts@, m, t);
            }
            counts[t.kind()] >= 3
        },
        Meld::Chow(a, b, c) => {
            proof {
                lemma_count_of(counts@, m, a);
                lemma_count_of(counts@, m, b);
                lemma_count_of(counts@, m, c);
            }
            counts[a.kind()] >= 1 && counts[b.kind()] >= 1 && counts[c.kind()] >= 1
        },
    }
}

/// Takes the tiles of a meld out of the working copy.
pub(crate) fn remove_meld(counts: &mut Vec<usize>, x: Meld, Ghost(m): Ghost<Multiset<Tile>>)
    requires
        counts_match(old(counts)@, m),
        meld_wf(x),
        meld_fits(m, x),
    ensures
        counts_match(final(counts)@, m.sub(meld_ms(x))),
{
    match x {
        Meld::Pung(t) => {
            remove_tile(counts, t, Ghost(m));
            remove_tile(counts, t, Ghost(m.remove(t)));
            remove_tile(counts, t, Ghost(m.remove(t).remove(t)));
            assert(m.remove(t).remove(t).remove(t) =~= m.sub(meld_ms(x)));
        },
        Meld::Chow(a, b, c) => {
            assert(a != b && b != c && a != c);
            remove_tile(counts, a, Ghost(m));
            remove_tile(counts, b, Ghost(m.remove(a)));
            remove_tile(counts, c, Ghost(m.remove(a).remove(b)));
            assert(m.remove(a).remove(b).remove(c) =~= m.sub(meld_ms(x)));
        },
    }
}

/// The first meld that the working copy holds, in canonical scanning order.
fn first_meld(counts: &Vec<usize>, Ghost(m): Ghost<Multiset<Tile>>) -> (r: Option<Meld>)
    requires
        counts_match(counts@, m),
    ensures
        r == first_meld_from(m, 0),
{
    let mut k: usize = 0;
    while k < KINDS
        invariant
            k <= KINDS,
            counts_match(counts@, m),
            first_meld_from(m, 0) == first_meld_from(m, k as int),
        decreases KINDS - k,
    {
        let t = Tile::from_kind(k);
        let cands = t.possible_melds();
        proof {
            lemma_meld_candidates_wf(t);
        }
        let mut j: usize = 0;
        while j < cands.len()
            invariant
                j <= cands.len(),
                counts_match(counts@, m),
                forall|i: int| 0 <= i < cands@.len() ==> meld_wf(#[trigger] cands@[i]),
                first_meld_at(m, cands@, 0) == first_meld_at(m, cands@, j as int),
                k < KINDS,
                cands@ == meld_candidates(tile_of_kind(k as int)),
                first_meld_from(m, 0) == first_meld_from(m, k as int),
            decreases cands.len() - j,
        {
            if tiles_have_meld(counts, cands[j], Ghost(m)) {
                return Some(cands[j]);
            }
            j = j + 1;
        }
        k = k + 1;
    }
    None
}

/// Meld pass: repeatedly commits the first meld found until none is left.
fn find_melds(counts: &mut Vec<usize>, Ghost(m0): Ghost<Multiset<Tile>>) -> (melds: Vec<Meld>)
    requires
        counts_match(old(counts)@, m0),
    ensures
        melds@ == meld_pass(m0).0,
        counts_match(final(counts)@, meld_pass(m0).1),
{
    let mut melds: Vec<Meld> = Vec::new();
    let ghost mut m = m0;
    loop
        invariant
            counts_match(counts@, m),
            melds@ + meld_pass(m).0 == meld_pass(m0).0,
            meld_pass(m).1 == meld_pass(m0).1,
        ensures
            melds@ == meld_pass(m0).0,
            counts_match(counts@, meld_pass(m0).1),
        decreases m.len(),
    {
        match first_meld(counts, Ghost(m)) {
            None => {
                assert(melds@ + meld_pass(m).0 =~= melds@);
                break ;
            },
            Some(x) => {
                proof {
                    lemma_first_meld_from(m, 0);
                    lemma_meld_subset(m, x);
                }
                remove_meld(counts, x, Ghost(m));
                proof {
                    assert(melds@.push(x) + meld_pass(m.sub(meld_ms(x))).0 =~= melds@ + meld_pass(
                        m,
                    ).0);
                }
                melds.push(x);
                proof {
                    m = m.sub(meld_ms(x));
                }
            },
        }
    }
    melds
}


/// Pair pass: takes out two copies of the first kind that has at least two.
fn find_pair(counts: &mut Vec<usize>, Ghost(m): Ghost<Multiset<Tile>>) -> (pair: Option<Protorun>)
    requires
        counts_match(old(counts)@, m),
    ensures
        pair == pair_pass(m).0,
        counts_match(final(counts)@, pair_pass(m).1),
{
    let mut k: usize = 0;
    while k < KINDS
        invariant
            k <= KINDS,
            counts_match(counts@, m),
            first_pair_from(m, 0) == first_pair_from(m, k as int),
        decreases KINDS - k,
    {
        let t = Tile::from_kind(k);
        if counts[k] >= 2 {
            let p = Protorun::Pair(t, t);
            proof {
                lemma_first_pair_from(m, 0);
                assert(m.remove(t).remove(t) =~= m.sub(proto_ms(p)));
            }
            remove_tile(counts, t, Ghost(m));
            remove_tile(counts, t, Ghost(m.remove(t)));
            return Some(p);
        }
        k = k + 1;
    }
    None
}

/// Whether both tiles of a protorun are in the working copy.
fn tiles_have_protorun(counts: &Vec<usize>, p: Protorun, Ghost(m): Ghost<Multiset<Tile>>) -> (r:
    bool)
    requires
        counts_match(counts@, m),
        proto_wf(p),
    ensures
        r == proto_fits(m, p),
{
    let a = p.first_tile();
    let b = second_tile(&p);
    proof {
        lemma_count_of(counts@, m, a);
        lemma_count_of(counts@, m, b);
    }
    if p.is_pair() {
        counts[a.kind()] >= 2
    } else {
        counts[a.kind()] >= 1 && counts[b.kind()] >= 1
    }
}

fn second_tile(p: &Protorun) -> (t: Tile)
    ensures
        t == proto_second(*p),
{
    match *p {
        Protorun::Side(_, b) => b,
        Protorun::Closed(_, b) => b,
        Protorun::Edge(_, b) => b,
        Protorun::Pair(_, b) => b,
    }
}

/// Takes the tiles of a protorun out of the working copy.
fn remove_protorun(counts: &mut Vec<usize>, p: Protorun, Ghost(m): Ghost<Multiset<Tile>>)
    requires
        counts_match(old(counts)@, m),
        proto_wf(p),
        proto_fits(m, p),
    ensures
        counts_match(final(counts)@, m.sub(proto_ms(p))),
{
    let a = p.first_tile();
    let b = second_tile(&p);
    remove_tile(counts, a, Ghost(m));
    remove_tile(counts, b, Ghost(m.remove(a)));
    assert(m.remove(a).remove(b) =~= m.sub(proto_ms(p)));
}

/// The first protorun that the working copy holds, in canonical scanning order.
fn first_protorun_in(counts: &Vec<usize>, Ghost(m): Ghost<Multiset<Tile>>) -> (r: Option<Protorun>)
    requires
        counts_match(counts@, m),
    ensures
        r == first_proto_from(m, 0),
{
    let mut k: usize = 0;
    while k < KINDS
        invariant
            k <= KINDS,
            counts_match(counts@, m),
            first_proto_from(m, 0) == first_proto_from(m, k as int),
        decreases KINDS - k,
    {
        let t = Tile::from_kind(k);
        let cands = t.possible_protoruns();
        proof {
            lemma_proto_candidates_wf(t);
        }
        let mut j: usize = 0;
        while j < cands.len()
            invariant
                j <= cands.len(),
                counts_match(counts@, m),
                forall|i: int| 0 <= i < cands@.len() ==> proto_wf(#[trigger] cands@[i]),
                first_proto_at(m, cands@, 0) == first_proto_at(m, cands@, j as int),
                k < KINDS,
                cands@ == proto_candidates(tile_of_kind(k as int)),
                first_proto_from(m, 0) == first_proto_from(m, k as int),
            decreases cands.len() - j,
        {
            if tiles_have_protorun(counts, cands[j], Ghost(m)) {
                return Some(cands[j]);
            }
            j = j + 1;
        }
        k = k + 1;
    }
    None
}

/// Protorun pass: repeatedly commits the first protorun found until none is left.
fn find_protoruns(counts: &mut Vec<usize>, Ghost(m0): Ghost<Multiset<Tile>>) -> (protoruns: Vec<
    Protorun,
>)
    requires
        counts_match(old(counts)@, m0),
    ensures
        protoruns@ == proto_pass(m0).0,
        counts_match(final(counts)@, proto_pass(m0).1),
{
    let mut protoruns: Vec<Protorun> = Vec::new();
    let ghost mut m = m0;
    loop
        invariant
            counts_match(counts@, m),
            protoruns@ + proto_pass(m).0 == proto_pass(m0).0,
            proto_pass(m).1 == proto_pass(m0).1,
        ensures
            protoruns@ == proto_pass(m0).0,
            counts_match(counts@, proto_pass(m0).1),
        decreases m.len(),
    {
        match first_protorun_in(counts, Ghost(m)) {
            None => {
                assert(protoruns@ + proto_pass(m).0 =~= protoruns@);
                break ;
            },
            Some(p) => {
                proof {
                    lemma_first_proto_from(m, 0);
                    lemma_proto_subset(m, p);
                }
                remove_protorun(counts, p, Ghost(m));
                proof {
                    assert(protoruns@.push(p) + proto_pass(m.sub(proto_ms(p))).0 =~= protoruns@
                        + proto_pass(m).0);
                }
                protoruns.push(p);
                proof {
                    m = m.sub(proto_ms(p));
                }
            },
        }
    }
    protoruns
}

/// Lists what is left in the working copy, in canonical order.
fn list_floating(counts: &Vec<usize>, Ghost(m): Ghost<Multiset<Tile>>) -> (floating: Vec<Tile>)
    requires
        counts_match(counts@, m),
    ensures
        floating@ == listing(m, KINDS as int),
{
    let mut floating: Vec<Tile> = Vec::new();
    let mut k: usize = 0;
    while k < KINDS
        invariant
            k <= KINDS,
            counts_match(counts@, m),
            floating@ == listing(m, k as int),
        decreases KINDS - k,
    {
        let t = Tile::from_kind(k);
        let n = counts[k];
        let mut i: usize = 0;
        while i < n
            invariant
                i <= n,
                k < KINDS,
                t == tile_of_kind(k as int),
                floating@ == listing(m, k as int) + copies(t, i as nat),
            decreases n - i,
        {
            proof {
                assert(copies(t, (i + 1) as nat) =~= copies(t, i as nat).push(t));
            }
            floating.push(t);
            i = i + 1;
        }
        k = k + 1;
    }
    floating
}

/// The classified partition of a hand: melds found, the pair, protoruns, and floating tiles.
#[derive(Debug)]
pub struct ProvisionalHand {
    pub melds: Vec<Meld>,
    pub pair: Option<Protorun>,
    pub protoruns: Vec<Protorun>,
    pub floating: Vec<Tile>,
}

impl ProvisionalHand {
    /// Whether this is the decomposition that the engine gives for the multiset `m`.
    pub open spec fn is_decomposition_of(&self, m: Multiset<Tile>) -> bool {
        &&& self.melds@ == spec_melds(m)
        &&& self.pair == spec_pair(m)
        &&& self.protoruns@ == spec_protoruns(m)
        &&& self.floating@ == spec_floating(m)
    }

    /// Decomposes a hand: the meld pass, then the pair pass, then the protorun pass; what is
    /// left is floating. Every tile ends up in exactly one of the four groups.
    pub fn new(tiles: &Vec<Tile>) -> (hand: Self)
        requires
            all_wf(tiles@),
        ensures
            hand.is_decomposition_of(tiles@.to_multiset()),
            hand.flat_tiles().to_multiset() == tiles@.to_multiset(),
    {
        let ghost m0 = tiles@.to_multiset();
        let mut counts = count_kinds(tiles);
        let melds = find_melds(&mut counts, Ghost(m0));
        let ghost m1 = meld_pass(m0).1;
        let pair = find_pair(&mut counts, Ghost(m1));
        let ghost m2 = pair_pass(m1).1;
        let protoruns = find_protoruns(&mut counts, Ghost(m2));
        let ghost m3 = proto_pass(m2).1;
        let floating = list_floating(&counts, Ghost(m3));
        let hand = ProvisionalHand { melds, pair, protoruns, floating };
        proof {
            lemma_conservation(tiles@, hand);
        }
        hand
    }

    /// Complete: four melds and a pair.
    pub fn winning(&self) -> (r: bool)
        ensures
            r == (self.melds@.len() == 4 && self.pair is Some),
    {
        self.melds.len() == 4 && self.pair.is_some()
    }
}


// ---------------------------------------------------------------------------------------------
// Discard selection.
// ---------------------------------------------------------------------------------------------

/// Index `i` holds the weakest protorun of `ps`: none ranks lower, and none before it ranks
/// as low (ties go to the earliest).
pub open spec fn is_weakest(ps: Seq<Protorun>, i: int) -> bool {
    &&& 0 <= i < ps.len()
    &&& forall|j: int| 0 <= j < ps.len() ==> proto_rank(ps[i]) <= proto_rank(#[trigger] ps[j])
    &&& forall|j: int| 0 <= j < i ==> proto_rank(#[trigger] ps[j]) > proto_rank(ps[i])
}

/// The first tile of the weakest protorun, if there is any protorun.
pub open spec fn weakest_first_tile(ps: Seq<Protorun>) -> Option<Tile> {
    if ps.len() == 0 {
        None
    } else {
        Some(proto_first(ps[choose|i: int| is_weakest(ps, i)]))
    }
}

pub proof fn lemma_weakest_unique(ps: Seq<Protorun>, i: int, j: int)
    requires
        is_weakest(ps, i),
        is_weakest(ps, j),
    ensures
        i == j,
{
    if i < j {
        assert(proto_rank(ps[i]) > proto_rank(ps[j]));
    } else if j < i {
        assert(proto_rank(ps[j]) > proto_rank(ps[i]));
    }
}

/// Some index of the first `n` protoruns is the weakest among them.
pub proof fn lemma_weakest_prefix(ps: Seq<Protorun>, n: int) -> (i: int)
    requires
        1 <= n <= ps.len(),
    ensures
        is_weakest(ps.subrange(0, n), i),
    decreases n,
{
    let pre = ps.subrange(0, n);
    if n == 1 {
        0
    } else {
        let w = lemma_weakest_prefix(ps, n - 1);
        let short = ps.subrange(0, n - 1);
        assert forall|j: int| 0 <= j < n - 1 implies pre[j] == #[trigger] short[j] by {}
        if proto_rank(ps[n - 1]) < proto_rank(ps[w]) {
            assert forall|j: int| 0 <= j < n implies proto_rank(pre[n - 1]) <= proto_rank(
                #[trigger] pre[j],
            ) by {
                if j < n - 1 {
                    assert(pre[j] == short[j]);
                }
            }
            assert forall|j: int| 0 <= j < n - 1 implies proto_rank(#[trigger] pre[j])
                > proto_rank(pre[n - 1]) by {
                assert(pre[j] == short[j]);
            }
            n - 1
        } else {
            assert forall|j: int| 0 <= j < n implies proto_rank(pre[w]) <= proto_rank(
                #[trigger] pre[j],
            ) by {
                if j < n - 1 {
                    assert(pre[j] == short[j]);
                }
            }
            assert forall|j: int| 0 <= j < w implies proto_rank(#[trigger] pre[j]) > proto_rank(
                pre[w],
            ) by {
                assert(pre[j] == short[j]);
            }
            w
        }
    }
}

pub proof fn lemma_weakest_exists(ps: Seq<Protorun>) -> (i: int)
    requires
        ps.len() > 0,
    ensures
        is_weakest(ps, i),
        weakest_first_tile(ps) == Some(proto_first(ps[i])),
{
    let i = lemma_weakest_prefix(ps, ps.len() as int);
    assert(ps.subrange(0, ps.len() as int) =~= ps);
    let c = choose|c: int| is_weakest(ps, c);
    lemma_weakest_unique(ps, i, c);
    i
}

pub open spec fn melds_flat(ms: Seq<Meld>) -> Seq<Tile>
    decreases ms.len(),
{
    if ms.len() == 0 {
        seq![]
    } else {
        meld_tiles(ms[0]) + melds_flat(ms.drop_first())
    }
}

pub open spec fn protos_flat(ps: Seq<Protorun>) -> Seq<Tile>
    decreases ps.len(),
{
    if ps.len() == 0 {
        seq![]
    } else {
        proto_tiles(ps[0]) + protos_flat(ps.drop_first())
    }
}

pub open spec fn pair_tiles(p: Option<Protorun>) -> Seq<Tile> {
    match p {
        Some(q) => proto_tiles(q),
        None => seq![],
    }
}

/// The tile to give up: the first floating tile; else the first tile of the weakest
/// protorun; else the first tile held.
pub open spec fn discard_choice(floating: Seq<Tile>, protoruns: Seq<Protorun>, all: Seq<Tile>) -> Option<
    Tile,
> {
    if floating.len() > 0 {
        Some(floating[0])
    } else if protoruns.len() > 0 {
        weakest_first_tile(protoruns)
    } else if all.len() > 0 {
        Some(all[0])
    } else {
        None
    }
}

/// All tiles of the decomposition of `m`, group by group.
pub open spec fn spec_flat(m: Multiset<Tile>) -> Seq<Tile> {
    melds_flat(spec_melds(m)) + pair_tiles(spec_pair(m)) + protos_flat(spec_protoruns(m))
        + spec_floating(m)
}

/// Complete: the decomposition of `m` has four melds and a pair.
pub open spec fn spec_winning(m: Multiset<Tile>) -> bool {
    spec_melds(m).len() == 4 && spec_pair(m) is Some
}

/// The tile that the discard rule gives up from the decomposition of `m`.
pub open spec fn spec_discard(m: Multiset<Tile>) -> Option<Tile> {
    discard_choice(spec_floating(m), spec_protoruns(m), spec_flat(m))
}

impl ProvisionalHand {
    /// All tiles of the decomposition: melds, then pair, then protoruns, then floating tiles.
    pub open spec fn flat_tiles(&self) -> Seq<Tile> {
        melds_flat(self.melds@) + pair_tiles(self.pair) + protos_flat(self.protoruns@)
            + self.floating@
    }

    pub open spec fn discard_spec(&self) -> Option<Tile> {
        discard_choice(self.floating@, self.protoruns@, self.flat_tiles())
    }

    /// The tile to discard from a hand that is not complete.
    pub fn to_discard(&self) -> (r: Option<Tile>)
        ensures
            r == self.discard_spec(),
    {
        if self.floating.len() > 0 {
            return Some(self.floating[0]);
        }
        if self.protoruns.len() > 0 {
            return self.first_protorun();
        }
        if self.melds.len() > 0 {
            let first = match self.melds[0] {
                Meld::Pung(t) => t,
                Meld::Chow(a, _, _) => a,
            };
            proof {
                let ms = self.melds@;
                assert(melds_flat(ms) == meld_tiles(ms[0]) + melds_flat(ms.drop_first()));
                assert(self.flat_tiles()[0] == melds_flat(ms)[0]);
            }
            return Some(first);
        }
        match self.pair {
            Some(p) => {
                proof {
                    assert(melds_flat(self.melds@) =~= seq![]);
                    assert(self.flat_tiles()[0] == pair_tiles(self.pair)[0]);
                }
                Some(p.first_tile())
            },
            None => {
                proof {
                    assert(melds_flat(self.melds@) =~= seq![]);
                    assert(protos_flat(self.protoruns@) =~= seq![]);
                    assert(self.flat_tiles() =~= seq![]);
                }
                None
            },
        }
    }

    /// The first tile of the weakest protorun (Edge, then Closed, then Pair, then Side; the
    /// earliest on a tie), if there is any protorun.
    pub fn first_protorun(&self) -> (r: Option<Tile>)
        ensures
            r == weakest_first_tile(self.protoruns@),
    {
        let n = self.protoruns.len();
        if n == 0 {
            return None;
        }
        let mut best: usize = 0;
        let mut i: usize = 1;
        while i < n
            invariant
                n == self.protoruns@.len(),
                1 <= i <= n,
                best < i,
                forall|j: int|
                    0 <= j < i ==> proto_rank(self.protoruns@[best as int]) <= proto_rank(
                        #[trigger] self.protoruns@[j],
                    ),
                forall|j: int|
                    0 <= j < best ==> proto_rank(#[trigger] self.protoruns@[j]) > proto_rank(
                        self.protoruns@[best as int],
                    ),
            decreases n - i,
        {
            if self.protoruns[i].rank() < self.protoruns[best].rank() {
                best = i;
            }
            i = i + 1;
        }
        proof {
            let w = lemma_weakest_exists(self.protoruns@);
            lemma_weakest_unique(self.protoruns@, w, best as int);
        }
        Some(self.protoruns[best].first_tile())
    }
}

/// Discard preference: when no tile floats and some protorun is an Edge, the discard comes
/// from an Edge protorun (and so never from a Side one).
pub proof fn lemma_discard_prefers_edge(hand: ProvisionalHand, e: int)
    requires
        hand.floating@.len() == 0,
        0 <= e < hand.protoruns@.len(),
        hand.protoruns@[e] is Edge,
    ensures
        exists|i: int|
            0 <= i < hand.protoruns@.len() && hand.protoruns@[i] is Edge && hand.discard_spec()
                == Some(proto_first(#[trigger] hand.protoruns@[i])),
{
    let i = lemma_weakest_exists(hand.protoruns@);
    assert(proto_rank(hand.protoruns@[i]) <= proto_rank(hand.protoruns@[e]));
}


// ---------------------------------------------------------------------------------------------
// Conservation.
// ---------------------------------------------------------------------------------------------

proof fn lemma_empty_ms()
    ensures
        Seq::<Tile>::empty().to_multiset() =~= Multiset::empty(),
{
    assert(Seq::<Tile>::empty().to_multiset().len() == 0);
    assert forall|t: Tile| Seq::<Tile>::empty().to_multiset().count(t) == 0 by {}
}

pub proof fn lemma_meld_tiles_ms(x: Meld)
    ensures
        meld_tiles(x).to_multiset() =~= meld_ms(x),
{
    lemma_empty_ms();
    match x {
        Meld::Pung(t) => {
            assert(meld_tiles(x) =~= Seq::<Tile>::empty().push(t).push(t).push(t));
        },
        Meld::Chow(a, b, c) => {
            assert(meld_tiles(x) =~= Seq::<Tile>::empty().push(a).push(b).push(c));
        },
    }
}

pub proof fn lemma_proto_tiles_ms(p: Protorun)
    ensures
        proto_tiles(p).to_multiset() =~= proto_ms(p),
{
    lemma_empty_ms();
    assert(proto_tiles(p) =~= Seq::<Tile>::empty().push(proto_first(p)).push(proto_second(p)));
}

proof fn lemma_meld_pass_conserves(m: Multiset<Tile>)
    requires
        ms_wf(m),
    ensures
        melds_flat(meld_pass(m).0).to_multiset().add(meld_pass(m).1) =~= m,
        ms_wf(meld_pass(m).1),
    decreases m.len(),
{
    match first_meld_from(m, 0) {
        Some(x) => {
            lemma_first_meld_from(m, 0);
            lemma_meld_subset(m, x);
            let m2 = m.sub(meld_ms(x));
            lemma_meld_pass_conserves(m2);
            let ms = meld_pass(m).0;
            let rest = meld_pass(m2).0;
            assert(ms == seq![x] + rest);
            assert(ms.drop_first() =~= rest);
            assert(melds_flat(ms) == meld_tiles(x) + melds_flat(rest));
            lemma_multiset_commutative(meld_tiles(x), melds_flat(rest));
            lemma_meld_tiles_ms(x);
            assert forall|t: Tile|
                melds_flat(ms).to_multiset().add(meld_pass(m).1).count(t) == m.count(t) by {
                assert(meld_ms(x).count(t) <= m.count(t));
                assert(melds_flat(ms).to_multiset() == meld_tiles(x).to_multiset().add(
                    melds_flat(rest).to_multiset(),
                ));
                assert(meld_pass(m).1 == meld_pass(m2).1);
                assert(melds_flat(rest).to_multiset().add(meld_pass(m2).1).count(t) == m2.count(
                    t,
                ));
            }
        },
        None => {
            lemma_empty_ms();
        },
    }
}

proof fn lemma_proto_pass_conserves(m: Multiset<Tile>)
    requires
        ms_wf(m),
    ensures
        protos_flat(proto_pass(m).0).to_multiset().add(proto_pass(m).1) =~= m,
        ms_wf(proto_pass(m).1),
    decreases m.len(),
{
    match first_proto_from(m, 0) {
        Some(p) => {
            lemma_first_proto_from(m, 0);
            lemma_proto_subset(m, p);
            let m2 = m.sub(proto_ms(p));
            lemma_proto_pass_conserves(m2);
            let ps = proto_pass(m).0;
            let rest = proto_pass(m2).0;
            assert(ps == seq![p] + rest);
            assert(ps.drop_first() =~= rest);
            assert(protos_flat(ps) == proto_tiles(p) + protos_flat(rest));
            lemma_multiset_commutative(proto_tiles(p), protos_flat(rest));
            lemma_proto_tiles_ms(p);
            assert forall|t: Tile|
                protos_flat(ps).to_multiset().add(proto_pass(m).1).count(t) == m.count(t) by {
                assert(proto_ms(p).count(t) <= m.count(t));
                assert(protos_flat(ps).to_multiset() == proto_tiles(p).to_multiset().add(
                    protos_flat(rest).to_multiset(),
                ));
                assert(proto_pass(m).1 == proto_pass(m2).1);
                assert(protos_flat(rest).to_multiset().add(proto_pass(m2).1).count(t)
                    == m2.count(t));
            }
        },
        None => {
            lemma_empty_ms();
        },
    }
}

proof fn lemma_pair_pass_conserves(m: Multiset<Tile>)
    requires
        ms_wf(m),
    ensures
        pair_tiles(pair_pass(m).0).to_multiset().add(pair_pass(m).1) =~= m,
        ms_wf(pair_pass(m).1),
{
    lemma_empty_ms();
    lemma_first_pair_from(m, 0);
    match first_pair_from(m, 0) {
        Some(t) => {
            lemma_proto_tiles_ms(Protorun::Pair(t, t));
        },
        None => {},
    }
}

proof fn lemma_copies_ms(t: Tile, n: nat)
    ensures
        forall|v: Tile| #[trigger] copies(t, n).to_multiset().count(v) == if v == t { n } else { 0 },
    decreases n,
{
    if n == 0 {
        lemma_empty_ms();
        assert(copies(t, n) =~= Seq::<Tile>::empty());
    } else {
        lemma_copies_ms(t, (n - 1) as nat);
        assert(copies(t, n) =~= copies(t, (n - 1) as nat).push(t));
    }
}

proof fn lemma_listing_ms(m: Multiset<Tile>, k: int)
    requires
        0 <= k <= KINDS,
    ensures
        forall|t: Tile| #[trigger]
            listing(m, k).to_multiset().count(t) == if t.wf() && kind_of(t) < k {
                m.count(t)
            } else {
                0
            },
    decreases k,
{
    if k == 0 {
        lemma_empty_ms();
    } else {
        lemma_listing_ms(m, k - 1);
        let u = tile_of_kind(k - 1);
        lemma_copies_ms(u, m.count(u));
        lemma_multiset_commutative(listing(m, k - 1), copies(u, m.count(u)));
        assert forall|t: Tile| #[trigger]
            listing(m, k).to_multiset().count(t) == if t.wf() && kind_of(t) < k {
                m.count(t)
            } else {
                0
            } by {
            lemma_kind_bijection(t, k - 1);
        }
    }
}

proof fn lemma_listing_all(m: Multiset<Tile>)
    requires
        ms_wf(m),
    ensures
        listing(m, KINDS as int).to_multiset() =~= m,
{
    lemma_listing_ms(m, KINDS as int);
    assert forall|t: Tile| listing(m, KINDS as int).to_multiset().count(t) == m.count(t) by {
        lemma_kind_bijection(t, 0);
    }
}

pub(crate) proof fn lemma_ms_wf(tiles: Seq<Tile>)
    requires
        all_wf(tiles),
    ensures
        ms_wf(tiles.to_multiset()),
{
    assert forall|t: Tile| tiles.to_multiset().count(t) > 0 implies #[trigger] t.wf() by {
        assert(tiles.contains(t));
    }
}

/// Conservation: the melds, the pair, the protoruns and the floating tiles of a decomposition
/// hold exactly the tiles decomposed, no tile gained or lost, each tile in one group only.
pub proof fn lemma_conservation(tiles: Seq<Tile>, hand: ProvisionalHand)
    requires
        all_wf(tiles),
        hand.is_decomposition_of(tiles.to_multiset()),
    ensures
        hand.flat_tiles().to_multiset() == tiles.to_multiset(),
        melds_flat(hand.melds@).to_multiset().add(pair_tiles(hand.pair).to_multiset()).add(
            protos_flat(hand.protoruns@).to_multiset(),
        ).add(hand.floating@.to_multiset()) == tiles.to_multiset(),
{
    let m0 = tiles.to_multiset();
    lemma_ms_wf(tiles);
    lemma_meld_pass_conserves(m0);
    let m1 = meld_pass(m0).1;
    lemma_pair_pass_conserves(m1);
    let m2 = pair_pass(m1).1;
    lemma_proto_pass_conserves(m2);
    let m3 = proto_pass(m2).1;
    lemma_listing_all(m3);
    let a = melds_flat(hand.melds@);
    let b = pair_tiles(hand.pair);
    let c = protos_flat(hand.protoruns@);
    let d = hand.floating@;
    lemma_multiset_commutative(a, b);
    lemma_multiset_commutative(a + b, c);
    lemma_multiset_commutative(a + b + c, d);
    assert(a.to_multiset().add(b.to_multiset()).add(c.to_multiset()).add(d.to_multiset()) =~= m0);
}

/// Idempotence: decomposing again the tiles of a decomposition, held in any order, gives the
/// same decomposition.
pub proof fn lemma_decompose_idempotent(
    tiles: Seq<Tile>,
    hand: ProvisionalHand,
    again: Seq<Tile>,
    hand2: ProvisionalHand,
)
    requires
        all_wf(tiles),
        hand.is_decomposition_of(tiles.to_multiset()),
        again.to_multiset() == hand.flat_tiles().to_multiset(),
        hand2.is_decomposition_of(again.to_multiset()),
    ensures
        hand2.melds@ == hand.melds@,
        hand2.pair == hand.pair,
        hand2.protoruns@ == hand.protoruns@,
        hand2.floating@ == hand.floating@,
{
    lemma_conservation(tiles, hand);
}


pub proof fn lemma_melds_flat_len(ms: Seq<Meld>)
    ensures
        melds_flat(ms).len() == 3 * ms.len(),
    decreases ms.len(),
{
    if ms.len() > 0 {
        lemma_melds_flat_len(ms.drop_first());
    }
}

/// Every meld the meld pass finds is a well-formed meld.
pub proof fn lemma_meld_pass_wf(m: Multiset<Tile>)
    ensures
        forall|i: int| 0 <= i < meld_pass(m).0.len() ==> meld_wf(#[trigger] meld_pass(m).0[i]),
    decreases m.len(),
{
    match first_meld_from(m, 0) {
        Some(x) => {
            lemma_first_meld_from(m, 0);
            lemma_meld_subset(m, x);
            let m2 = m.sub(meld_ms(x));
            lemma_meld_pass_wf(m2);
            let ms = meld_pass(m).0;
            assert(ms == seq![x] + meld_pass(m2).0);
            assert forall|i: int| 0 <= i < ms.len() implies meld_wf(#[trigger] ms[i]) by {
                if i > 0 {
                    assert(ms[i] == meld_pass(m2).0[i - 1]);
                }
            }
        },
        None => {},
    }
}


/// The discard rule gives up a tile of the hand, whenever the hand has a tile.
pub proof fn lemma_discard_in_hand(tiles: Seq<Tile>)
    requires
        all_wf(tiles),
        tiles.len() > 0,
    ensures
        spec_discard(tiles.to_multiset()) matches Some(t) && tiles.to_multiset().count(t) > 0,
{
    let m = tiles.to_multiset();
    lemma_ms_wf(tiles);
    lemma_meld_pass_conserves(m);
    lemma_pair_pass_conserves(meld_pass(m).1);
    lemma_proto_pass_conserves(pair_pass(meld_pass(m).1).1);
    lemma_listing_all(proto_pass(pair_pass(meld_pass(m).1).1).1);
    let a = melds_flat(spec_melds(m));
    let b = pair_tiles(spec_pair(m));
    let c = protos_flat(spec_protoruns(m));
    let d = spec_floating(m);
    lemma_multiset_commutative(a, b);
    lemma_multiset_commutative(a + b, c);
    lemma_multiset_commutative(a + b + c, d);
    let all = spec_flat(m);
    assert(all.to_multiset() =~= m);
    assert(all.len() == m.len());
    if d.len() > 0 {
        assert(all[all.len() - d.len()] == d[0]);
        assert(all.contains(d[0]));
    } else if spec_protoruns(m).len() > 0 {
        let ps = spec_protoruns(m);
        let i = lemma_weakest_exists(ps);
        lemma_protos_flat_holds(ps, i);
        let k = (a + b).len() + 2 * i;
        assert(all[k] == c[2 * i]);
        assert(all.contains(all[k]));
    } else {
        assert(all.contains(all[0]));
    }
}

proof fn lemma_protos_flat_holds(ps: Seq<Protorun>, i: int)
    requires
        0 <= i < ps.len(),
    ensures
        protos_flat(ps).len() == 2 * ps.len(),
        protos_flat(ps)[2 * i] == proto_first(ps[i]),
    decreases ps.len(),
{
    if i == 0 {
        lemma_protos_flat_len(ps.drop_first());
    } else {
        lemma_protos_flat_holds(ps.drop_first(), i - 1);
    }
}

proof fn lemma_protos_flat_len(ps: Seq<Protorun>)
    ensures
        protos_flat(ps).len() == 2 * ps.len(),
    decreases ps.len(),
{
    if ps.len() > 0 {
        lemma_protos_flat_len(ps.drop_first());
    }
}


/// A meld of the list that holds `u`, and whose tiles all count towards the list's tiles.
proof fn lemma_meld_holding(ms: Seq<Meld>, u: Tile) -> (i: int)
    requires
        melds_flat(ms).to_multiset().count(u) > 0,
    ensures
        0 <= i < ms.len(),
        meld_ms(ms[i]).count(u) > 0,
        forall|v: Tile| meld_ms(ms[i]).count(v) <= #[trigger] melds_flat(ms).to_multiset().count(v),
    decreases ms.len(),
{
    if ms.len() == 0 {
        lemma_empty_ms();
        assert(melds_flat(ms) =~= Seq::<Tile>::empty());
        0
    } else {
        let rest = ms.drop_first();
        assert(melds_flat(ms) == meld_tiles(ms[0]) + melds_flat(rest));
        lemma_multiset_commutative(meld_tiles(ms[0]), melds_flat(rest));
        lemma_meld_tiles_ms(ms[0]);
        if meld_ms(ms[0]).count(u) > 0 {
            0
        } else {
            let j = lemma_meld_holding(rest, u);
            assert(rest[j] == ms[j + 1]);
            j + 1
        }
    }
}

/// A protorun of the list that holds `u`, and whose tiles all count towards the list's tiles.
proof fn lemma_proto_holding(ps: Seq<Protorun>, u: Tile) -> (i: int)
    requires
        protos_flat(ps).to_multiset().count(u) > 0,
    ensures
        0 <= i < ps.len(),
        proto_ms(ps[i]).count(u) > 0,
        forall|v: Tile| proto_ms(ps[i]).count(v) <= #[trigger] protos_flat(ps).to_multiset().count(v),
    decreases ps.len(),
{
    if ps.len() == 0 {
        lemma_empty_ms();
        assert(protos_flat(ps) =~= Seq::<Tile>::empty());
        0
    } else {
        let rest = ps.drop_first();
        assert(protos_flat(ps) == proto_tiles(ps[0]) + protos_flat(rest));
        lemma_multiset_commutative(proto_tiles(ps[0]), protos_flat(rest));
        lemma_proto_tiles_ms(ps[0]);
        if proto_ms(ps[0]).count(u) > 0 {
            0
        } else {
            let j = lemma_proto_holding(rest, u);
            assert(rest[j] == ps[j + 1]);
            j + 1
        }
    }
}

/// Every protorun the protorun pass finds is a well-formed protorun.
pub proof fn lemma_proto_pass_wf(m: Multiset<Tile>)
    ensures
        forall|i: int|
            0 <= i < proto_pass(m).0.len() ==> proto_wf(#[trigger] proto_pass(m).0[i]),
    decreases m.len(),
{
    match first_proto_from(m, 0) {
        Some(p) => {
            lemma_first_proto_from(m, 0);
            lemma_proto_subset(m, p);
            let m2 = m.sub(proto_ms(p));
            lemma_proto_pass_wf(m2);
            let ps = proto_pass(m).0;
            assert(ps == seq![p] + proto_pass(m2).0);
            assert forall|i: int| 0 <= i < ps.len() implies proto_wf(#[trigger] ps[i]) by {
                if i > 0 {
                    assert(ps[i] == proto_pass(m2).0[i - 1]);
                }
            }
        },
        None => {},
    }
}

/// `u` is held once, and forms no protorun with any other tile of `m`; so it belongs to no
/// meld either.
pub open spec fn is_isolated(m: Multiset<Tile>, u: Tile) -> bool {
    &&& m.count(u) == 1
    &&& forall|t: Tile| t != u && m.count(t) > 0 ==> (#[trigger] form_spec(u, t)) is None
}

/// Near miss: a tile that forms no meld or protorun with the rest of the hand is left
/// floating, so a 14-tile hand holding one is not complete, and the tile discarded from it is
/// a floating tile.
pub proof fn lemma_isolated_tile_floats(tiles: Seq<Tile>, u: Tile, hand: ProvisionalHand)
    requires
        all_wf(tiles),
        hand.is_decomposition_of(tiles.to_multiset()),
        is_isolated(tiles.to_multiset(), u),
    ensures
        hand.floating@.contains(u),
        tiles.len() == 14 ==> !(hand.melds@.len() == 4 && hand.pair is Some),
        hand.discard_spec() matches Some(d) && hand.floating@.contains(d),
{
    let m = tiles.to_multiset();
    lemma_conservation(tiles, hand);
    let a = melds_flat(hand.melds@).to_multiset();
    let b = pair_tiles(hand.pair).to_multiset();
    let c = protos_flat(hand.protoruns@).to_multiset();
    let d = hand.floating@.to_multiset();
    assert(a.add(b).add(c).add(d) == m);
    if a.count(u) > 0 {
        let i = lemma_meld_holding(hand.melds@, u);
        lemma_meld_pass_wf(m);
        let x = hand.melds@[i];
        assert(meld_wf(x));
        match x {
            Meld::Pung(t) => {
                assert(meld_ms(x).count(t) == 3);
                assert(a.count(u) <= m.count(u));
            },
            Meld::Chow(p, q, r) => {
                assert(p != q && q != r && p != r);
                let v = if u == p { q } else { p };
                assert(meld_ms(x).count(v) >= 1);
                assert(a.count(v) <= m.count(v));
                assert(m.count(v) > 0);
                assert(form_spec(u, v) is Some);
            },
        }
    }
    if c.count(u) > 0 {
        let i = lemma_proto_holding(hand.protoruns@, u);
        lemma_proto_pass_wf(pair_pass(meld_pass(m).1).1);
        let p = hand.protoruns@[i];
        assert(proto_wf(p));
        let f = proto_first(p);
        let g = proto_second(p);
        assert(c.count(u) <= m.count(u));
        if f == g {
            assert(proto_ms(p).count(f) == 2);
        } else if u == f {
            assert(proto_ms(p).count(g) >= 1);
            assert(c.count(g) <= m.count(g));
            assert(form_spec(u, g) is Some);
        } else {
            assert(u == g);
            assert(proto_ms(p).count(f) >= 1);
            assert(c.count(f) <= m.count(f));
            assert(form_spec(f, u) is Some);
            assert(form_spec(u, f) is Some);
        }
    }
    if b.count(u) > 0 {
        let t = proto_first(hand.pair->Some_0);
        assert(hand.pair == Some(Protorun::Pair(t, t)));
        lemma_proto_tiles_ms(Protorun::Pair(t, t));
        assert(b.count(u) == 2);
    }
    assert(d.count(u) == 1);
    assert(hand.floating@.contains(u));
    assert(hand.floating@.contains(hand.floating@[0]));
    if tiles.len() == 14 && hand.melds@.len() == 4 && hand.pair is Some {
        lemma_melds_flat_len(hand.melds@);
        let t = proto_first(hand.pair->Some_0);
        assert(hand.pair == Some(Protorun::Pair(t, t)));
        assert(a.len() == 12);
        assert(b.len() == 2);
        assert(m.len() == 14);
        assert(d.len() >= 1);
    }
}

} // verus!
