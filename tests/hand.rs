use mahjong::hand::Hand;
use mahjong::tile::Suit::{Man, Pin, Sou};
use mahjong::tile::Tile;

#[test]
fn pair_hand_wins() {
    let mut hand = Hand::new();
    hand.closed_tiles.push(Tile::Suit(Sou, 1));
    hand.closed_tiles.push(Tile::Suit(Sou, 1));
    assert!(hand.winning().is_some())
}

#[test]
fn chii_hand_wins() {
    let mut hand = Hand::new();
    hand.closed_tiles.push(Tile::Suit(Sou, 1));
    hand.closed_tiles.push(Tile::Suit(Sou, 1));
    hand.closed_tiles.push(Tile::Suit(Pin, 1));
    hand.closed_tiles.push(Tile::Suit(Pin, 2));
    hand.closed_tiles.push(Tile::Suit(Pin, 3));
    assert!(hand.winning().is_some())
}

#[test]
fn pon_hand_wins() {
    let mut hand = Hand::new();
    hand.closed_tiles.push(Tile::Suit(Sou, 1));
    hand.closed_tiles.push(Tile::Suit(Sou, 1));
    hand.closed_tiles.push(Tile::Suit(Man, 2));
    hand.closed_tiles.push(Tile::Suit(Man, 2));
    hand.closed_tiles.push(Tile::Suit(Man, 2));
    assert!(hand.winning().is_some())
}

#[test]
fn real_hand_wins() {
    let mut hand = Hand::new();
    hand.closed_tiles.push(Tile::Suit(Sou, 1));
    hand.closed_tiles.push(Tile::Suit(Sou, 2));
    hand.closed_tiles.push(Tile::Suit(Sou, 3));
    hand.closed_tiles.push(Tile::Suit(Sou, 9));
    hand.closed_tiles.push(Tile::Suit(Sou, 9));
    hand.closed_tiles.push(Tile::Suit(Sou, 9));
    hand.closed_tiles.push(Tile::Suit(Man, 3));
    hand.closed_tiles.push(Tile::Suit(Man, 4));
    hand.closed_tiles.push(Tile::Suit(Man, 5));
    hand.closed_tiles.push(Tile::Suit(Pin, 7));
    hand.closed_tiles.push(Tile::Suit(Pin, 8));
    hand.closed_tiles.push(Tile::Suit(Pin, 9));
    hand.closed_tiles.push(Tile::Suit(Man, 2));
    hand.closed_tiles.push(Tile::Suit(Man, 2));
    assert!(hand.winning().is_some())
}

#[test]
fn real_hand_loses() {
    let mut hand = Hand::new();
    hand.closed_tiles.push(Tile::Suit(Sou, 1));
    hand.closed_tiles.push(Tile::Suit(Sou, 2));
    hand.closed_tiles.push(Tile::Suit(Sou, 3));
    hand.closed_tiles.push(Tile::Suit(Sou, 9));
    hand.closed_tiles.push(Tile::Suit(Sou, 9));
    hand.closed_tiles.push(Tile::Suit(Sou, 9));
    hand.closed_tiles.push(Tile::Suit(Man, 3));
    hand.closed_tiles.push(Tile::Suit(Man, 4));
    hand.closed_tiles.push(Tile::Suit(Man, 5));
    hand.closed_tiles.push(Tile::Suit(Pin, 7));
    hand.closed_tiles.push(Tile::Suit(Pin, 8));
    hand.closed_tiles.push(Tile::Suit(Pin, 9));
    hand.closed_tiles.push(Tile::Suit(Man, 2));
    hand.closed_tiles.push(Tile::Suit(Man, 1));
    assert!(hand.winning().is_none())
}

#[test]
fn random_hand_loses() {
    let mut hand = Hand::new();
    hand.closed_tiles.push(Tile::Suit(Sou, 1));
    hand.closed_tiles.push(Tile::Suit(Sou, 3));
    hand.closed_tiles.push(Tile::Suit(Sou, 5));
    hand.closed_tiles.push(Tile::Suit(Sou, 7));
    hand.closed_tiles.push(Tile::Suit(Sou, 9));
    hand.closed_tiles.push(Tile::Suit(Man, 1));
    hand.closed_tiles.push(Tile::Suit(Man, 3));
    hand.closed_tiles.push(Tile::Suit(Man, 5));
    hand.closed_tiles.push(Tile::Suit(Man, 7));
    hand.closed_tiles.push(Tile::Suit(Man, 9));
    hand.closed_tiles.push(Tile::Suit(Pin, 5));
    hand.closed_tiles.push(Tile::Suit(Pin, 7));
    hand.closed_tiles.push(Tile::Suit(Pin, 9));
    assert!(hand.winning().is_none())
}

#[test]
fn empty_hand_is_not_complete() {
    let hand = Hand::new();
    assert!(hand.winning().is_none());
}

#[test]
fn lone_triplet_is_not_complete() {
    let mut hand = Hand::new();
    for _ in 0..3 {
        hand.closed_tiles.push(Tile::Suit(Pin, 5));
    }
    assert!(hand.winning().is_none());
}

#[test]
fn winning_melds_and_pair_cover_the_hand() {
    // Two of a kind plus a run: the split returned is the run and the pair.
    let mut hand = Hand::new();
    hand.closed_tiles.push(Tile::Suit(Pin, 3));
    hand.closed_tiles.push(Tile::Suit(Sou, 1));
    hand.closed_tiles.push(Tile::Suit(Pin, 1));
    hand.closed_tiles.push(Tile::Suit(Sou, 1));
    hand.closed_tiles.push(Tile::Suit(Pin, 2));
    let (melds, pair) = hand.winning().unwrap();
    assert_eq!(pair, Tile::Suit(Sou, 1));
    assert_eq!(
        melds,
        vec![mahjong::meld::Meld::Chow(
            Tile::Suit(Pin, 1),
            Tile::Suit(Pin, 2),
            Tile::Suit(Pin, 3)
        )]
    );
}

#[test]
fn search_backtracks_past_first_meld() {
    // The triplet of Sou 1 is tried first and leaves 2, 3 unusable; the search must back up
    // and use 1-2-3 with the pair of Sou 1 instead.
    let mut hand = Hand::new();
    for t in [
        Tile::Suit(Sou, 1),
        Tile::Suit(Sou, 1),
        Tile::Suit(Sou, 1),
        Tile::Suit(Sou, 2),
        Tile::Suit(Sou, 3),
    ] {
        hand.closed_tiles.push(t);
    }
    assert!(hand.winning().is_some());
}

#[test]
fn winning_split_holds_every_tile() {
    let mut hand = Hand::new();
    for t in [
        Tile::Suit(Man, 7),
        Tile::Suit(Man, 7),
        Tile::Suit(Man, 7),
        Tile::Suit(Man, 8),
        Tile::Suit(Man, 9),
        Tile::Suit(Pin, 4),
        Tile::Suit(Pin, 4),
        Tile::Suit(Pin, 4),
    ] {
        hand.closed_tiles.push(t);
    }
    let (melds, pair) = hand.winning().unwrap();
    let mut tiles = vec![pair, pair];
    for m in &melds {
        match *m {
            mahjong::meld::Meld::Pung(t) => tiles.extend([t, t, t]),
            mahjong::meld::Meld::Chow(a, b, c) => tiles.extend([a, b, c]),
        }
    }
    let key = |t: &Tile| t.kind();
    let mut expected = hand.closed_tiles.clone();
    expected.sort_by_key(key);
    tiles.sort_by_key(key);
    assert_eq!(tiles, expected);
}
