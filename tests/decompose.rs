use mahjong::calculation::ProvisionalHand;
use mahjong::hand::Hand;
use mahjong::meld::{form_protorun, Meld, Protorun};
use mahjong::tile::{Dragon, Suit, Tile, Wind};

fn suited(suit: Suit, rank: i8) -> Tile {
    Tile::Suit(suit, rank)
}

fn gen_chii(suit: Suit, start: i8) -> Vec<Tile> {
    (start..start + 3).map(|v| suited(suit, v)).collect()
}

fn gen_x_copies(tile: Tile, x: usize) -> Vec<Tile> {
    (0..x).map(|_| tile).collect()
}

fn kind_counts(tiles: &[Tile]) -> Vec<usize> {
    let mut counts = vec![0usize; 34];
    for t in tiles {
        counts[t.kind()] += 1;
    }
    counts
}

fn flat_tiles(hand: &ProvisionalHand) -> Vec<Tile> {
    let mut all = Vec::new();
    for m in &hand.melds {
        match *m {
            Meld::Pung(t) => all.extend([t, t, t]),
            Meld::Chow(a, b, c) => all.extend([a, b, c]),
        }
    }
    let two = |p: &Protorun| match *p {
        Protorun::Side(a, b) | Protorun::Closed(a, b) | Protorun::Edge(a, b) | Protorun::Pair(a, b) => [a, b],
    };
    if let Some(p) = &hand.pair {
        all.extend(two(p));
    }
    for p in &hand.protoruns {
        all.extend(two(p));
    }
    all.extend(hand.floating.iter().copied());
    all
}

fn four_runs_and_a_pair() -> Vec<Tile> {
    let mut hand = Vec::new();
    hand.extend(gen_chii(Suit::Man, 1));
    hand.extend(gen_chii(Suit::Man, 6));
    hand.extend(gen_chii(Suit::Sou, 3));
    hand.extend(gen_chii(Suit::Pin, 4));
    hand.extend(gen_x_copies(Tile::Dragon(Dragon::Red), 2));
    hand
}

#[test]
fn it_works() {
    let mut hand = Vec::new();
    hand.extend(gen_chii(Suit::Man, 1));
    hand.extend(gen_chii(Suit::Man, 6));
    hand.extend(gen_chii(Suit::Sou, 3));
    hand.extend(gen_chii(Suit::Pin, 4));
    hand.extend(gen_x_copies(Tile::Dragon(Dragon::Red), 2));
    assert_eq!(ProvisionalHand::new(&hand).winning(), true);

    let mut hand = Vec::new();
    hand.extend(gen_chii(Suit::Man, 1));
    hand.extend(gen_chii(Suit::Man, 6));
    hand.extend(gen_chii(Suit::Sou, 3));
    hand.extend(gen_x_copies(Tile::Dragon(Dragon::Red), 2));
    hand.push(suited(Suit::Pin, 4));
    hand.push(suited(Suit::Pin, 6));
    hand.push(suited(Suit::Pin, 7));
    assert_eq!(ProvisionalHand::new(&hand).winning(), false)
}

#[test]
fn chow_included() {
    let tiles = vec![
        suited(Suit::Sou, 1),
        suited(Suit::Sou, 2),
        suited(Suit::Sou, 3),
        suited(Suit::Man, 1),
        suited(Suit::Man, 2),
        suited(Suit::Man, 3),
    ];
    assert_eq!(
        Meld::Chow(suited(Suit::Man, 1), suited(Suit::Man, 2), suited(Suit::Man, 3)).included(&tiles),
        true
    );
    assert_eq!(
        Meld::Chow(suited(Suit::Man, 2), suited(Suit::Man, 3), suited(Suit::Man, 4)).included(&tiles),
        false
    )
}

#[test]
fn proto_included() {
    let tiles = vec![
        suited(Suit::Sou, 1),
        suited(Suit::Sou, 2),
        suited(Suit::Sou, 3),
        suited(Suit::Man, 1),
        suited(Suit::Man, 2),
        suited(Suit::Man, 3),
    ];
    assert_eq!(
        form_protorun(suited(Suit::Man, 1), suited(Suit::Man, 3)).unwrap().included(&tiles),
        true
    );
    assert_eq!(
        form_protorun(suited(Suit::Man, 3), suited(Suit::Man, 4)).unwrap().included(&tiles),
        false
    )
}

#[test]
fn test_melds() {
    let tile = suited(Suit::Man, 8);
    let gen_chow = |v: i8| Meld::Chow(suited(Suit::Man, v), suited(Suit::Man, v + 1), suited(Suit::Man, v + 2));
    assert_eq!(tile.possible_melds().contains(&Meld::Pung(tile)), true);
    assert_eq!(tile.possible_melds().contains(&gen_chow(5)), false);
    assert_eq!(tile.possible_melds().contains(&gen_chow(6)), true);
    assert_eq!(tile.possible_melds().contains(&gen_chow(7)), true);
    assert_eq!(tile.possible_melds().contains(&gen_chow(8)), false);
    let tile = suited(Suit::Man, 9);
    assert_eq!(tile.possible_melds().contains(&gen_chow(6)), false);
    assert_eq!(tile.possible_melds().contains(&gen_chow(7)), true);
}

#[test]
fn tile_values_work() {
    let x = Tile::Wind(Wind::South);
    println!("{:?}", x);
}

#[test]
fn possible_melds_order_and_clamp() {
    let t = suited(Suit::Pin, 1);
    assert_eq!(
        t.possible_melds(),
        vec![Meld::Pung(t), Meld::Chow(suited(Suit::Pin, 1), suited(Suit::Pin, 2), suited(Suit::Pin, 3))]
    );
    let t = suited(Suit::Sou, 5);
    assert_eq!(t.possible_melds().len(), 4);
    assert_eq!(t.possible_melds()[0], Meld::Pung(t));
    let honor = Tile::Wind(Wind::East);
    assert_eq!(honor.possible_melds(), vec![Meld::Pung(honor)]);
}

#[test]
fn possible_protoruns_of_tiles() {
    let honor = Tile::Dragon(Dragon::White);
    assert_eq!(honor.possible_protoruns(), vec![Protorun::Pair(honor, honor)]);
    let t = suited(Suit::Man, 1);
    assert_eq!(
        t.possible_protoruns(),
        vec![
            Protorun::Pair(t, t),
            Protorun::Side(t, suited(Suit::Man, 2)),
            Protorun::Edge(t, suited(Suit::Man, 3)),
        ]
    );
    assert_eq!(suited(Suit::Pin, 5).possible_protoruns().len(), 5);
}

#[test]
fn protorun_classification() {
    let m = |r| suited(Suit::Man, r);
    assert_eq!(form_protorun(m(4), m(4)), Some(Protorun::Pair(m(4), m(4))));
    assert_eq!(form_protorun(m(5), m(4)), Some(Protorun::Side(m(5), m(4))));
    assert_eq!(form_protorun(m(3), m(1)), Some(Protorun::Edge(m(3), m(1))));
    assert_eq!(form_protorun(m(9), m(7)), Some(Protorun::Edge(m(9), m(7))));
    let s3 = suited(Suit::Sou, 3);
    let first = s3.possible_protoruns()[0];
    assert_eq!(first, Protorun::Edge(s3, suited(Suit::Sou, 1)));
    assert_eq!(form_protorun(m(7), m(9)), Some(Protorun::Edge(m(7), m(9))));
    assert_eq!(form_protorun(m(3), m(5)), Some(Protorun::Closed(m(3), m(5))));
    assert_eq!(form_protorun(m(3), m(6)), None);
    assert_eq!(form_protorun(m(3), suited(Suit::Pin, 4)), None);
    assert_eq!(form_protorun(Tile::Wind(Wind::East), Tile::Wind(Wind::West)), None);
    assert!(Protorun::Edge(m(1), m(3)).is_edge());
    assert!(Protorun::Closed(m(2), m(4)).is_closed());
    assert!(Protorun::Side(m(2), m(3)).is_side());
    assert!(Protorun::Pair(m(2), m(2)).is_pair());
    assert!(!Protorun::Pair(m(2), m(2)).is_side());
}

#[test]
fn pair_needs_two_copies() {
    let m = |r| suited(Suit::Man, r);
    assert!(!Protorun::Pair(m(2), m(2)).included(&vec![m(2), m(3)]));
    assert!(Protorun::Pair(m(2), m(2)).included(&vec![m(2), m(3), m(2)]));
    assert!(!Meld::Pung(m(2)).included(&vec![m(2), m(2)]));
}

#[test]
fn decomposition_of_a_complete_hand() {
    let hand = ProvisionalHand::new(&four_runs_and_a_pair());
    let chow = |s: Suit, v: i8| Meld::Chow(suited(s, v), suited(s, v + 1), suited(s, v + 2));
    assert_eq!(
        hand.melds,
        vec![chow(Suit::Pin, 4), chow(Suit::Man, 1), chow(Suit::Man, 6), chow(Suit::Sou, 3)]
    );
    let red = Tile::Dragon(Dragon::Red);
    assert_eq!(hand.pair, Some(Protorun::Pair(red, red)));
    assert!(hand.protoruns.is_empty());
    assert!(hand.floating.is_empty());
    assert!(hand.winning());
}

#[test]
fn conservation_on_a_mixed_hand() {
    let tiles = vec![
        suited(Suit::Man, 1),
        suited(Suit::Sou, 4),
        Tile::Wind(Wind::North),
        suited(Suit::Man, 3),
        suited(Suit::Pin, 9),
        suited(Suit::Sou, 5),
        suited(Suit::Man, 2),
        Tile::Dragon(Dragon::Green),
        Tile::Dragon(Dragon::Green),
        suited(Suit::Pin, 9),
        suited(Suit::Pin, 9),
        suited(Suit::Sou, 8),
        Tile::Wind(Wind::North),
    ];
    let hand = ProvisionalHand::new(&tiles);
    let all = flat_tiles(&hand);
    assert_eq!(all.len(), tiles.len());
    assert_eq!(kind_counts(&all), kind_counts(&tiles));
}

#[test]
fn decomposition_ignores_tile_order() {
    let tiles = four_runs_and_a_pair();
    let mut reversed = tiles.clone();
    reversed.reverse();
    let a = ProvisionalHand::new(&tiles);
    let b = ProvisionalHand::new(&reversed);
    assert_eq!(a.melds, b.melds);
    assert_eq!(a.pair, b.pair);
    assert_eq!(a.protoruns, b.protoruns);
    assert_eq!(a.floating, b.floating);
}

#[test]
fn redecomposing_gives_the_same_decomposition() {
    let tiles = vec![
        suited(Suit::Sou, 4),
        suited(Suit::Sou, 1),
        suited(Suit::Sou, 2),
        suited(Suit::Sou, 3),
        suited(Suit::Pin, 6),
        suited(Suit::Pin, 8),
        Tile::Wind(Wind::East),
        suited(Suit::Man, 5),
        suited(Suit::Man, 5),
    ];
    let first = ProvisionalHand::new(&tiles);
    let again = ProvisionalHand::new(&flat_tiles(&first));
    assert_eq!(first.melds, again.melds);
    assert_eq!(first.pair, again.pair);
    assert_eq!(first.protoruns, again.protoruns);
    assert_eq!(first.floating, again.floating);
}

#[test]
fn simple_run_and_pair_hand_wins() {
    let mut tiles = vec![
        suited(Suit::Sou, 1),
        suited(Suit::Sou, 1),
        suited(Suit::Sou, 1),
        suited(Suit::Pin, 1),
        suited(Suit::Pin, 2),
        suited(Suit::Pin, 3),
    ];
    tiles.extend(gen_chii(Suit::Man, 4));
    tiles.extend(gen_chii(Suit::Man, 7));
    tiles.extend(gen_x_copies(Tile::Dragon(Dragon::Red), 2));
    assert_eq!(tiles.len(), 14);
    assert!(ProvisionalHand::new(&tiles).winning());
    assert!(Hand { closed_tiles: tiles }.winning().is_some());
}

#[test]
fn near_miss_discards_a_floating_tile() {
    let mut tiles = four_runs_and_a_pair();
    assert!(ProvisionalHand::new(&tiles).winning());
    tiles[13] = Tile::Wind(Wind::East);
    let hand = ProvisionalHand::new(&tiles);
    assert!(!hand.winning());
    let d = hand.to_discard().unwrap();
    assert!(hand.floating.contains(&d));
    assert_eq!(hand.floating, vec![Tile::Wind(Wind::East), Tile::Dragon(Dragon::Red)]);
    assert_eq!(d, Tile::Wind(Wind::East));
    assert!(Hand { closed_tiles: tiles }.winning().is_none());
}

#[test]
fn edge_protorun_is_discarded_before_side() {
    let mut tiles = vec![
        suited(Suit::Man, 1),
        suited(Suit::Man, 3),
        suited(Suit::Pin, 4),
        suited(Suit::Pin, 5),
    ];
    tiles.extend(gen_chii(Suit::Sou, 2));
    tiles.extend(gen_chii(Suit::Sou, 5));
    tiles.extend(gen_x_copies(Tile::Wind(Wind::East), 3));
    let hand = ProvisionalHand::new(&tiles);
    assert!(hand.floating.is_empty());
    assert_eq!(
        hand.protoruns,
        vec![
            Protorun::Side(suited(Suit::Pin, 4), suited(Suit::Pin, 5)),
            Protorun::Edge(suited(Suit::Man, 1), suited(Suit::Man, 3)),
        ]
    );
    assert_eq!(hand.first_protorun(), Some(suited(Suit::Man, 1)));
    assert_eq!(hand.to_discard(), Some(suited(Suit::Man, 1)));
}

#[test]
fn weakest_protorun_ties_go_to_the_earliest() {
    let m = |r| suited(Suit::Man, r);
    let hand = ProvisionalHand {
        melds: vec![],
        pair: None,
        protoruns: vec![
            Protorun::Side(m(4), m(5)),
            Protorun::Closed(m(2), m(4)),
            Protorun::Pair(m(7), m(7)),
            Protorun::Closed(m(5), m(7)),
        ],
        floating: vec![],
    };
    assert_eq!(hand.first_protorun(), Some(m(2)));
}

#[test]
fn fallback_discard_and_empty_decomposition() {
    let melded = ProvisionalHand::new(&gen_chii(Suit::Pin, 3));
    assert!(melded.floating.is_empty() && melded.protoruns.is_empty());
    assert_eq!(melded.to_discard(), Some(suited(Suit::Pin, 3)));
    let empty = ProvisionalHand::new(&vec![]);
    assert_eq!(empty.to_discard(), None);
    assert_eq!(empty.first_protorun(), None);
    assert!(!empty.winning());
}

#[test]
fn greedy_pass_misses_a_split_the_recursive_check_finds() {
    // The meld pass commits to the triplet of Sou 1 and strands Sou 2 and 3.
    let mut tiles = vec![
        suited(Suit::Sou, 1),
        suited(Suit::Sou, 1),
        suited(Suit::Sou, 1),
        suited(Suit::Sou, 2),
        suited(Suit::Sou, 3),
    ];
    tiles.extend(gen_chii(Suit::Pin, 1));
    tiles.extend(gen_chii(Suit::Pin, 4));
    tiles.extend(gen_chii(Suit::Man, 1));
    assert!(!ProvisionalHand::new(&tiles).winning());
    assert!(Hand { closed_tiles: tiles }.winning().is_some());
}

#[test]
fn next() {
    let tile = suited(Suit::Man, 8);
    assert_eq!(tile.next(), suited(Suit::Man, 9));
    let tile = suited(Suit::Man, 9);
    assert_eq!(tile.next(), suited(Suit::Man, 1));
}

#[test]
fn honors_cycle() {
    assert_eq!(Tile::Wind(Wind::West).next(), Tile::Wind(Wind::North));
    assert_eq!(Tile::Dragon(Dragon::Red).next(), Tile::Dragon(Dragon::Green));
    assert!(Tile::Dragon(Dragon::Red).is_honor());
    assert!(!suited(Suit::Pin, 5).is_honor());
}

#[test]
fn kind_numbers_round_trip() {
    for k in 0..34 {
        assert_eq!(Tile::from_kind(k).kind(), k);
    }
    assert_eq!(suited(Suit::Pin, 1).kind(), 0);
    assert_eq!(suited(Suit::Sou, 9).kind(), 26);
    assert_eq!(Tile::Dragon(Dragon::Red).kind(), 33);
}
