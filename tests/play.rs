use mahjong::calculation::ProvisionalHand;
use mahjong::game::{Game, GameTurnState, TilePile};
use mahjong::player::{ClosedHand, DiscardState, Player, TurnState};
use mahjong::tile::{Dragon, Suit, Tile, Wind};

fn suited(suit: Suit, rank: i8) -> Tile {
    Tile::Suit(suit, rank)
}

/// Thirteen tiles waiting on a Red dragon to complete four runs and a pair.
fn waiting_hand() -> Vec<Tile> {
    let mut tiles = Vec::new();
    for (s, v) in [(Suit::Man, 1), (Suit::Man, 6), (Suit::Sou, 3), (Suit::Pin, 4)] {
        for r in v..v + 3 {
            tiles.push(suited(s, r));
        }
    }
    tiles.push(Tile::Dragon(Dragon::Red));
    tiles
}

#[test]
fn closed_hand_add_and_discard() {
    let mut hand = ClosedHand { tiles: vec![] };
    hand.add_tile(suited(Suit::Pin, 2));
    hand.add_tile(suited(Suit::Pin, 3));
    hand.add_tile(suited(Suit::Pin, 2));
    assert!(!hand.needs_discard());
    assert_eq!(hand.discard_tile(&suited(Suit::Pin, 2)), Some(suited(Suit::Pin, 2)));
    assert_eq!(hand.tiles, vec![suited(Suit::Pin, 3), suited(Suit::Pin, 2)]);
}

#[test]
fn discarding_an_absent_tile_fails() {
    let mut hand = ClosedHand { tiles: vec![suited(Suit::Pin, 2)] };
    assert_eq!(hand.discard_tile(&suited(Suit::Sou, 2)), None);
    assert_eq!(hand.tiles, vec![suited(Suit::Pin, 2)]);
}

#[test]
fn needs_discard_above_thirteen() {
    let mut hand = ClosedHand { tiles: waiting_hand() };
    assert!(!hand.needs_discard());
    hand.add_tile(Tile::Wind(Wind::North));
    assert!(hand.needs_discard());
}

#[test]
fn draw_only_grows_the_hand() {
    let mut player = Player::new();
    let before = player.hand.tiles.len();
    assert!(matches!(player.turn(suited(Suit::Man, 1)), TurnState::Draw));
    assert_eq!(player.hand.tiles.len(), before + 1);
}

#[test]
fn discard_keeps_the_hand_size() {
    let mut player = Player::new();
    player.hand.tiles = waiting_hand();
    let before = player.hand.tiles.len();
    match player.turn(Tile::Wind(Wind::North)) {
        TurnState::Discard(t) => assert_eq!(t, Tile::Wind(Wind::North)),
        _ => panic!("expected a discard"),
    }
    assert_eq!(player.hand.tiles.len(), before);
}

#[test]
fn drawing_the_winning_tile_is_tsumo() {
    let mut player = Player::new();
    player.hand.tiles = waiting_hand();
    assert!(matches!(player.turn(Tile::Dragon(Dragon::Red)), TurnState::Tsumo));
    assert_eq!(player.hand.tiles.len(), 14);
}

#[test]
fn offered_winning_discard_is_ron() {
    let mut player = Player::new();
    player.hand.tiles = waiting_hand();
    assert!(matches!(player.offer_discard(Tile::Wind(Wind::East)), DiscardState::Pass));
    assert_eq!(player.hand.tiles.len(), 13);
    assert!(matches!(player.offer_discard(Tile::Dragon(Dragon::Red)), DiscardState::Ron));
    assert_eq!(player.hand.tiles.len(), 14);
    assert!(ProvisionalHand::new(&player.hand.tiles).winning());
}

#[test]
fn tile_pile_draw_and_discard() {
    let mut pile = TilePile { discards: vec![], tiles: vec![suited(Suit::Sou, 1), suited(Suit::Sou, 2)] };
    assert!(pile.has_tiles());
    assert_eq!(pile.draw(), Some(suited(Suit::Sou, 2)));
    pile.discard(suited(Suit::Sou, 2));
    assert_eq!(pile.discards, vec![suited(Suit::Sou, 2)]);
    assert_eq!(pile.draw(), Some(suited(Suit::Sou, 1)));
    assert!(!pile.has_tiles());
    assert_eq!(pile.draw(), None);
}

#[test]
fn new_game_has_a_shuffled_full_wall() {
    let game = Game::new();
    assert_eq!(game.tile_pile.tiles.len(), 136);
    let mut counts = vec![0usize; 34];
    for t in &game.tile_pile.tiles {
        counts[t.kind()] += 1;
    }
    assert!(counts.iter().all(|&c| c == 4));
    let canonical: Vec<Tile> = (0..4).flat_map(|_| (0..34).map(Tile::from_kind)).collect();
    assert_ne!(game.tile_pile.tiles, canonical);
    assert_eq!(game.current_round, Wind::East);
    let winds: Vec<Wind> = game.players.iter().map(|p| p.wind()).collect();
    assert_eq!(winds, vec![Wind::North, Wind::East, Wind::South, Wind::West]);
}

#[test]
fn turn_draws_and_passes_play() {
    let mut game = Game::new();
    assert!(matches!(game.turn(), GameTurnState::Continue));
    assert_eq!(game.tile_pile.tiles.len(), 135);
    assert_eq!(game.players[1].player.hand.tiles.len(), 1);
    assert_eq!(game.current_round, Wind::North);
}

#[test]
fn exhausted_wall_only_passes_play() {
    let mut game = Game::new();
    game.tile_pile.tiles.clear();
    assert!(matches!(game.turn(), GameTurnState::Continue));
    assert_eq!(game.current_round, Wind::North);
}

#[test]
fn self_draw_ends_the_game() {
    let mut game = Game::new();
    game.players[1].player.hand.tiles = waiting_hand();
    game.tile_pile.tiles.push(Tile::Dragon(Dragon::Red));
    match game.turn() {
        GameTurnState::Win(w) => assert_eq!(w, Wind::East),
        _ => panic!("expected a win"),
    }
    assert_eq!(game.current_round, Wind::East);
}

#[test]
fn discard_offered_to_another_seat_wins_by_ron() {
    let mut game = Game::new();
    let mut east = waiting_hand();
    east[12] = Tile::Dragon(Dragon::White);
    game.players[1].player.hand.tiles = east;
    game.players[2].player.hand.tiles = waiting_hand();
    // East draws a North wind, which floats and is discarded; nobody wants it.
    game.tile_pile.tiles.push(Tile::Wind(Wind::North));
    assert!(matches!(game.turn(), GameTurnState::Continue));
    assert_eq!(game.players[1].discards, vec![Tile::Wind(Wind::North)]);
    // North, to play next, draws a Red dragon that fits nothing, discards it, and South,
    // waiting on it, takes it.
    game.players[0].player.hand.tiles = vec![
        suited(Suit::Pin, 1),
        suited(Suit::Pin, 2),
        suited(Suit::Pin, 3),
        suited(Suit::Man, 4),
        suited(Suit::Man, 5),
        suited(Suit::Man, 6),
        suited(Suit::Sou, 1),
        suited(Suit::Sou, 2),
        suited(Suit::Sou, 3),
        Tile::Wind(Wind::East),
        Tile::Wind(Wind::East),
        suited(Suit::Sou, 7),
        suited(Suit::Sou, 8),
    ];
    game.tile_pile.tiles.push(Tile::Dragon(Dragon::Red));
    match game.turn() {
        GameTurnState::Win(w) => assert_eq!(w, Wind::South),
        _ => panic!("expected a win"),
    }
    assert_eq!(game.players[2].player.hand.tiles.len(), 14);
}

#[test]
fn wind_order() {
    assert_eq!(Wind::East.next(), Wind::South);
    assert_eq!(Wind::North.next(), Wind::East);
}
