use battle_marine::board::{place_ship, Board, Cell};
use battle_marine::parse::ParseError;
use battle_marine::session::{Session, TurnReply};

fn cell(b: &Board, x: usize, y: usize) -> Cell {
    b.cells[y * 10 + x]
}

#[test]
fn fresh_session_waits_for_players() {
    let s = Session::new();
    assert!(!s.game_started);
    assert_eq!(s.current_turn, 1);
    assert_eq!(s.ships1, 10);
    assert_eq!(s.ships2, 10);
    assert!(!s.is_ready());
    assert!(!s.is_my_turn(1));
    assert!(!s.is_my_turn(2));
    assert_eq!(s.is_over(), None);
}

#[test]
fn game_starts_when_both_register() {
    let mut s = Session::new();
    assert!(s.register(1));
    assert!(!s.game_started);
    assert!(!s.is_ready());
    assert!(s.register(2));
    assert!(s.is_ready());
    assert!(s.game_started);
    assert_eq!(s.current_turn, 1);
    assert!(s.is_my_turn(1));
    assert!(!s.is_my_turn(2));
}

#[test]
fn registration_places_twenty_ship_cells() {
    let mut s = Session::new();
    assert!(s.register(1));
    let parts = s
        .board1
        .cells
        .iter()
        .filter(|c| **c == Cell::ShipPart)
        .count();
    assert_eq!(parts, 20);
    let untouched = s
        .board2
        .cells
        .iter()
        .filter(|c| **c == Cell::Empty)
        .count();
    assert_eq!(untouched, 100);
}

#[test]
fn scenario_miss_on_e5_passes_the_turn() {
    let mut s = Session::new();
    assert!(s.register(1));
    assert!(s.register(2));
    assert!(s.game_started);
    assert_eq!(s.current_turn, 1);
    // pin the defender's board to a known layout with (4, 4) empty
    let mut defender = Board::new();
    place_ship(&mut defender, 0, 0, 1, true);
    s.board2 = defender;
    let reply = s.play_turn(1, "E5");
    assert_eq!(
        reply,
        TurnReply::Fired {
            hit: false,
            sunk: false
        }
    );
    assert_eq!(cell(&s.board2, 4, 4), Cell::Miss);
    assert_eq!(s.current_turn, 2);
    assert_eq!(s.remaining(1), 10);
    assert_eq!(s.remaining(2), 10);
    assert_eq!(s.is_over(), None);
}

#[test]
fn invalid_input_keeps_the_turn() {
    let mut s = Session::new();
    assert!(s.register(1));
    assert!(s.register(2));
    let board1_before = s.board1.cells.clone();
    let board2_before = s.board2.cells.clone();
    let reply = s.play_turn(1, "zz");
    assert_eq!(reply, TurnReply::Rejected(ParseError::LetterOutOfRange));
    assert_eq!(s.current_turn, 1);
    assert!(s.is_my_turn(1));
    assert_eq!(s.board1.cells, board1_before);
    assert_eq!(s.board2.cells, board2_before);
    let reply2 = s.play_turn(1, "A");
    assert_eq!(reply2, TurnReply::Rejected(ParseError::TooShort));
    assert_eq!(s.current_turn, 1);
}

#[test]
fn a_hit_also_passes_the_turn() {
    let mut s = Session::new();
    assert!(s.register(1));
    assert!(s.register(2));
    let mut defender = Board::new();
    place_ship(&mut defender, 0, 0, 2, true);
    s.board2 = defender;
    let reply = s.play_turn(1, "A1");
    assert_eq!(
        reply,
        TurnReply::Fired {
            hit: true,
            sunk: false
        }
    );
    assert_eq!(s.current_turn, 2);
    assert_eq!(s.remaining(2), 10);
}

#[test]
fn sinking_decrements_the_defender_counter() {
    let mut s = Session::new();
    assert!(s.register(1));
    assert!(s.register(2));
    let mut defender = Board::new();
    place_ship(&mut defender, 3, 3, 1, true);
    s.board2 = defender;
    let reply = s.play_turn(1, "D4");
    assert_eq!(
        reply,
        TurnReply::Fired {
            hit: true,
            sunk: true
        }
    );
    assert_eq!(s.remaining(2), 9);
    assert_eq!(s.remaining(1), 10);
    assert_eq!(s.is_over(), None);
}

#[test]
fn win_is_reported_for_the_right_player() {
    let mut s = Session::new();
    assert!(s.register(1));
    assert!(s.register(2));
    // player 2's last ship, one cell at H8; fleet counters say one
    // ship left on each side
    let mut defender = Board::new();
    place_ship(&mut defender, 7, 7, 1, true);
    s.board2 = defender;
    s.ships1 = 1;
    s.ships2 = 1;
    let reply = s.play_turn(1, "H8");
    assert_eq!(
        reply,
        TurnReply::Fired {
            hit: true,
            sunk: true
        }
    );
    assert_eq!(s.remaining(2), 0);
    assert_eq!(s.is_over(), Some(1));
    // the verdict is stable
    assert_eq!(s.is_over(), Some(1));
    assert_eq!(s.current_turn, 2);
}

#[test]
fn player_two_can_win_as_well() {
    let mut s = Session::new();
    assert!(s.register(1));
    assert!(s.register(2));
    let mut defender = Board::new();
    place_ship(&mut defender, 0, 9, 1, true);
    s.board1 = defender;
    s.ships1 = 1;
    s.current_turn = 2;
    let reply = s.play_turn(2, "a10");
    assert_eq!(
        reply,
        TurnReply::Fired {
            hit: true,
            sunk: true
        }
    );
    assert_eq!(s.remaining(1), 0);
    assert_eq!(s.is_over(), Some(2));
    assert_eq!(s.current_turn, 1);
}

#[test]
fn apply_shot_flips_turn_even_on_miss() {
    let mut s = Session::new();
    assert!(s.register(1));
    assert!(s.register(2));
    s.board2 = Board::new();
    s.board1 = Board::new();
    let r = s.apply_shot(1, 0, 0);
    assert_eq!(r, (false, false));
    assert_eq!(s.current_turn, 2);
    let r2 = s.apply_shot(2, 0, 0);
    assert_eq!(r2, (false, false));
    assert_eq!(s.current_turn, 1);
}

#[test]
fn third_registration_overwrites_a_slot() {
    let mut s = Session::new();
    assert!(s.register(1));
    assert!(s.register(2));
    let before = s.board1.cells.clone();
    assert!(s.register(1));
    assert!(s.game_started);
    // a fresh fleet was placed for the overwritten slot
    let parts = s
        .board1
        .cells
        .iter()
        .filter(|c| **c == Cell::ShipPart)
        .count();
    assert_eq!(parts, 20);
    let _ = before;
}
