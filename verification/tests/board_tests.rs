use battle_marine::board::{can_place_ship, place_ship, process_shot, setup_board, Board, Cell};
use battle_marine::render::display_board;

fn cell(b: &Board, x: usize, y: usize) -> Cell {
    b.cells[y * 10 + x]
}

#[test]
fn new_board_is_empty() {
    let b = Board::new();
    for y in 0..10 {
        for x in 0..10 {
            assert_eq!(cell(&b, x, y), Cell::Empty);
        }
    }
}

#[test]
fn place_ship_marks_span_only() {
    let mut b = Board::new();
    place_ship(&mut b, 2, 5, 3, true);
    for y in 0..10 {
        for x in 0..10 {
            let expected = if y == 5 && (2..5).contains(&x) {
                Cell::ShipPart
            } else {
                Cell::Empty
            };
            assert_eq!(cell(&b, x, y), expected);
        }
    }
}

#[test]
fn can_place_respects_bounds() {
    let b = Board::new();
    assert!(can_place_ship(&b, 6, 0, 4, true));
    assert!(!can_place_ship(&b, 7, 0, 4, true));
    assert!(can_place_ship(&b, 0, 6, 4, false));
    assert!(!can_place_ship(&b, 0, 7, 4, false));
}

#[test]
fn can_place_enforces_one_cell_buffer() {
    let mut b = Board::new();
    place_ship(&mut b, 4, 4, 1, true);
    for x in 3..6 {
        for y in 3..6 {
            assert!(!can_place_ship(&b, x, y, 1, true), "({}, {})", x, y);
        }
    }
    assert!(can_place_ship(&b, 6, 4, 1, true));
    assert!(can_place_ship(&b, 2, 4, 1, false));
    assert!(can_place_ship(&b, 2, 4, 3, false));
    assert!(!can_place_ship(&b, 3, 4, 3, false));
    assert!(!can_place_ship(&b, 3, 3, 3, true));
}

#[test]
fn shot_on_empty_cell_is_a_miss() {
    let mut b = Board::new();
    assert_eq!(process_shot(&mut b, 0, 0), (false, false));
    assert_eq!(cell(&b, 0, 0), Cell::Miss);
}

#[test]
fn shot_on_single_cell_ship_sinks_it() {
    let mut b = Board::new();
    place_ship(&mut b, 3, 3, 1, true);
    assert_eq!(process_shot(&mut b, 3, 3), (true, true));
    assert_eq!(cell(&b, 3, 3), Cell::Hit);
}

#[test]
fn reshooting_a_miss_changes_nothing() {
    let mut b = Board::new();
    assert_eq!(process_shot(&mut b, 7, 2), (false, false));
    let before = b.cells.clone();
    assert_eq!(process_shot(&mut b, 7, 2), (false, false));
    assert_eq!(b.cells, before);
}

#[test]
fn reshooting_a_hit_changes_nothing() {
    let mut b = Board::new();
    place_ship(&mut b, 3, 3, 1, true);
    assert_eq!(process_shot(&mut b, 3, 3), (true, true));
    let before = b.cells.clone();
    assert_eq!(process_shot(&mut b, 3, 3), (false, false));
    assert_eq!(b.cells, before);
}

#[test]
fn ship_sinks_exactly_on_last_hit_left_to_right() {
    let mut b = Board::new();
    place_ship(&mut b, 2, 5, 3, true);
    assert_eq!(process_shot(&mut b, 2, 5), (true, false));
    assert_eq!(process_shot(&mut b, 3, 5), (true, false));
    assert_eq!(process_shot(&mut b, 4, 5), (true, true));
}

#[test]
fn ship_sinks_exactly_on_last_hit_out_of_order() {
    let mut b = Board::new();
    place_ship(&mut b, 2, 5, 3, true);
    assert_eq!(process_shot(&mut b, 4, 5), (true, false));
    assert_eq!(process_shot(&mut b, 2, 5), (true, false));
    assert_eq!(process_shot(&mut b, 3, 5), (true, true));
}

#[test]
fn vertical_ship_sinks_from_middle() {
    let mut b = Board::new();
    place_ship(&mut b, 8, 1, 4, false);
    assert_eq!(process_shot(&mut b, 8, 2), (true, false));
    assert_eq!(process_shot(&mut b, 8, 4), (true, false));
    assert_eq!(process_shot(&mut b, 8, 1), (true, false));
    assert_eq!(process_shot(&mut b, 8, 3), (true, true));
}

#[test]
fn misses_next_to_a_ship_do_not_sink_it() {
    let mut b = Board::new();
    place_ship(&mut b, 0, 0, 2, true);
    assert_eq!(process_shot(&mut b, 0, 1), (false, false));
    assert_eq!(process_shot(&mut b, 0, 0), (true, false));
    assert_eq!(process_shot(&mut b, 1, 0), (true, true));
}

fn component_sizes(b: &Board) -> Vec<usize> {
    let mut seen = [[false; 10]; 10];
    let mut sizes: Vec<usize> = Vec::new();
    for y in 0..10 {
        for x in 0..10 {
            if cell(b, x, y) == Cell::ShipPart && !seen[y][x] {
                let mut size = 0;
                let mut stack = vec![(x, y)];
                while let Some((cx, cy)) = stack.pop() {
                    if seen[cy][cx] || cell(b, cx, cy) != Cell::ShipPart {
                        continue;
                    }
                    seen[cy][cx] = true;
                    size += 1;
                    if cx > 0 {
                        stack.push((cx - 1, cy));
                    }
                    if cx < 9 {
                        stack.push((cx + 1, cy));
                    }
                    if cy > 0 {
                        stack.push((cx, cy - 1));
                    }
                    if cy < 9 {
                        stack.push((cx, cy + 1));
                    }
                }
                sizes.push(size);
            }
        }
    }
    sizes.sort();
    sizes
}

#[test]
fn setup_board_places_the_whole_fleet() {
    for _ in 0..20 {
        let mut b = Board::new();
        assert!(setup_board(&mut b));
        let mut parts = 0;
        for y in 0..10 {
            for x in 0..10 {
                let c = cell(&b, x, y);
                assert!(c == Cell::Empty || c == Cell::ShipPart);
                if c == Cell::ShipPart {
                    parts += 1;
                }
            }
        }
        assert_eq!(parts, 20);
        assert_eq!(component_sizes(&b), vec![1, 1, 1, 1, 2, 2, 2, 3, 3, 4]);
    }
}

#[test]
fn setup_board_keeps_diagonal_buffers() {
    let mut b = Board::new();
    assert!(setup_board(&mut b));
    // no ship cell may touch a cell of another ship, diagonals
    // included: every pair of adjacent ship cells must be in line
    // with a common ship, so any 2x2 square holding two diagonal
    // ship cells without their orthogonal companions is a violation
    for y in 0..9 {
        for x in 0..9 {
            let a = cell(&b, x, y) == Cell::ShipPart;
            let r = cell(&b, x + 1, y) == Cell::ShipPart;
            let d = cell(&b, x, y + 1) == Cell::ShipPart;
            let rd = cell(&b, x + 1, y + 1) == Cell::ShipPart;
            assert!(!(a && rd && !r && !d));
            assert!(!(r && d && !a && !rd));
        }
    }
}

#[test]
fn two_random_fleets_differ() {
    let mut b1 = Board::new();
    let mut b2 = Board::new();
    assert!(setup_board(&mut b1));
    assert!(setup_board(&mut b2));
    let mut same = true;
    for i in 0..100 {
        if b1.cells[i] != b2.cells[i] {
            same = false;
        }
    }
    let mut b3 = Board::new();
    assert!(setup_board(&mut b3));
    let mut same13 = true;
    for i in 0..100 {
        if b1.cells[i] != b3.cells[i] {
            same13 = false;
        }
    }
    assert!(!same || !same13);
}

#[test]
fn display_empty_board() {
    let b = Board::new();
    let empty_row = ". . . . . . . . . . \n";
    let mut expected = String::from("   A B C D E F G H I J\n");
    let labels = [" 1 ", " 2 ", " 3 ", " 4 ", " 5 ", " 6 ", " 7 ", " 8 ", " 9 ", "10 "];
    for label in labels {
        expected.push_str(label);
        expected.push_str(empty_row);
    }
    assert_eq!(display_board(&b, false), expected);
    assert_eq!(display_board(&b, true), expected);
}

#[test]
fn display_shows_ships_hits_and_misses() {
    let mut b = Board::new();
    place_ship(&mut b, 0, 0, 2, true);
    process_shot(&mut b, 0, 0);
    process_shot(&mut b, 5, 0);
    let own = display_board(&b, false);
    let first_row: &str = own.lines().nth(1).unwrap();
    assert_eq!(first_row, " 1 X S . . . O . . . . ");
    let hidden = display_board(&b, true);
    let hidden_row: &str = hidden.lines().nth(1).unwrap();
    assert_eq!(hidden_row, " 1 X . . . . O . . . . ");
}
