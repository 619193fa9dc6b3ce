use minesweeper::cell::{CellType, Marking};
use minesweeper::game_state::{GameState, Message};
use minesweeper::position::Position;

fn pos(row: usize, column: usize) -> Position {
    Position::new(row, column)
}

fn is_mine(board: &GameState, row: usize, column: usize) -> bool {
    match board.cell_at(&pos(row, column)) {
        Some(cell) => matches!(cell.cell_type, CellType::Mine),
        None => false,
    }
}

fn is_revealed(board: &GameState, row: usize, column: usize) -> bool {
    match board.cell_at(&pos(row, column)) {
        Some(cell) => cell.is_revealed,
        None => false,
    }
}

fn count_mines(board: &GameState) -> usize {
    let mut n = 0;
    for r in 0..=board.height {
        for c in 0..=board.width {
            if is_mine(board, r, c) {
                n += 1;
            }
        }
    }
    n
}

#[test]
fn grid_sizing_all_default() {
    let board = GameState::new(3, 2, 5);
    assert_eq!(board.width, 3);
    assert_eq!(board.height, 2);
    assert_eq!(board.mines, 5);
    assert!(!board.has_revealed_any);
    let mut cells = 0;
    for r in 0..=2 {
        for c in 0..=3 {
            let cell = board.cell_at(&pos(r, c)).unwrap();
            assert!(!cell.is_revealed);
            assert_eq!(cell.marking, Marking::Unmarked);
            assert_eq!(cell.cell_type, CellType::NonMine { neighbours: 0 });
            cells += 1;
        }
    }
    assert_eq!(cells, (3 + 1) * (2 + 1));
    assert!(board.cell_at(&pos(3, 0)).is_none());
    assert!(board.cell_at(&pos(0, 4)).is_none());
    assert!(board.cell_at(&Position { row: -1, column: 0 }).is_none());
}

#[test]
fn first_reveal_places_mines_outside_safe_zone() {
    let board_init = GameState::new(10, 8, 10);
    let mut board = board_init;
    board.update(Message::Reveal(pos(4, 4)));
    assert!(board.has_revealed_any);
    assert_eq!(count_mines(&board), 10);
    for r in 3..=5 {
        for c in 3..=5 {
            assert!(!is_mine(&board, r, c));
        }
    }
    assert!(is_revealed(&board, 4, 4));
}

#[test]
fn mine_count_clamps_to_eligible_cells() {
    // rows 0..=2, columns 0..=3: twelve cells, nine of them in the safe
    // zone around (1, 1), so only the three column-3 cells are eligible
    let mut board = GameState::new(3, 2, 50);
    board.update(Message::Reveal(pos(1, 1)));
    assert_eq!(count_mines(&board), 3);
    for r in 0..=2 {
        assert!(is_mine(&board, r, 3));
        for c in 0..=2 {
            assert!(!is_mine(&board, r, c));
        }
    }
}

#[test]
fn adjacency_counts_match_surrounding_mines() {
    let mut board = GameState::new(10, 8, 10);
    board.update(Message::Reveal(pos(4, 4)));
    for r in 0..=8i64 {
        for c in 0..=10i64 {
            let cell = board.cell_at(&pos(r as usize, c as usize)).unwrap();
            if let CellType::NonMine { neighbours } = cell.cell_type {
                let mut expected = 0;
                for dr in -1..=1i64 {
                    for dc in -1..=1i64 {
                        if (dr != 0 || dc != 0)
                            && r + dr >= 0
                            && c + dc >= 0
                            && is_mine(&board, (r + dr) as usize, (c + dc) as usize)
                        {
                            expected += 1;
                        }
                    }
                }
                assert_eq!(neighbours, expected);
            }
        }
    }
}

#[test]
fn flood_fill_covers_whole_zero_board() {
    let mut board = GameState::new(2, 2, 0);
    board.update(Message::Reveal(pos(0, 0)));
    for r in 0..=2 {
        for c in 0..=2 {
            assert!(is_revealed(&board, r, c));
        }
    }
}

#[test]
fn flood_fill_covers_mine_free_strip() {
    // width 2, height 0: three cells in one row, no mines
    let mut board = GameState::new(2, 0, 0);
    board.update(Message::Reveal(pos(0, 0)));
    assert!(is_revealed(&board, 0, 0));
    assert!(is_revealed(&board, 0, 1));
    assert!(is_revealed(&board, 0, 2));
}

#[test]
fn marking_cycles_back_in_three_toggles() {
    let mut board = GameState::new(2, 2, 0);
    let p = pos(1, 1);
    board.update(Message::ToggleMark(p));
    assert_eq!(board.cell_at(&p).unwrap().marking, Marking::Flag);
    board.update(Message::ToggleMark(p));
    assert_eq!(board.cell_at(&p).unwrap().marking, Marking::QuestionMark);
    board.update(Message::ToggleMark(p));
    assert_eq!(board.cell_at(&p).unwrap().marking, Marking::Unmarked);
}

#[test]
fn toggle_mark_outside_grid_is_a_no_op() {
    let mut board = GameState::new(2, 2, 0);
    board.update(Message::ToggleMark(pos(99, 99)));
    for r in 0..=2 {
        for c in 0..=2 {
            let cell = board.cell_at(&pos(r, c)).unwrap();
            assert_eq!(cell.marking, Marking::Unmarked);
            assert!(!cell.is_revealed);
        }
    }
}

#[test]
fn flagged_cell_is_protected_from_reveal() {
    let mut board = GameState::new(2, 2, 0);
    let p = pos(1, 1);
    board.update(Message::ToggleMark(p));
    board.update(Message::Reveal(p));
    let cell = board.cell_at(&p).unwrap();
    assert!(!cell.is_revealed);
    assert_eq!(cell.marking, Marking::Flag);
}

#[test]
fn question_marked_cell_is_protected_from_reveal() {
    let mut board = GameState::new(2, 2, 0);
    let p = pos(0, 2);
    board.update(Message::ToggleMark(p));
    board.update(Message::ToggleMark(p));
    board.update(Message::Reveal(p));
    let cell = board.cell_at(&p).unwrap();
    assert!(!cell.is_revealed);
    assert_eq!(cell.marking, Marking::QuestionMark);
}

#[test]
fn chord_blocked_by_extra_flag_then_opens_when_exact() {
    // mine-free strip: the flag on (0, 1) first stops the cascade, then
    // makes the chord gate fail with one flag against a count of zero
    let mut board = GameState::new(2, 0, 0);
    board.update(Message::ToggleMark(pos(0, 1)));
    board.update(Message::Reveal(pos(0, 0)));
    assert!(is_revealed(&board, 0, 0));
    assert!(!is_revealed(&board, 0, 1));
    assert!(!is_revealed(&board, 0, 2));

    board.update(Message::RevealSurrounding(pos(0, 0)));
    assert!(!is_revealed(&board, 0, 1));
    assert!(!is_revealed(&board, 0, 2));

    // clear the flag: zero flags match the zero count, so the chord opens
    // the neighbour and the cascade runs on
    board.update(Message::ToggleMark(pos(0, 1)));
    board.update(Message::ToggleMark(pos(0, 1)));
    board.update(Message::RevealSurrounding(pos(0, 0)));
    assert!(is_revealed(&board, 0, 1));
    assert!(is_revealed(&board, 0, 2));
}

#[test]
fn chord_needs_exactly_matching_flag_count() {
    // width 4, height 0, three mines: revealing (0, 4) leaves (0, 0),
    // (0, 1) and (0, 2) as the only eligible cells, so all three are mines
    let mut board = GameState::new(4, 0, 3);
    board.update(Message::Reveal(pos(0, 4)));
    assert!(is_mine(&board, 0, 0));
    assert!(is_mine(&board, 0, 1));
    assert!(is_mine(&board, 0, 2));
    assert!(is_revealed(&board, 0, 4));
    assert!(is_revealed(&board, 0, 3));
    let cell = board.cell_at(&pos(0, 3)).unwrap();
    assert_eq!(cell.cell_type, CellType::NonMine { neighbours: 1 });

    // zero flags against a count of one: nothing may open
    board.update(Message::RevealSurrounding(pos(0, 3)));
    assert!(!is_revealed(&board, 0, 2));
}

#[test]
fn chord_on_covered_or_mine_cell_is_a_no_op() {
    let mut board = GameState::new(4, 0, 3);
    board.update(Message::Reveal(pos(0, 4)));
    // covered target
    board.update(Message::RevealSurrounding(pos(0, 1)));
    assert!(!is_revealed(&board, 0, 0));
    assert!(!is_revealed(&board, 0, 2));
    // revealing a mine merely marks it revealed
    board.update(Message::Reveal(pos(0, 0)));
    assert!(is_revealed(&board, 0, 0));
    // a revealed mine never chords
    board.update(Message::RevealSurrounding(pos(0, 0)));
    assert!(!is_revealed(&board, 0, 1));
}

#[test]
fn flag_survives_mine_placement_in_safe_zone() {
    let mut board = GameState::new(10, 8, 10);
    board.update(Message::ToggleMark(pos(5, 5)));
    board.update(Message::Reveal(pos(4, 4)));
    let cell = board.cell_at(&pos(5, 5)).unwrap();
    assert!(!matches!(cell.cell_type, CellType::Mine));
    assert_eq!(cell.marking, Marking::Flag);
    assert!(!cell.is_revealed);
}

#[test]
fn reveal_outside_grid_is_a_no_op() {
    let mut board = GameState::new(2, 2, 0);
    board.update(Message::Reveal(pos(5, 5)));
    for r in 0..=2 {
        for c in 0..=2 {
            assert!(!is_revealed(&board, r, c));
        }
    }
}

#[test]
fn revealing_twice_changes_nothing_further() {
    let mut board = GameState::new(2, 0, 0);
    board.update(Message::Reveal(pos(0, 0)));
    let before: Vec<_> = (0..=2).map(|c| board.cell_at(&pos(0, c)).unwrap()).collect();
    board.update(Message::Reveal(pos(0, 0)));
    let after: Vec<_> = (0..=2).map(|c| board.cell_at(&pos(0, c)).unwrap()).collect();
    assert_eq!(before, after);
}
