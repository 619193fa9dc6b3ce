use minesweeper::cell::{Cell, CellType, CellView, Marking};
use minesweeper::game_state::{GameState, Message};
use minesweeper::position::Position;

#[test]
fn marking_next_steps_through_the_cycle() {
    assert_eq!(Marking::Unmarked.next(), Marking::Flag);
    assert_eq!(Marking::Flag.next(), Marking::QuestionMark);
    assert_eq!(Marking::QuestionMark.next(), Marking::Unmarked);
}

#[test]
fn default_cell_is_covered_and_empty() {
    let cell = Cell::default();
    assert!(!cell.is_revealed);
    assert_eq!(cell.marking, Marking::Unmarked);
    assert_eq!(cell.cell_type, CellType::NonMine { neighbours: 0 });
    assert_eq!(Marking::default(), Marking::Unmarked);
}

#[test]
fn mine_cell_is_covered_and_unmarked() {
    let cell = Cell::mine();
    assert!(!cell.is_revealed);
    assert_eq!(cell.marking, Marking::Unmarked);
    assert_eq!(cell.cell_type, CellType::Mine);
}

#[test]
fn position_new_keeps_coordinates() {
    let p = Position::new(3, 4);
    assert_eq!(p.row, 3);
    assert_eq!(p.column, 4);
}

#[test]
fn neighbours_are_the_eight_surrounding_positions() {
    let p = Position::new(1, 1);
    let ns = p.neighbours();
    assert_eq!(ns.len(), 8);
    for dr in -1..=1i32 {
        for dc in -1..=1i32 {
            let q = Position { row: 1 + dr, column: 1 + dc };
            if dr == 0 && dc == 0 {
                assert!(!ns.contains(&q));
            } else {
                assert!(ns.contains(&q));
            }
        }
    }
}

#[test]
fn view_hides_covered_content_and_shows_revealed_content() {
    let mut board = GameState::new(2, 0, 0);
    let p = Position::new(0, 1);
    assert_eq!(
        board.view_at(&p),
        Some(CellView::Covered { marking: Marking::Unmarked })
    );
    board.update(Message::ToggleMark(p));
    assert_eq!(
        board.view_at(&p),
        Some(CellView::Covered { marking: Marking::Flag })
    );
    board.update(Message::ToggleMark(p));
    board.update(Message::ToggleMark(p));
    board.update(Message::Reveal(p));
    assert_eq!(
        board.view_at(&p),
        Some(CellView::Open { cell_type: CellType::NonMine { neighbours: 0 } })
    );
    assert_eq!(board.view_at(&Position::new(9, 9)), None);
}
