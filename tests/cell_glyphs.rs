use minesweeper::cell::{
    Cell, CellKind, CellMarker, CellState, GameCell, GridCell, FLAG, HIDDEN, MINE, QUESTION, REVEALED,
};

#[test]
fn game_cell_revealed_mined_cell_should_display_as_mine_char() {
    let mined_cell = GameCell {
        state: CellState::Revealed,
        kind: CellKind::Mine,
        adj_mine_count: 0,
    };
    assert_eq!(format!("{}", mined_cell.glyph()), MINE.to_string());
}

#[test]
fn game_cell_hidden_cell_should_display_as_hidden_char() {
    let mined_cell = GameCell {
        state: CellState::Hidden,
        kind: CellKind::Mine,
        adj_mine_count: 0,
    };
    assert_eq!(format!("{}", mined_cell.glyph()), HIDDEN.to_string());
}

#[test]
fn game_cell_revealed_empty_cell_with_no_adjacent_mines_should_display_revealed_char() {
    let cell = GameCell {
        state: CellState::Revealed,
        kind: CellKind::Empty,
        adj_mine_count: 0,
    };
    assert_eq!(format!("{}", cell.glyph()), REVEALED.to_string());
}

#[test]
fn game_cell_revealed_empty_cell_with_adjacent_mines_should_display_adj_mine_count() {
    let cell = GameCell {
        state: CellState::Revealed,
        kind: CellKind::Empty,
        adj_mine_count: 3,
    };
    assert_eq!(format!("{}", cell.glyph()), "3".to_string());
}

#[test]
fn game_cell_flagged_cell_displays_the_flag_char() {
    let cell = GameCell {
        state: CellState::Marked(CellMarker::Flagged),
        kind: CellKind::Empty,
        adj_mine_count: 1,
    };
    assert_eq!(format!("{}", cell.glyph()), FLAG.to_string());
}

#[test]
fn game_cell_questioned_cell_displays_the_question_char() {
    let cell = GameCell {
        state: CellState::Marked(CellMarker::Questioned),
        kind: CellKind::Empty,
        adj_mine_count: 1,
    };
    assert_eq!(format!("{}", cell.glyph()), QUESTION.to_string());
}

#[test]
fn game_cell_lone_cell_test_should_return_true_for_empty_cell_with_0_adj_mines() {
    let cell = GameCell {
        state: CellState::Marked(CellMarker::Flagged),
        kind: CellKind::Empty,
        adj_mine_count: 0,
    };
    assert!(cell.is_lone_cell());
}

#[test]
fn game_cell_lone_cell_test_should_return_false_for_empty_cell_with_gt_0_adj_mines() {
    let cell = GameCell {
        state: CellState::Marked(CellMarker::Flagged),
        kind: CellKind::Empty,
        adj_mine_count: 2,
    };
    assert_eq!(cell.is_lone_cell(), false);
}

#[test]
fn game_cell_lone_cell_test_should_return_false_for_any_mined_cell() {
    let mined_cell = GameCell {
        state: CellState::Marked(CellMarker::Flagged),
        kind: CellKind::Mine,
        adj_mine_count: 2,
    };
    assert_eq!(mined_cell.is_lone_cell(), false);
}

#[test]
fn grid_cell_revealed_mined_cell_should_display_as_mine_char() {
    let mined_cell = GridCell {
        state: CellState::Revealed,
        kind: CellKind::Mine,
        adj_mine_count: 0,
    };
    assert_eq!(format!("{}", mined_cell.glyph()), MINE.to_string());
}

#[test]
fn grid_cell_hidden_cell_should_display_as_hidden_char() {
    let mined_cell = GridCell {
        state: CellState::Hidden,
        kind: CellKind::Mine,
        adj_mine_count: 0,
    };
    assert_eq!(format!("{}", mined_cell.glyph()), HIDDEN.to_string());
}

#[test]
fn grid_cell_revealed_empty_cell_with_no_adjacent_mines_should_display_revealed_char() {
    let cell = GridCell {
        state: CellState::Revealed,
        kind: CellKind::Empty,
        adj_mine_count: 0,
    };
    assert_eq!(format!("{}", cell.glyph()), REVEALED.to_string());
}

#[test]
fn grid_cell_revealed_empty_cell_with_adjacent_mines_should_display_adj_mine_count() {
    let cell = GridCell {
        state: CellState::Revealed,
        kind: CellKind::Empty,
        adj_mine_count: 3,
    };
    assert_eq!(format!("{}", cell.glyph()), "3".to_string());
}

#[test]
fn grid_cell_flagged_cell_displays_the_flag_char() {
    let cell = GridCell {
        state: CellState::Marked(CellMarker::Flagged),
        kind: CellKind::Empty,
        adj_mine_count: 1,
    };
    assert_eq!(format!("{}", cell.glyph()), FLAG.to_string());
}

#[test]
fn grid_cell_questioned_cell_displays_the_question_char() {
    let cell = GridCell {
        state: CellState::Marked(CellMarker::Questioned),
        kind: CellKind::Empty,
        adj_mine_count: 1,
    };
    assert_eq!(format!("{}", cell.glyph()), QUESTION.to_string());
}

#[test]
fn grid_cell_lone_cell_test_should_return_true_for_empty_cell_with_0_adj_mines() {
    let cell = GridCell {
        state: CellState::Marked(CellMarker::Flagged),
        kind: CellKind::Empty,
        adj_mine_count: 0,
    };
    assert!(cell.is_lone_cell());
}

#[test]
fn grid_cell_lone_cell_test_should_return_false_for_empty_cell_with_gt_0_adj_mines() {
    let cell = GridCell {
        state: CellState::Marked(CellMarker::Flagged),
        kind: CellKind::Empty,
        adj_mine_count: 2,
    };
    assert_eq!(cell.is_lone_cell(), false);
}

#[test]
fn grid_cell_lone_cell_test_should_return_false_for_any_mined_cell() {
    let mined_cell = GridCell {
        state: CellState::Marked(CellMarker::Flagged),
        kind: CellKind::Mine,
        adj_mine_count: 2,
    };
    assert_eq!(mined_cell.is_lone_cell(), false);
}

#[test]
fn mine_sweeper_impl_revealed_mined_cell_should_display_as_mine_char() {
    let mined_cell = Cell {
        state: CellState::Revealed,
        kind: CellKind::Mine,
        adj_mine_count: 0,
    };
    assert_eq!(format!("{}", mined_cell.glyph()), MINE.to_string());
}

#[test]
fn mine_sweeper_impl_hidden_cell_should_display_as_hidden_char() {
    let mined_cell = Cell {
        state: CellState::Hidden,
        kind: CellKind::Mine,
        adj_mine_count: 0,
    };
    assert_eq!(format!("{}", mined_cell.glyph()), HIDDEN.to_string());
}

#[test]
fn mine_sweeper_impl_revealed_empty_cell_with_no_adjacent_mines_should_display_revealed_char() {
    let cell = Cell {
        state: CellState::Revealed,
        kind: CellKind::Empty,
        adj_mine_count: 0,
    };
    assert_eq!(format!("{}", cell.glyph()), REVEALED.to_string());
}

#[test]
fn mine_sweeper_impl_revealed_empty_cell_with_adjacent_mines_should_display_adj_mine_count() {
    let cell = Cell {
        state: CellState::Revealed,
        kind: CellKind::Empty,
        adj_mine_count: 3,
    };
    assert_eq!(format!("{}", cell.glyph()), "3".to_string());
}

#[test]
fn mine_sweeper_impl_flagged_cell_displays_the_flag_char() {
    let cell = Cell {
        state: CellState::Marked(CellMarker::Flagged),
        kind: CellKind::Empty,
        adj_mine_count: 1,
    };
    assert_eq!(format!("{}", cell.glyph()), FLAG.to_string());
}

#[test]
fn mine_sweeper_impl_questioned_cell_displays_the_question_char() {
    let cell = Cell {
        state: CellState::Marked(CellMarker::Questioned),
        kind: CellKind::Empty,
        adj_mine_count: 1,
    };
    assert_eq!(format!("{}", cell.glyph()), QUESTION.to_string());
}

#[test]
fn mine_sweeper_impl_lone_cell_test_should_return_true_for_empty_cell_with_0_adj_mines() {
    let cell = Cell {
        state: CellState::Marked(CellMarker::Flagged),
        kind: CellKind::Empty,
        adj_mine_count: 0,
    };
    assert!(cell.is_lone_cell());
}

#[test]
fn mine_sweeper_impl_lone_cell_test_should_return_false_for_empty_cell_with_gt_0_adj_mines() {
    let cell = Cell {
        state: CellState::Marked(CellMarker::Flagged),
        kind: CellKind::Empty,
        adj_mine_count: 2,
    };
    assert_eq!(cell.is_lone_cell(), false);
}

#[test]
fn mine_sweeper_impl_lone_cell_test_should_return_false_for_any_mined_cell() {
    let mined_cell = Cell {
        state: CellState::Marked(CellMarker::Flagged),
        kind: CellKind::Mine,
        adj_mine_count: 2,
    };
    assert_eq!(mined_cell.is_lone_cell(), false);
}
#[test]
fn new_cell_is_hidden_with_no_count() {
    let cell = Cell::new(CellKind::Mine);
    assert_eq!(cell.state, CellState::Hidden);
    assert_eq!(cell.kind, CellKind::Mine);
    assert_eq!(cell.adj_mine_count, 0);
}

#[test]
fn marker_reports_the_mark() {
    let mut cell = Cell::new(CellKind::Empty);
    assert_eq!(cell.marker(), None);
    cell.set_marker(CellMarker::Questioned);
    assert_eq!(cell.marker(), Some(CellMarker::Questioned));
    assert!(!cell.is_flagged());
    cell.set_marker(CellMarker::Flagged);
    assert!(cell.is_flagged());
    cell.set_state(CellState::Revealed);
    assert_eq!(cell.marker(), None);
    assert_eq!(*cell.state(), CellState::Revealed);
}

#[test]
fn setters_change_one_field() {
    let mut cell = Cell::new(CellKind::Empty);
    cell.set_kind(CellKind::Mine);
    assert_eq!(*cell.kind(), CellKind::Mine);
    cell.set_adj_mine_count(5);
    assert_eq!(cell.adj_mine_count(), 5);
    assert_eq!(*cell.state(), CellState::Hidden);
}

#[test]
fn revealed_digits_cover_one_to_eight() {
    for n in 1u8..=8 {
        let cell = Cell {
            state: CellState::Revealed,
            kind: CellKind::Empty,
            adj_mine_count: n,
        };
        assert_eq!(cell.glyph(), char::from(b'0' + n));
    }
}

#[test]
fn debug_glyph_shows_kind_and_count_of_hidden_cells() {
    let mine = Cell::new(CellKind::Mine);
    assert_eq!(mine.debug_glyph(), MINE);
    let empty = Cell {
        state: CellState::Hidden,
        kind: CellKind::Empty,
        adj_mine_count: 4,
    };
    assert_eq!(empty.debug_glyph(), '4');
    assert_eq!(empty.glyph(), HIDDEN);
    let zero = Cell::new(CellKind::Empty);
    assert_eq!(zero.debug_glyph(), '0');
}
