use minesweeper::cell::{CellKind, CellMarker, CellState, FLAG, HIDDEN, MINE, QUESTION, REVEALED};
use minesweeper::grid::{GameGrid, Grid, GridError};

fn states(g: &Grid) -> Vec<CellState> {
    let (rows, cols) = g.dimensions();
    let mut out = Vec::new();
    for r in 0..rows {
        for c in 0..cols {
            out.push(g.cell_at(r, c).unwrap().state);
        }
    }
    out
}

fn recount(g: &Grid, r: usize, c: usize) -> u8 {
    let (rows, cols) = g.dimensions();
    let mut n = 0;
    for nr in r.saturating_sub(1)..=(r + 1).min(rows - 1) {
        for nc in c.saturating_sub(1)..=(c + 1).min(cols - 1) {
            if (nr, nc) != (r, c) && g.cell_at(nr, nc).unwrap().kind == CellKind::Mine {
                n += 1;
            }
        }
    }
    n
}

#[test]
fn total_mines_rounds_fifteen_percent() {
    let cases = [(1, 1, 0), (2, 5, 2), (3, 3, 1), (4, 4, 2), (5, 5, 4), (4, 5, 3), (5, 6, 5), (10, 10, 15)];
    for (rows, cols, expected) in cases {
        let g = Grid::new(rows, cols).unwrap();
        assert_eq!(g.total_mines(), expected);
        assert_eq!(g.mine_indices().len(), expected);
        assert_eq!(g.dimensions(), (rows, cols));
    }
}

#[test]
fn mine_indices_are_distinct_in_row_major_order() {
    let g = Grid::new(9, 7).unwrap();
    let mines = g.mine_indices();
    assert_eq!(mines.len(), 9);
    for w in mines.windows(2) {
        assert!(w[0].0 * 7 + w[0].1 < w[1].0 * 7 + w[1].1);
    }
    for (r, c) in mines {
        assert_eq!(g.cell_at(r, c).unwrap().kind, CellKind::Mine);
    }
}

#[test]
fn new_boards_are_not_always_laid_out_alike() {
    let first = Grid::new(10, 10).unwrap().mine_indices();
    let mut differs = false;
    for _ in 0..20 {
        if Grid::new(10, 10).unwrap().mine_indices() != first {
            differs = true;
        }
    }
    assert!(differs);
    let leading: Vec<(usize, usize)> = (0..15).map(|i| (i / 10, i % 10)).collect();
    let mut all_leading = true;
    for _ in 0..20 {
        if Grid::new(10, 10).unwrap().mine_indices() != leading {
            all_leading = false;
        }
    }
    assert!(!all_leading);
}

#[test]
fn adjacent_counts_match_a_brute_force_recount() {
    for (rows, cols) in [(1, 1), (1, 7), (6, 1), (4, 4), (8, 13)] {
        let g = Grid::new(rows, cols).unwrap();
        for r in 0..rows {
            for c in 0..cols {
                assert_eq!(g.cell_at(r, c).unwrap().adj_mine_count, recount(&g, r, c));
            }
        }
    }
}

#[test]
fn one_by_one_board_has_no_mine_and_is_won_after_a_reveal() {
    let mut g = Grid::new(1, 1).unwrap();
    assert_eq!(g.total_mines(), 0);
    assert!(g.mine_indices().is_empty());
    g.reveal_cell(0, 0).unwrap();
    assert!(g.is_game_won());
    assert!(!g.is_game_lost());
    assert_eq!(g.cell_at(0, 0).unwrap().state, CellState::Revealed);
}

#[test]
fn four_by_four_board_counts_agree_with_its_two_mines() {
    let g = Grid::new(4, 4).unwrap();
    assert_eq!(g.total_mines(), 2);
    let mines = g.mine_indices();
    assert_eq!(mines.len(), 2);
    let mut total_from_counts = 0u32;
    let mut total_from_mines = 0u32;
    for r in 0..4usize {
        for c in 0..4usize {
            let cell = g.cell_at(r, c).unwrap();
            assert_eq!(cell.adj_mine_count, recount(&g, r, c));
            total_from_counts += cell.adj_mine_count as u32;
        }
    }
    for (mr, mc) in mines {
        for r in mr.saturating_sub(1)..=(mr + 1).min(3) {
            for c in mc.saturating_sub(1)..=(mc + 1).min(3) {
                if (r, c) != (mr, mc) {
                    total_from_mines += 1;
                }
            }
        }
    }
    assert_eq!(total_from_counts, total_from_mines);
}

#[test]
fn revealing_a_corner_of_a_mine_free_board_reveals_everything() {
    let mut g = Grid::with_mines(5, 6, &vec![]).unwrap();
    assert_eq!(g.cell_at(0, 0).unwrap().adj_mine_count, 0);
    g.reveal_cell(0, 0).unwrap();
    assert!(states(&g).iter().all(|s| *s == CellState::Revealed));
    assert!(g.is_game_won());
    assert!(!g.is_game_lost());
}

#[test]
fn with_mines_places_the_listed_mines() {
    let g = Grid::with_mines(3, 3, &vec![4, 4, 0]).unwrap();
    assert_eq!(g.mine_indices(), vec![(0, 0), (1, 1)]);
    assert_eq!(g.cell_at(0, 1).unwrap().adj_mine_count, 2);
    assert_eq!(g.cell_at(2, 2).unwrap().adj_mine_count, 1);
    assert_eq!(g.cell_at(1, 1).unwrap().adj_mine_count, 1);
    assert!(states(&g).iter().all(|s| *s == CellState::Hidden));
}

#[test]
fn construction_errors() {
    assert_eq!(Grid::new(0, 3).err(), Some(GridError::InvalidDimensions));
    assert_eq!(Grid::new(3, 0).err(), Some(GridError::InvalidDimensions));
    assert_eq!(Grid::new(usize::MAX, 2).err(), Some(GridError::InvalidDimensions));
    assert_eq!(Grid::with_mines(0, 0, &vec![]).err(), Some(GridError::InvalidDimensions));
    assert_eq!(Grid::with_mines(2, 2, &vec![1, 4]).err(), Some(GridError::OutOfBounds));
}

#[test]
fn out_of_bounds_operations_are_refused_and_change_nothing() {
    let mut g = Grid::with_mines(3, 3, &vec![8]).unwrap();
    let before = states(&g);
    assert_eq!(g.reveal_cell(3, 0), Err(GridError::OutOfBounds));
    assert_eq!(g.reveal_cell(0, 3), Err(GridError::OutOfBounds));
    assert_eq!(g.reveal_all_lone_cells(5, 5), Err(GridError::OutOfBounds));
    assert_eq!(g.flag_cell(3, 3), Err(GridError::OutOfBounds));
    assert_eq!(g.question_cell(9, 0), Err(GridError::OutOfBounds));
    assert_eq!(g.unmark_cell(0, 9), Err(GridError::OutOfBounds));
    assert_eq!(g.toggle_mark(4, 4, CellMarker::Flagged), Err(GridError::OutOfBounds));
    assert_eq!(g.cell_at(3, 0), Err(GridError::OutOfBounds));
    assert_eq!(g.glyph_at(0, 3), Err(GridError::OutOfBounds));
    assert_eq!(g.debug_glyph_at(3, 3), Err(GridError::OutOfBounds));
    assert_eq!(states(&g), before);
}

#[test]
fn revealing_twice_is_revealing_once() {
    let layouts: [(usize, usize, Vec<usize>); 3] =
        [(4, 5, vec![7, 12]), (3, 3, vec![4]), (5, 5, vec![0, 24])];
    for (rows, cols, mines) in layouts {
        for r in 0..rows {
            for c in 0..cols {
                let mut once = Grid::with_mines(rows, cols, &mines).unwrap();
                once.reveal_cell(r, c).unwrap();
                let mut twice = Grid::with_mines(rows, cols, &mines).unwrap();
                twice.reveal_cell(r, c).unwrap();
                twice.reveal_cell(r, c).unwrap();
                assert_eq!(states(&once), states(&twice));
            }
        }
    }
}

#[test]
fn cascade_opens_the_lone_region_and_its_fringe_only() {
    // 4x5 board with mines at rows 0 and 1 of column 2: the lone cells wrap
    // around the mines, so everything but the two mines opens, and the flag
    // on a lone cell is cleared by the reveal.
    let mut g = Grid::with_mines(4, 5, &vec![2, 7]).unwrap();
    g.flag_cell(0, 0).unwrap();
    g.reveal_cell(3, 0).unwrap();
    let s = states(&g);
    let revealed: Vec<usize> = (0..20).filter(|i| s[*i] == CellState::Revealed).collect();
    assert_eq!(revealed, vec![0, 1, 3, 4, 5, 6, 8, 9, 10, 11, 12, 13, 14, 15, 16, 17, 18, 19]);
    assert_eq!(s[2], CellState::Hidden);
    assert_eq!(s[7], CellState::Hidden);
    assert!(!g.is_game_lost());
    // 3x5 board with a full column of mines: the cascade stays on its side.
    let mut h = Grid::with_mines(3, 5, &vec![2, 7, 12]).unwrap();
    h.reveal_cell(1, 0).unwrap();
    let t = states(&h);
    let opened: Vec<usize> = (0..15).filter(|i| t[*i] == CellState::Revealed).collect();
    assert_eq!(opened, vec![0, 1, 5, 6, 10, 11]);
}

#[test]
fn cascade_stops_at_numbered_cells() {
    // 1x5 strip: a mine at the right end; revealing the left end opens the
    // zero cells and the numbered fringe cell next to the mine.
    let mut g = Grid::with_mines(1, 5, &vec![4]).unwrap();
    g.reveal_cell(0, 0).unwrap();
    let s = states(&g);
    assert_eq!(&s[..4], &[CellState::Revealed; 4]);
    assert_eq!(s[4], CellState::Hidden);
    assert_eq!(g.glyph_at(0, 3), Ok('1'));
    assert_eq!(g.glyph_at(0, 0), Ok(REVEALED));
}

#[test]
fn revealing_a_numbered_cell_reveals_it_alone() {
    let mut g = Grid::with_mines(1, 5, &vec![4]).unwrap();
    g.reveal_cell(0, 3).unwrap();
    let s = states(&g);
    assert_eq!(s, vec![CellState::Hidden, CellState::Hidden, CellState::Hidden, CellState::Revealed, CellState::Hidden]);
}

#[test]
fn reveal_all_lone_cells_only_opens_from_lone_cells() {
    let mut g = Grid::with_mines(1, 5, &vec![4]).unwrap();
    g.reveal_all_lone_cells(0, 3).unwrap();
    assert!(states(&g).iter().all(|s| *s == CellState::Hidden));
    g.reveal_all_lone_cells(0, 1).unwrap();
    assert_eq!(&states(&g)[..4], &[CellState::Revealed; 4]);
}

#[test]
fn revealing_a_mine_loses_and_the_loss_stays() {
    let mut g = Grid::with_mines(3, 3, &vec![4]).unwrap();
    assert!(!g.is_game_lost());
    g.reveal_cell(1, 1).unwrap();
    assert!(g.is_game_lost());
    g.flag_cell(1, 1).unwrap();
    g.unmark_cell(1, 1).unwrap();
    g.toggle_mark(1, 1, CellMarker::Questioned).unwrap();
    g.question_cell(0, 0).unwrap();
    g.reveal_cell(0, 0).unwrap();
    assert!(g.is_game_lost());
    assert_eq!(g.glyph_at(1, 1), Ok(MINE));
}

#[test]
fn marked_mine_is_revealed_and_loses() {
    let mut g = Grid::with_mines(2, 2, &vec![3]).unwrap();
    g.flag_cell(1, 1).unwrap();
    g.reveal_cell(1, 1).unwrap();
    assert_eq!(g.cell_at(1, 1).unwrap().state, CellState::Revealed);
    assert!(g.is_game_lost());
}

#[test]
fn toggling_twice_restores_a_hidden_cell() {
    for marker in [CellMarker::Flagged, CellMarker::Questioned] {
        let mut g = Grid::with_mines(2, 3, &vec![5]).unwrap();
        g.toggle_mark(0, 1, marker).unwrap();
        assert_eq!(g.cell_at(0, 1).unwrap().state, CellState::Marked(marker));
        g.toggle_mark(0, 1, marker).unwrap();
        assert_eq!(g.cell_at(0, 1).unwrap().state, CellState::Hidden);
    }
}

#[test]
fn toggling_a_marked_cell_with_the_other_marker_unmarks_it() {
    let mut g = Grid::with_mines(2, 3, &vec![5]).unwrap();
    g.toggle_mark(0, 0, CellMarker::Flagged).unwrap();
    g.toggle_mark(0, 0, CellMarker::Questioned).unwrap();
    assert_eq!(g.cell_at(0, 0).unwrap().state, CellState::Hidden);
}

#[test]
fn marks_do_not_touch_revealed_cells() {
    let mut g = Grid::with_mines(1, 3, &vec![2]).unwrap();
    g.reveal_cell(0, 1).unwrap();
    g.flag_cell(0, 1).unwrap();
    g.question_cell(0, 1).unwrap();
    g.unmark_cell(0, 1).unwrap();
    g.toggle_mark(0, 1, CellMarker::Flagged).unwrap();
    assert_eq!(g.cell_at(0, 1).unwrap().state, CellState::Revealed);
    assert_eq!(g.glyph_at(0, 1), Ok('1'));
}

#[test]
fn marking_glyphs() {
    let mut g = Grid::with_mines(1, 3, &vec![2]).unwrap();
    assert_eq!(g.glyph_at(0, 0), Ok(HIDDEN));
    g.flag_cell(0, 0).unwrap();
    assert_eq!(g.glyph_at(0, 0), Ok(FLAG));
    g.question_cell(0, 0).unwrap();
    assert_eq!(g.glyph_at(0, 0), Ok(QUESTION));
    g.unmark_cell(0, 0).unwrap();
    assert_eq!(g.glyph_at(0, 0), Ok(HIDDEN));
    assert_eq!(g.debug_glyph_at(0, 2), Ok(MINE));
    assert_eq!(g.debug_glyph_at(0, 1), Ok('1'));
}

#[test]
fn game_is_won_when_every_mine_is_flagged() {
    let mut g: GameGrid = Grid::with_mines(3, 3, &vec![0, 8]).unwrap();
    assert!(!g.is_game_won());
    g.flag_cell(0, 0).unwrap();
    assert!(!g.is_game_won());
    g.question_cell(2, 2).unwrap();
    assert!(!g.is_game_won());
    g.flag_cell(2, 2).unwrap();
    g.flag_cell(1, 1).unwrap();
    assert!(g.is_game_won());
    assert!(!g.is_game_lost());
}

#[test]
fn fresh_board_with_mines_is_neither_won_nor_lost() {
    let g = Grid::new(6, 6).unwrap();
    assert_eq!(g.total_mines(), 5);
    assert!(!g.is_game_won());
    assert!(!g.is_game_lost());
}

#[test]
fn moves_keep_the_mine_count() {
    let mut g = Grid::new(6, 7).unwrap();
    let mines = g.mine_indices();
    for r in 0..6 {
        for c in 0..7 {
            g.toggle_mark(r, c, CellMarker::Flagged).unwrap();
            g.question_cell(c % 6, r).unwrap();
            g.unmark_cell(r, (c + 3) % 7).unwrap();
            g.reveal_cell(r, c).unwrap();
        }
    }
    assert_eq!(g.mine_indices(), mines);
    assert_eq!(g.mine_indices().len(), g.total_mines());
    assert_eq!(g.total_mines(), 6);
}
