use minesweeper::board::{Board, Event, State};
use minesweeper::cell::{Cell, Visibility};

fn board_3x3_center_mine() -> Board {
    // one mine at (1, 1), flat index 4
    Board::from_mine_locations(&vec![4], 3, 3)
}

#[test]
fn cell_new_is_hidden_and_blank() {
    let c = Cell::new(true);
    assert!(c.is_mine);
    assert_eq!(c.visibility, Visibility::Hidden);
    assert_eq!(c.neighbouring_mines, 0);
    let c = Cell::new(false);
    assert!(!c.is_mine);
}

#[test]
fn new_places_exactly_m_mines() {
    let b = Board::new(10, 9, 9);
    let mut mines: usize = 0;
    for y in 0..9 {
        for x in 0..9 {
            if b.get(x, y).is_mine {
                mines += 1;
            }
        }
    }
    assert_eq!(mines, 10);
    assert_eq!(b.mines(), 10);
    assert_eq!(b.width(), 9);
    assert_eq!(b.height(), 9);
    assert_eq!(b.cleared(), 0);
    assert_eq!(b.state(), State::InProgress);
}

#[test]
fn new_neighbour_counts_are_exact() {
    let b = Board::new(12, 8, 6);
    for y in 0..6i64 {
        for x in 0..8i64 {
            let mut expected: u8 = 0;
            for dy in -1..=1i64 {
                for dx in -1..=1i64 {
                    if dx == 0 && dy == 0 {
                        continue;
                    }
                    let (nx, ny) = (x + dx, y + dy);
                    if (0..8).contains(&nx)
                        && (0..6).contains(&ny)
                        && b.get(nx as usize, ny as usize).is_mine
                    {
                        expected += 1;
                    }
                }
            }
            assert_eq!(b.get(x as usize, y as usize).neighbouring_mines, expected);
        }
    }
}

#[test]
fn from_mine_locations_exact_counts() {
    // 3x3 board, mines at (0,0) and (1,1)
    let b = Board::from_mine_locations(&vec![0, 4], 3, 3);
    assert!(b.get(0, 0).is_mine);
    assert!(b.get(1, 1).is_mine);
    let expected = [[1u8, 2, 1], [2, 1, 1], [1, 1, 1]];
    for y in 0..3 {
        for x in 0..3 {
            assert_eq!(b.get(x, y).neighbouring_mines, expected[y][x], "at ({x},{y})");
            assert_eq!(b.get(x, y).visibility, Visibility::Hidden);
        }
    }
    assert_eq!(b.mines(), 2);
}

#[test]
fn new_with_clear_first_click_is_safe() {
    for _ in 0..50 {
        let b = Board::new_with_clear(3, 4, 4, 1, 2);
        assert!(!b.get(1, 2).is_mine);
    }
}

#[test]
fn new_with_clear_safe_even_at_final_cell() {
    for _ in 0..50 {
        let b = Board::new_with_clear(3, 4, 4, 3, 3);
        assert!(!b.get(3, 3).is_mine);
    }
}

#[test]
fn reveal_mine_is_defeat() {
    let mut b = board_3x3_center_mine();
    assert_eq!(b.reveal_cell(1, 1), Event::SteppedOnMine);
    assert_eq!(b.state(), State::Defeat);
    assert_eq!(b.get(1, 1).visibility, Visibility::Visible);
}

#[test]
fn reveal_mine_is_defeat_even_after_flood() {
    // mine at (0,0) on a 3x3 board; (2,2) has a zero count, so revealing it
    // floods every safe cell and wins; the mine then still loses the game.
    let mut b = Board::from_mine_locations(&vec![0], 3, 3);
    assert_eq!(b.reveal_cell(2, 2), Event::AllMinesCleared);
    assert_eq!(b.state(), State::Victory);
    assert_eq!(b.get(0, 0).visibility, Visibility::Hidden);
    assert_eq!(b.reveal_cell(0, 0), Event::SteppedOnMine);
    assert_eq!(b.state(), State::Defeat);
}

#[test]
fn reveal_last_safe_cell_is_victory() {
    // mine at (0,0) on a 2x2 board: every safe cell has a nonzero count
    let mut b = Board::from_mine_locations(&vec![0], 2, 2);
    assert_eq!(b.reveal_cell(1, 0), Event::Continue);
    assert_eq!(b.state(), State::InProgress);
    assert_eq!(b.reveal_cell(0, 1), Event::Continue);
    assert_eq!(b.state(), State::InProgress);
    assert_eq!(b.reveal_cell(1, 1), Event::AllMinesCleared);
    assert_eq!(b.state(), State::Victory);
}

#[test]
fn reveal_ordinary_cell_changes_nothing_else() {
    let mut b = board_3x3_center_mine();
    assert_eq!(b.reveal_cell(0, 0), Event::Continue);
    assert_eq!(b.state(), State::InProgress);
    assert_eq!(b.cleared(), 1);
    for y in 0..3 {
        for x in 0..3 {
            let expected = if (x, y) == (0, 0) { Visibility::Visible } else { Visibility::Hidden };
            assert_eq!(b.get(x, y).visibility, expected);
        }
    }
}

#[test]
fn flood_fill_reveals_exactly_the_zero_region_and_border() {
    // 5x1 strip with a mine in the middle: revealing the left end must
    // reveal the left zero region plus its border and nothing beyond.
    let mut b = Board::from_mine_locations(&vec![2], 5, 1);
    assert_eq!(b.reveal_cell(0, 0), Event::Continue);
    assert_eq!(b.get(0, 0).visibility, Visibility::Visible);
    assert_eq!(b.get(1, 0).visibility, Visibility::Visible);
    assert_eq!(b.get(2, 0).visibility, Visibility::Hidden);
    assert_eq!(b.get(3, 0).visibility, Visibility::Hidden);
    assert_eq!(b.get(4, 0).visibility, Visibility::Hidden);
    assert_eq!(b.cleared(), 2);
    assert_eq!(b.state(), State::InProgress);
    // the right region wins the game once flood filled
    assert_eq!(b.reveal_cell(4, 0), Event::AllMinesCleared);
    assert_eq!(b.state(), State::Victory);
    assert_eq!(b.get(3, 0).visibility, Visibility::Visible);
    assert_eq!(b.get(2, 0).visibility, Visibility::Hidden);
}

#[test]
fn flood_fill_never_reveals_a_mine() {
    for _ in 0..20 {
        let mut b = Board::new_with_clear(8, 8, 8, 4, 4);
        b.reveal_cell(4, 4);
        for y in 0..8 {
            for x in 0..8 {
                let c = b.get(x, y);
                if c.is_mine {
                    assert_ne!(c.visibility, Visibility::Visible);
                }
            }
        }
    }
}

#[test]
fn reveal_twice_is_rejected() {
    let mut b = board_3x3_center_mine();
    assert_eq!(b.reveal_cell(0, 0), Event::Continue);
    assert_eq!(b.reveal_cell(0, 0), Event::InvalidOperation);
    assert_eq!(b.cleared(), 1);
}

#[test]
fn flag_twice_is_rejected() {
    let mut b = board_3x3_center_mine();
    assert_eq!(b.flag(0, 0), Event::Continue);
    assert_eq!(b.flag(0, 0), Event::InvalidOperation);
    assert_eq!(b.get(0, 0).visibility, Visibility::Flagged);
    assert_eq!(b.cleared(), 0);
    assert_eq!(b.state(), State::InProgress);
}

#[test]
fn flag_unflag_unflag() {
    let mut b = board_3x3_center_mine();
    assert_eq!(b.flag(2, 2), Event::Continue);
    assert_eq!(b.unflag(2, 2), Event::Continue);
    assert_eq!(b.unflag(2, 2), Event::InvalidOperation);
    assert_eq!(b.get(2, 2).visibility, Visibility::Hidden);
}

#[test]
fn unflag_hidden_is_rejected() {
    let mut b = board_3x3_center_mine();
    assert_eq!(b.unflag(0, 0), Event::InvalidOperation);
}

#[test]
fn flag_visible_is_rejected() {
    let mut b = board_3x3_center_mine();
    b.reveal_cell(0, 0);
    assert_eq!(b.flag(0, 0), Event::InvalidOperation);
}

#[test]
fn flag_does_not_block_reveal() {
    let mut b = board_3x3_center_mine();
    assert_eq!(b.flag(0, 0), Event::Continue);
    assert_eq!(b.reveal_cell(0, 0), Event::Continue);
    assert_eq!(b.get(0, 0).visibility, Visibility::Visible);
}

#[test]
fn one_by_two_board_floods_to_victory_in_one_call() {
    let mut b = Board::new_with_clear(0, 1, 2, 0, 0);
    assert_eq!(b.reveal_cell(0, 0), Event::AllMinesCleared);
    assert_eq!(b.get(0, 1).visibility, Visibility::Visible);
    assert_eq!(b.state(), State::Victory);
}

#[test]
fn three_by_three_first_click_never_explodes() {
    for _ in 0..100 {
        let mut b = Board::new_with_clear(1, 3, 3, 1, 1);
        assert_ne!(b.reveal_cell(1, 1), Event::SteppedOnMine);
        assert_ne!(b.state(), State::Defeat);
    }
}
