use mineruster::board::{Board, Glyph, Phase, State, BASE_CHANCE_PERCENT, ROLL_SPAN};

fn no_mines(w: usize, h: usize) -> Vec<Vec<bool>> {
    vec![vec![false; h]; w]
}

fn all_state(b: &Board, s: State) -> bool {
    b.state.iter().all(|col| col.iter().all(|c| *c == s))
}

#[test]
fn init_hides_every_cell() {
    let b = Board::init(7, 4, 5);
    assert_eq!(b.width(), 7);
    assert_eq!(b.height(), 4);
    assert_eq!(b.difficulty(), 5);
    assert_eq!(b.state.len(), 7);
    assert_eq!(b.mines.len(), 7);
    assert!(b.state.iter().all(|c| c.len() == 4));
    assert!(b.mines.iter().all(|c| c.len() == 4));
    assert!(all_state(&b, State::Hidden));
}

#[test]
fn nearby_mines_counts_clipped_block() {
    let mut b = Board::init(3, 3, 1);
    b.mines = vec![vec![true, true, false], vec![false, true, false], vec![false, false, true]];
    assert_eq!(b.nearby_mines(0, 0), 3);
    assert_eq!(b.nearby_mines(1, 1), 4);
    assert_eq!(b.nearby_mines(2, 0), 1);
    assert_eq!(b.nearby_mines(2, 2), 2);
    assert_eq!(b.nearby_mines(0, 2), 2);
}

#[test]
fn nearby_mines_full_and_empty() {
    let mut b = Board::init(4, 3, 1);
    b.mines = vec![vec![true; 3]; 4];
    assert_eq!(b.nearby_mines(0, 0), 4);
    assert_eq!(b.nearby_mines(1, 1), 9);
    assert_eq!(b.nearby_mines(3, 1), 6);
    b.mines = no_mines(4, 3);
    assert_eq!(b.nearby_mines(1, 1), 0);
}

#[test]
fn single_cell_without_mine_is_won_at_once() {
    let mut b = Board::init(1, 1, 1);
    b.reset_with(&vec![vec![ROLL_SPAN - 1]]);
    assert!(!b.mines[0][0]);
    let r = b.input(false, false, Some((0, 0)), None);
    assert_eq!(b.state[0][0], State::Revealed);
    assert_eq!(b.nearby_mines(0, 0), 0);
    assert_eq!(b.glyph(0, 0), Glyph::Count(0));
    assert!(b.win_condition());
    assert_eq!(r, Phase::RoundOver { won: true });
}

#[test]
fn corner_mine_cascade_from_far_corner() {
    let mut b = Board::init(3, 3, 1);
    b.mines = no_mines(3, 3);
    b.mines[0][0] = true;
    assert_eq!(b.nearby_mines(2, 2), 0);
    let r = b.input(false, false, Some((2, 2)), None);
    for x in 0..3 {
        for y in 0..3 {
            if (x, y) != (0, 0) {
                assert_eq!(b.state[x][y], State::Revealed);
            }
        }
    }
    assert_eq!(b.state[0][0], State::Hidden);
    assert!(b.win_condition());
    assert_eq!(r, Phase::RoundOver { won: true });
}

#[test]
fn click_on_mine_loses_and_overlay_takes_only_quit_or_restart() {
    let mut b = Board::init(3, 3, 1);
    b.mines = no_mines(3, 3);
    b.mines[1][1] = true;
    let r = b.input(false, false, Some((1, 1)), None);
    assert_eq!(r, Phase::RoundOver { won: false });
    assert!(all_state(&b, State::Hidden));
    assert_eq!(b.end(false, false, false), Phase::RoundOver { won: false });
    assert!(b.mines[1][1]);
    assert_eq!(b.end(false, true, false), Phase::Quit);
    assert_eq!(b.end(false, false, true), Phase::Playing);
    assert!(all_state(&b, State::Hidden));
}

#[test]
fn reveal_stops_at_numbered_cells() {
    let mut b = Board::init(5, 1, 1);
    b.mines = no_mines(5, 1);
    b.mines[4][0] = true;
    let r = b.input(false, false, Some((0, 0)), None);
    assert_eq!(b.state[0][0], State::Revealed);
    assert_eq!(b.state[1][0], State::Revealed);
    assert_eq!(b.state[2][0], State::Revealed);
    assert_eq!(b.state[3][0], State::Revealed);
    assert_eq!(b.state[4][0], State::Hidden);
    assert_eq!(b.glyph(3, 0), Glyph::Count(1));
    assert_eq!(r, Phase::RoundOver { won: true });
}

#[test]
fn numbered_cell_reveals_only_itself() {
    let mut b = Board::init(5, 1, 1);
    b.mines = no_mines(5, 1);
    b.mines[4][0] = true;
    b.mines[0][0] = true;
    let r = b.input(false, false, Some((1, 0)), None);
    assert_eq!(b.state[1][0], State::Revealed);
    assert_eq!(b.state[2][0], State::Hidden);
    assert_eq!(r, Phase::Playing);
}

#[test]
fn flood_does_not_cross_revealed_zero_cells() {
    let mut b = Board::init(5, 1, 1);
    b.mines = no_mines(5, 1);
    b.state[2][0] = State::Revealed;
    b.reveal_neighbors(0, 0);
    assert_eq!(b.state[0][0], State::Revealed);
    assert_eq!(b.state[1][0], State::Revealed);
    assert_eq!(b.state[2][0], State::Revealed);
    assert_eq!(b.state[3][0], State::Hidden);
    assert_eq!(b.state[4][0], State::Hidden);
}

#[test]
fn flood_reveals_marked_cells() {
    let mut b = Board::init(3, 3, 1);
    b.mines = no_mines(3, 3);
    b.state[2][2] = State::Marked;
    b.reveal_neighbors(0, 0);
    assert!(all_state(&b, State::Revealed));
}

#[test]
fn right_click_toggles_marks() {
    let mut b = Board::init(3, 3, 1);
    b.mines = no_mines(3, 3);
    b.mines[0][0] = true;
    assert_eq!(b.input(false, false, None, Some((1, 2))), Phase::Playing);
    assert_eq!(b.state[1][2], State::Marked);
    assert_eq!(b.glyph(1, 2), Glyph::Flag);
    assert_eq!(b.input(false, false, None, Some((1, 2))), Phase::Playing);
    assert_eq!(b.state[1][2], State::Hidden);
    assert_eq!(b.glyph(1, 2), Glyph::Blank);
    b.state[1][1] = State::Revealed;
    assert_eq!(b.input(false, false, None, Some((1, 1))), Phase::Playing);
    assert_eq!(b.state[1][1], State::Revealed);
}

#[test]
fn left_click_reveals_marked_cell() {
    let mut b = Board::init(3, 3, 1);
    b.mines = no_mines(3, 3);
    b.mines[0][0] = true;
    b.state[1][1] = State::Marked;
    assert_eq!(b.input(false, false, Some((1, 1)), None), Phase::Playing);
    assert_eq!(b.state[1][1], State::Revealed);
    assert_eq!(b.glyph(1, 1), Glyph::Count(1));
}

#[test]
fn left_click_wins_over_right_click() {
    let mut b = Board::init(3, 3, 1);
    b.mines = no_mines(3, 3);
    b.mines[0][0] = true;
    b.input(false, false, Some((1, 1)), Some((2, 2)));
    assert_eq!(b.state[1][1], State::Revealed);
    assert_eq!(b.state[2][2], State::Hidden);
}

#[test]
fn clicks_off_the_board_are_ignored() {
    let mut b = Board::init(3, 2, 1);
    b.mines = no_mines(3, 2);
    assert_eq!(b.input(false, false, Some((3, 0)), None), Phase::Playing);
    assert_eq!(b.input(false, false, None, Some((0, 2))), Phase::Playing);
    assert_eq!(b.input(false, false, Some((u32::MAX, 0)), None), Phase::Playing);
    assert_eq!(b.input(false, false, None, None), Phase::Playing);
    assert!(all_state(&b, State::Hidden));
}

#[test]
fn quit_comes_before_restart_and_clicks() {
    let mut b = Board::init(3, 3, 1);
    b.mines = no_mines(3, 3);
    assert_eq!(b.input(true, true, Some((0, 0)), None), Phase::Quit);
    assert!(all_state(&b, State::Hidden));
}

#[test]
fn restart_hides_and_skips_clicks() {
    let mut b = Board::init(3, 3, 1);
    b.mines = no_mines(3, 3);
    b.state[0][0] = State::Revealed;
    b.state[1][0] = State::Marked;
    assert_eq!(b.input(false, true, Some((2, 2)), None), Phase::Playing);
    assert!(all_state(&b, State::Hidden));
}

#[test]
fn win_needs_revealed_not_marked() {
    let mut b = Board::init(2, 1, 1);
    b.mines = vec![vec![true], vec![false]];
    b.state[1][0] = State::Marked;
    assert!(!b.win_condition());
    b.state[1][0] = State::Revealed;
    assert!(b.win_condition());
    b.state[0][0] = State::Marked;
    assert!(b.win_condition());
}

#[test]
fn reset_twice_hides_everything_each_time() {
    let mut b = Board::init(6, 5, 7);
    b.state[2][3] = State::Revealed;
    b.state[4][1] = State::Marked;
    b.reset();
    assert!(all_state(&b, State::Hidden));
    b.state[0][0] = State::Revealed;
    b.reset();
    assert!(all_state(&b, State::Hidden));
    assert_eq!(b.width(), 6);
    assert_eq!(b.height(), 5);
    assert_eq!(b.mines.len(), 6);
    assert!(b.mines.iter().all(|c| c.len() == 5));
}

#[test]
fn rolls_below_threshold_make_mines() {
    let mut b = Board::init(2, 2, 5);
    let t = BASE_CHANCE_PERCENT * 5;
    assert_eq!(t, 50);
    b.reset_with(&vec![vec![t - 1, t], vec![0, ROLL_SPAN - 1]]);
    assert_eq!(b.mines, vec![vec![true, false], vec![true, false]]);
    assert!(all_state(&b, State::Hidden));
}

#[test]
fn mine_chance_scales_with_difficulty() {
    let mut b = Board::init(1, 3, 10);
    b.reset_with(&vec![vec![99, 100, 101]]);
    assert_eq!(b.mines, vec![vec![true, false, false]]);
    let mut b = Board::init(1, 2, 1);
    b.reset_with(&vec![vec![9, 10]]);
    assert_eq!(b.mines, vec![vec![true, false]]);
}

#[test]
fn random_layout_holds_mines_and_free_cells() {
    let b = Board::init(60, 30, 10);
    let mines: usize = b.mines.iter().map(|c| c.iter().filter(|m| **m).count()).sum();
    assert!(mines > 0);
    assert!(mines < 60 * 30);
}

#[test]
fn glyph_shows_revealed_mine() {
    let mut b = Board::init(2, 2, 1);
    b.mines = vec![vec![true, false], vec![false, false]];
    b.state[0][0] = State::Revealed;
    assert_eq!(b.glyph(0, 0), Glyph::Mine);
    b.state[1][1] = State::Revealed;
    assert_eq!(b.glyph(1, 1), Glyph::Count(1));
}

#[test]
fn flood_from_already_revealed_start_covers_zero_region() {
    let mut b = Board::init(5, 2, 1);
    b.mines = no_mines(5, 2);
    b.mines[4][1] = true;
    b.state[0][0] = State::Revealed;
    b.reveal_neighbors(0, 0);
    for x in 0..4 {
        for y in 0..2 {
            assert_eq!(b.state[x][y], State::Revealed);
        }
    }
    assert_eq!(b.state[4][0], State::Hidden);
    assert_eq!(b.state[4][1], State::Hidden);
    assert!(!b.win_condition());
}
