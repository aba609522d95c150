use pov_board::{points_for_cube, Pixel, PovBoard};

fn black_board(w: u32, h: u32) -> PovBoard {
    let coins = vec![false; (w * h) as usize];
    let mut b = PovBoard::new(w, h, &coins);
    b.black();
    b
}

#[test]
fn toggle_flips() {
    let mut p = Pixel::Black;
    p.toggle();
    assert_eq!(p, Pixel::White);
    p.toggle();
    assert_eq!(p, Pixel::Black);
}

#[test]
fn random_follows_the_coin() {
    assert_eq!(Pixel::random(true), Pixel::Black);
    assert_eq!(Pixel::random(false), Pixel::White);
}

#[test]
fn new_uses_one_coin_per_cell() {
    let b = PovBoard::new(2, 2, &vec![true, false, false, true]);
    assert_eq!(b.pixels(), &vec![Pixel::Black, Pixel::White, Pixel::White, Pixel::Black]);
    assert!(b.pending_points().is_empty());
    assert!(b.cleanup_points().is_empty());
}

#[test]
fn randomize_then_black_is_all_black() {
    let mut b = PovBoard::new(3, 2, &vec![false; 6]);
    b.randomize(&vec![true, false, false, true, false, false]);
    assert_eq!(b.pixels()[1], Pixel::White);
    b.black();
    assert_eq!(b.pixels(), &vec![Pixel::Black; 6]);
}

#[test]
fn horizontal_line_round_trip() {
    let mut b = black_board(4, 4);
    let start = b.pixels().clone();
    b.draw_horizontal_line(1, 0, 3);
    assert_eq!(b.pending_points(), &vec![(0, 1), (1, 1), (2, 1), (3, 1)]);
    b.tick();
    for x in 0..4 {
        assert_eq!(b.pixels()[4 + x], Pixel::White);
    }
    assert_eq!(b.cleanup_points(), &vec![(0, 1), (1, 1), (2, 1), (3, 1)]);
    assert!(b.pending_points().is_empty());
    b.tick();
    assert!(b.cleanup_points().is_empty());
    assert_eq!(b.pixels(), &start);
}

#[test]
fn offboard_line_changes_nothing() {
    let mut b = black_board(4, 4);
    let start = b.pixels().clone();
    b.draw_line(-1, 0, -1, 3);
    assert_eq!(b.pending_points(), &vec![(-1, 0), (-1, 1), (-1, 2), (-1, 3)]);
    b.tick();
    assert_eq!(b.pixels(), &start);
    assert!(b.cleanup_points().is_empty());
    assert!(b.pending_points().is_empty());
}

#[test]
fn partly_offboard_line_keeps_visible_points() {
    let mut b = black_board(3, 3);
    b.draw_vertical_line(1, -1, 5);
    b.tick();
    assert_eq!(b.cleanup_points(), &vec![(1, 0), (1, 1), (1, 2)]);
    assert_eq!(b.pixels()[1], Pixel::White);
    assert_eq!(b.pixels()[4], Pixel::White);
    assert_eq!(b.pixels()[7], Pixel::White);
    assert_eq!(b.pixels().iter().filter(|p| **p == Pixel::White).count(), 3);
}

#[test]
fn pixel_index_is_row_major() {
    let mut b = black_board(5, 3);
    b.draw_line(3, 2, 3, 2);
    b.tick();
    assert_eq!(b.pixels()[2 * 5 + 3], Pixel::White);
    assert_eq!(b.pixels().iter().filter(|p| **p == Pixel::White).count(), 1);
}

#[test]
fn tick_erases_then_draws() {
    let mut b = black_board(4, 1);
    b.draw_line(0, 0, 1, 0);
    b.tick();
    b.draw_line(1, 0, 2, 0);
    b.tick();
    // (1,0) was erased and lit again; (0,0) erased; (2,0) lit
    assert_eq!(b.pixels(), &vec![Pixel::Black, Pixel::White, Pixel::White, Pixel::Black]);
    assert_eq!(b.cleanup_points(), &vec![(1, 0), (2, 0)]);
}

#[test]
fn draw_cube_queues_the_unrotated_cube() {
    let mut b = black_board(20, 20);
    b.draw_cube(5, 5, 10);
    assert_eq!(b.pending_points(), &points_for_cube(5, 5, 10));
}

#[test]
fn draw_points_keeps_order() {
    let mut b = black_board(2, 2);
    b.draw_points(vec![(1, 1), (0, 0)]);
    b.draw_line(1, 0, 0, 0);
    assert_eq!(b.pending_points(), &vec![(1, 1), (0, 0), (1, 0), (0, 0)]);
}

#[test]
fn empty_board_is_inert() {
    let mut b = PovBoard::new(0, 5, &vec![]);
    b.draw_line(0, 0, 3, 3);
    b.tick();
    assert!(b.pixels().is_empty());
    assert!(b.cleanup_points().is_empty());
    b.tick();
    assert!(b.pixels().is_empty());
}
