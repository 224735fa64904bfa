use nd_tictactoe::board::{Cell, IndexError, ShapeError};
use nd_tictactoe::surface::{clear, Sprite, Surface};
use nd_tictactoe::world::{SetupError, World};

const WHITE: [u8; 4] = [0xff, 0xff, 0xff, 0xff];
const BLACK: [u8; 4] = [0, 0, 0, 0xff];

fn solid(w: u32, h: u32, color: [u8; 4]) -> Sprite {
    let mut data = Vec::new();
    for _ in 0..w * h {
        data.extend_from_slice(&color);
    }
    Sprite::new(w, h, data).unwrap()
}

fn world(size: usize, dimension: usize) -> World {
    let xs = vec![solid(4, 4, [0xff, 0, 0, 0xff]), solid(2, 3, [0xff, 0, 0, 0xff])];
    let os = vec![solid(5, 5, [0, 0, 0xff, 0xff])];
    World::new(size, dimension, 640, 480, &xs, &os).unwrap()
}

#[test]
fn world_scales_artwork_to_the_cell_edge() {
    let w = world(3, 2);
    assert_eq!(w.x_img.len(), 2);
    assert_eq!(w.o_img.len(), 1);
    for s in w.x_img.iter().chain(w.o_img.iter()) {
        assert_eq!(s.width, 141);
        assert_eq!(s.height, 141);
        assert_eq!(s.data.len(), 4 * 141 * 141);
    }
    assert!(w.board.cells.iter().all(|c| *c == Cell::Empty));
}

#[test]
fn world_setup_errors() {
    let xs = vec![solid(4, 4, WHITE)];
    let os = vec![solid(4, 4, BLACK)];
    let none: Vec<Sprite> = Vec::new();
    assert!(matches!(
        World::new(0, 2, 640, 480, &xs, &os),
        Err(SetupError::Shape(ShapeError::ZeroSize))
    ));
    assert!(matches!(
        World::new(3, 0, 640, 480, &xs, &os),
        Err(SetupError::Shape(ShapeError::ZeroDimension))
    ));
    assert!(matches!(World::new(4, 2, 10, 10, &xs, &os), Err(SetupError::SurfaceTooSmall)));
    assert!(matches!(World::new(173, 2, 640, 480, &xs, &os), Err(SetupError::SurfaceTooSmall)));
    assert!(matches!(World::new(3, 2, 640, 480, &none, &os), Err(SetupError::EmptyVariantPool)));
    assert!(matches!(World::new(3, 2, 640, 480, &xs, &none), Err(SetupError::EmptyVariantPool)));
    let empty = vec![Sprite::new(0, 0, Vec::new()).unwrap()];
    assert!(matches!(World::new(3, 2, 640, 480, &xs, &empty), Err(SetupError::BadSprite)));
}

#[test]
fn world_with_cells_of_zero_edge() {
    let mut w = world(150, 2);
    assert_eq!(w.board.cells.len(), 150 * 150);
    assert!(w.board.cells.iter().all(|c| *c == Cell::Empty));
    assert_eq!(w.geometry.square_size, 0);
    for s in w.x_img.iter().chain(w.o_img.iter()) {
        assert_eq!((s.width, s.height, s.data.len()), (0, 0, 0));
    }
    assert_eq!(w.move_at(320, 240, Cell::X), Ok((75, 75)));
    let mut s = Surface::new(640, 480).unwrap();
    assert_eq!(w.draw(&mut s), Ok(()));
    for y in 0..480u32 {
        for x in 0..640u32 {
            let p = s.pixel(x, y);
            assert!(p == WHITE || p == BLACK);
        }
    }
    let w = world(172, 2);
    assert_eq!(w.board.cells.len(), 172 * 172);
}

#[test]
fn click_places_mark_in_top_left_cell() {
    let mut w = world(3, 2);
    assert_eq!(w.move_at(177, 97, Cell::O), Ok((0, 0)));
    assert_eq!(w.get_cell(&[0, 0]), Ok(Cell::O));
    assert_eq!(w.get_cell(&[1, 0]), Ok(Cell::Empty));
    assert_eq!(w.move_at(639, 479, Cell::X), Ok((2, 2)));
    assert_eq!(w.get_cell(&[2, 2]), Ok(Cell::X));
}

#[test]
fn index_of_with_three_components_on_a_plane() {
    let w = world(3, 2);
    assert_eq!(w.board.index_of(&[0, 0, 0]), Err(IndexError::DimensionMismatch));
    assert_eq!(w.get_cell(&[0, 0, 0]), Err(IndexError::DimensionMismatch));
}

#[test]
fn a_cube_cannot_be_played_or_drawn_on_screen() {
    let mut w = world(3, 3);
    assert_eq!(w.move_at(177, 97, Cell::X), Err(IndexError::DimensionMismatch));
    assert!(w.board.cells.iter().all(|c| *c == Cell::Empty));
    let mut s = Surface::new(640, 480).unwrap();
    assert_eq!(w.draw(&mut s), Err(IndexError::DimensionMismatch));
    assert!(s.pixels.iter().all(|b| *b == 0));
}

#[test]
fn marked_cell_draws_only_inside_its_square() {
    let mut w = world(3, 2);
    w.board.set(&[2, 2], Cell::X).unwrap();
    let mut s = Surface::new(640, 480).unwrap();
    clear(&mut s, &WHITE);
    w.draw_grid(&mut s);
    let before = s.pixels.clone();
    let choices = vec![0; 9];
    assert_eq!(w.draw_board(&mut s, &choices), Ok(()));
    let (cx, cy) = w.geometry.cell_to_pixel(2, 2);
    let mut changed = 0;
    for y in 0..480u32 {
        for x in 0..640u32 {
            let k = 4 * (y as usize * 640 + x as usize);
            let inside = (x as u64) >= cx && (x as u64) < cx + 141 && (y as u64) >= cy && (y as u64) < cy + 141;
            if s.pixels[k..k + 4] != before[k..k + 4] {
                assert!(inside);
                changed += 1;
            }
            if inside {
                assert_eq!(s.pixel(x, y), [0xff, 0, 0, 0xff]);
            }
        }
    }
    assert!(changed > 0);
}

#[test]
fn empty_board_shows_only_grid_and_background() {
    let w = world(3, 2);
    let mut s = Surface::new(640, 480).unwrap();
    assert_eq!(w.draw(&mut s), Ok(()));
    let mut black = 0;
    for y in 0..480u32 {
        for x in 0..640u32 {
            let p = s.pixel(x, y);
            assert!(p == WHITE || p == BLACK);
            if p == BLACK {
                black += 1;
            }
        }
    }
    // Two horizontal and two vertical lines, 432 by 3, crossing in 4 squares of 9.
    assert_eq!(black, 4 * 432 * 3 - 4 * 9);
    // The first horizontal separator starts at the origin plus one cell pitch.
    assert_eq!(s.pixel(104, 24 + 144), BLACK);
    assert_eq!(s.pixel(104, 24 + 143), WHITE);
}

#[test]
fn draw_with_shows_chosen_variants() {
    let mut w = world(3, 2);
    w.board.set(&[0, 1], Cell::O).unwrap();
    w.board.set(&[1, 1], Cell::X).unwrap();
    let mut s = Surface::new(640, 480).unwrap();
    let mut choices = vec![0; 9];
    choices[4] = 1;
    assert_eq!(w.draw_with(&mut s, &choices), Ok(()));
    let (ox, oy) = w.geometry.cell_to_pixel(0, 1);
    assert_eq!(s.pixel(ox as u32 + 70, oy as u32 + 70), [0, 0, 0xff, 0xff]);
    let (xx, xy) = w.geometry.cell_to_pixel(1, 1);
    assert_eq!(s.pixel(xx as u32 + 70, xy as u32 + 70), [0xff, 0, 0, 0xff]);
    let (ex, ey) = w.geometry.cell_to_pixel(2, 1);
    assert_eq!(s.pixel(ex as u32 + 70, ey as u32 + 70), WHITE);
}

#[test]
fn pick_stays_inside_the_pool() {
    let pool = vec![solid(1, 1, WHITE), solid(1, 1, BLACK), solid(1, 1, WHITE)];
    for _ in 0..100 {
        assert!(World::pick(&pool) < 3);
    }
    let w = world(3, 2);
    let c = w.choose_variants();
    assert_eq!(c.len(), 9);
}
