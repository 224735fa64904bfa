use nd_tictactoe::geometry::{Geometry, STROKE_WIDTH};

fn layout() -> Geometry {
    Geometry::compute_geometry(640, 480, 3).unwrap()
}

#[test]
fn geometry_of_a_640_by_480_surface() {
    let g = layout();
    assert_eq!(g.total_width, 432);
    assert_eq!(g.span_tenths, 4320);
    assert_eq!(g.stroke_width, STROKE_WIDTH);
    assert_eq!(g.square_size, 141);
    assert_eq!(g.origin_x, 104);
    assert_eq!(g.origin_y, 24);
}

#[test]
fn geometry_rounds_the_region_and_cells() {
    // 0.9 * 101 = 90.9 rounds to 91; 90.9 / 4 = 22.7 rounds to 23.
    let g = Geometry::compute_geometry(101, 300, 4).unwrap();
    assert_eq!(g.total_width, 91);
    assert_eq!(g.square_size, 20);
    // 50 - 45.45 = 4.55 rounds to 5; 150 - 45.45 = 104.55 rounds to 105.
    assert_eq!(g.origin_x, 5);
    assert_eq!(g.origin_y, 105);
}

#[test]
fn geometry_refuses_degenerate_layouts() {
    assert!(Geometry::compute_geometry(640, 480, 0).is_none());
    assert!(Geometry::compute_geometry(640, 480, 200).is_none());
    assert!(Geometry::compute_geometry(10, 10, 4).is_none());
    assert!(Geometry::compute_geometry(640, 480, 173).is_none());
    assert!(Geometry::compute_geometry(640, 480, 1000).is_none());
}

#[test]
fn geometry_allows_cells_of_zero_edge() {
    // round(432 / 150) = 3: the pitch is one separator, the cells are empty.
    let g = Geometry::compute_geometry(640, 480, 150).unwrap();
    assert_eq!(g.square_size, 0);
    let g = Geometry::compute_geometry(640, 480, 172).unwrap();
    assert_eq!(g.square_size, 0);
    let g = Geometry::compute_geometry(10, 10, 3).unwrap();
    assert_eq!(g.square_size, 0);
    let g = Geometry::compute_geometry(640, 480, 123).unwrap();
    assert_eq!(g.square_size, 1);
}

#[test]
fn click_near_centre_of_top_left_cell() {
    let g = layout();
    assert_eq!(g.pixel_to_cell(177, 97), (0, 0));
    assert_eq!(g.pixel_to_cell(320, 240), (1, 1));
}

#[test]
fn clicks_outside_the_region_are_clamped() {
    let g = layout();
    assert_eq!(g.pixel_to_cell(0, 0), (0, 0));
    assert_eq!(g.pixel_to_cell(104 + 432, 24 + 432), (2, 2));
    assert_eq!(g.pixel_to_cell(639, 479), (2, 2));
    assert_eq!(g.pixel_to_cell(u32::MAX, u32::MAX), (2, 2));
    assert_eq!(g.pixel_to_cell(104 + 431, 24), (2, 0));
}

#[test]
fn pixel_to_cell_is_monotonic() {
    let g = layout();
    let mut last = (0, 0);
    for p in 0..700u32 {
        let c = g.pixel_to_cell(p, p);
        assert!(c.0 >= last.0 && c.1 >= last.1);
        assert!(c.0 < 3 && c.1 < 3);
        last = c;
    }
    // 3 * 144 / 432 = 1 exactly: the second column starts at 104 + 144.
    assert_eq!(g.pixel_to_cell(104 + 143, 0).0, 0);
    assert_eq!(g.pixel_to_cell(104 + 144, 0).0, 1);
}

#[test]
fn cell_to_pixel_gives_interior_corners() {
    let g = layout();
    assert_eq!(g.cell_to_pixel(0, 0), (107, 27));
    assert_eq!(g.cell_to_pixel(2, 2), (395, 315));
    assert_eq!(g.cell_to_pixel(1, 0), (251, 27));
}
