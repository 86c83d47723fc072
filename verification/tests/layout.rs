use scream::layout::{placements, Grid, Placement};

#[test]
fn one_window_fills_the_canvas() {
    assert_eq!(Grid::new(1, 1920, 1080),
               Grid { cols: 1, rows: 1, cell_w: 1920, cell_h: 1080 });
}

#[test]
fn two_windows_split_side_by_side() {
    let g = Grid::new(2, 1920, 1080);
    assert_eq!((g.cols, g.rows), (2, 1));
    assert_eq!(g.cell_w, 960);
}

#[test]
fn three_windows_use_a_two_by_two_grid() {
    let g = Grid::new(3, 1000, 1000);
    assert_eq!((g.cols, g.rows), (2, 2));
    assert_eq!(g.cell_origin(0), (0, 0));
    assert_eq!(g.cell_origin(1), (500, 0));
    assert_eq!(g.cell_origin(2), (0, 500));
}

#[test]
fn five_windows_spill_into_a_third_column() {
    let g = Grid::new(5, 1500, 1000);
    assert_eq!((g.cols, g.rows), (3, 2));
}

#[test]
fn zero_windows_does_not_divide_by_zero() {
    assert_eq!(Grid::new(0, 1920, 1080).cols, 1);
}

#[test]
fn the_grid_is_the_rounded_up_square_root() {
    for n in 1..2000usize {
        let g = Grid::new(n, 1920, 1080);
        let cols = (n as f64).sqrt().ceil() as u32;
        assert_eq!(g.cols, cols);
        assert_eq!(g.rows, (n as u32).div_ceil(cols));
        assert_eq!(g.cell_w, 1920 / g.cols);
        assert_eq!(g.cell_h, 1080 / g.rows);
    }
}

#[test]
fn cells_neither_overlap_nor_leave_the_canvas() {
    for n in 0..40usize {
        let cells = placements(n, 1921, 1079);
        assert_eq!(cells.len(), n);
        for (i, a) in cells.iter().enumerate() {
            assert!(a.x + a.width <= 1921 && a.y + a.height <= 1079);
            for b in &cells[..i] {
                assert!(a.x + a.width <= b.x || b.x + b.width <= a.x
                    || a.y + a.height <= b.y || b.y + b.height <= a.y);
            }
        }
    }
    assert_eq!(placements(2, 100, 50), vec![
        Placement { x: 0, y: 0, width: 50, height: 50 },
        Placement { x: 50, y: 0, width: 50, height: 50 },
    ]);
}

#[test]
fn a_great_many_windows_still_have_a_grid() {
    let g = Grid::new(1usize << 40, u32::MAX, u32::MAX);
    assert_eq!((g.cols, g.rows), (1 << 20, 1 << 20));
    assert_eq!((g.cell_w, g.cell_h), (4095, 4095));
}

#[test]
fn cells_are_in_reading_order() {
    let cells = placements(7, 900, 900);
    let origins: Vec<(u32, u32)> = cells.iter().map(|c| (c.x, c.y)).collect();
    assert_eq!(origins, vec![(0, 0), (300, 0), (600, 0), (0, 300), (300, 300), (600, 300), (0, 600)]);
}
