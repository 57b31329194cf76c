use raytracer::buffer::Buffer;
use raytracer::pixel::{jobs, scan_order, Pixel};

#[test]
fn new_buffer_is_filled() {
    let grid = Buffer::new(3, 2, 7u8);
    assert_eq!(grid.width(), 3);
    assert_eq!(grid.height(), 2);
    assert_eq!(grid.len(), 6);
    for j in 0..2 {
        for i in 0..3 {
            assert_eq!(*grid.get(&Pixel::new(i, j)), 7);
        }
    }
}

#[test]
fn buffer_without_cells() {
    let grid = Buffer::new(0, 5, 1.5f64);
    assert_eq!(grid.width(), 0);
    assert_eq!(grid.height(), 5);
    assert_eq!(grid.len(), 0);
    assert!(!grid.contains(&Pixel::new(0, 0)));
    let flat = Buffer::new(4, 0, 1.5f64);
    assert!(!flat.contains(&Pixel::new(0, 0)));
}

#[test]
fn contains_knows_the_grid() {
    let grid = Buffer::new(3, 2, 0u8);
    assert!(grid.contains(&Pixel::new(0, 0)));
    assert!(grid.contains(&Pixel::new(2, 1)));
    assert!(!grid.contains(&Pixel::new(3, 0)));
    assert!(!grid.contains(&Pixel::new(0, 2)));
    assert!(!grid.contains(&Pixel::new(3, 2)));
}

#[test]
fn set_changes_one_cell() {
    let mut grid = Buffer::new(3, 2, 0u32);
    grid.set(&Pixel::new(2, 0), 20);
    grid.set(&Pixel::new(0, 1), 1);
    for j in 0..2 {
        for i in 0..3 {
            let expected = match (i, j) {
                (2, 0) => 20,
                (0, 1) => 1,
                _ => 0,
            };
            assert_eq!(*grid.get(&Pixel::new(i, j)), expected);
        }
    }
    grid.set(&Pixel::new(2, 0), 21);
    assert_eq!(*grid.get(&Pixel::new(2, 0)), 21);
    assert_eq!(*grid.get(&Pixel::new(0, 1)), 1);
}

#[test]
fn every_cell_is_its_own() {
    let mut grid = Buffer::new(4, 3, 0usize);
    for j in 0..3 {
        for i in 0..4 {
            grid.set(&Pixel::new(i, j), 100 * j + i);
        }
    }
    for j in 0..3 {
        for i in 0..4 {
            assert_eq!(*grid.get(&Pixel::new(i, j)), 100 * j + i);
        }
    }
}

#[test]
fn pixel_keeps_column_and_row() {
    let pixel = Pixel::new(4, 9);
    assert_eq!(pixel.i(), 4);
    assert_eq!(pixel.j(), 9);
    assert_eq!(pixel, Pixel { i: 4, j: 9 });
    assert_ne!(pixel, Pixel::new(9, 4));
}

#[test]
fn jobs_walk_the_raster_from_the_bottom_row() {
    let all = jobs(3, 2);
    let expected = vec![
        Pixel::new(0, 0),
        Pixel::new(1, 0),
        Pixel::new(2, 0),
        Pixel::new(0, 1),
        Pixel::new(1, 1),
        Pixel::new(2, 1),
    ];
    assert_eq!(all, expected);
}

#[test]
fn scan_order_walks_the_raster_from_the_top_row() {
    let all = scan_order(3, 2);
    let expected = vec![
        Pixel::new(0, 1),
        Pixel::new(1, 1),
        Pixel::new(2, 1),
        Pixel::new(0, 0),
        Pixel::new(1, 0),
        Pixel::new(2, 0),
    ];
    assert_eq!(all, expected);
}

#[test]
fn empty_rasters_have_no_pixels() {
    assert!(jobs(0, 4).is_empty());
    assert!(jobs(4, 0).is_empty());
    assert!(scan_order(0, 4).is_empty());
    assert!(scan_order(4, 0).is_empty());
}

#[test]
fn both_walks_stay_inside_the_raster() {
    let grid = Buffer::new(5, 4, 0u8);
    let upward = jobs(5, 4);
    let downward = scan_order(5, 4);
    assert_eq!(upward.len(), 20);
    assert_eq!(downward.len(), 20);
    for k in 0..20 {
        assert!(grid.contains(&upward[k]));
        assert!(grid.contains(&downward[k]));
        assert_eq!(upward[k].i(), downward[k].i());
        assert_eq!(upward[k].j() + downward[k].j(), 3);
    }
}

#[test]
fn one_row_is_walked_alike_both_ways() {
    assert_eq!(jobs(3, 1), scan_order(3, 1));
}
