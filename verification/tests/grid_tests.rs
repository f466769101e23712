use beads::entities::{Side, Size};
use beads::grid::{Error, Grid};

fn colors(g: &Grid<u32>) -> Vec<Vec<u32>> {
    let mut out = Vec::new();
    for r in 0..g.height() {
        let mut row = Vec::new();
        for c in 0..g.width() {
            row.push(g.get(r, c));
        }
        out.push(row);
    }
    out
}

#[test]
fn new_fills_every_cell() {
    let g = Grid::new(Size { width: 3, height: 2 }, 7u32);
    assert_eq!(g.width(), 3);
    assert_eq!(g.height(), 2);
    assert_eq!(g.cell_count(), 6);
    assert_eq!(colors(&g), vec![vec![7, 7, 7], vec![7, 7, 7]]);
}

#[test]
fn buffer_length_is_width_times_height_through_operations() {
    let mut g = Grid::new(Size { width: 2, height: 2 }, 0u32);
    assert_eq!(g.cell_count(), g.width() * g.height());
    g.grow(Side::Left, 1);
    assert_eq!(g.cell_count(), g.width() * g.height());
    g.grow(Side::Bottom, 2);
    assert_eq!(g.cell_count(), g.width() * g.height());
    g.shrink(Side::Top).unwrap();
    assert_eq!(g.cell_count(), g.width() * g.height());
    g.resize_with(Size { width: 5, height: 1 }, 9);
    assert_eq!(g.cell_count(), g.width() * g.height());
}

#[test]
fn frow_raw_derives_height() {
    let g = Grid::frow_raw(2, vec![1u32, 2, 3, 4, 5, 6]).unwrap();
    assert_eq!(g.width(), 2);
    assert_eq!(g.height(), 3);
    assert_eq!(colors(&g), vec![vec![1, 2], vec![3, 4], vec![5, 6]]);
}

#[test]
fn frow_raw_rejects_ragged_buffer() {
    match Grid::frow_raw(4, vec![1u32, 2, 3, 4, 5]) {
        Err(Error::InvalidDataSize) => {}
        other => panic!("expected InvalidDataSize, got {:?}", other),
    }
}

#[test]
fn frow_raw_rejects_empty_buffer() {
    match Grid::frow_raw(3, Vec::<u32>::new()) {
        Err(Error::InvalidDataSize) => {}
        other => panic!("expected InvalidDataSize, got {:?}", other),
    }
}

#[test]
fn grow_each_side() {
    let base = Grid::frow_raw(2, vec![1u32, 2, 3, 4]).unwrap();

    let mut g = base.clone();
    g.grow(Side::Top, 9);
    assert_eq!(colors(&g), vec![vec![9, 9], vec![1, 2], vec![3, 4]]);

    let mut g = base.clone();
    g.grow(Side::Bottom, 9);
    assert_eq!(colors(&g), vec![vec![1, 2], vec![3, 4], vec![9, 9]]);

    let mut g = base.clone();
    g.grow(Side::Left, 9);
    assert_eq!(colors(&g), vec![vec![9, 1, 2], vec![9, 3, 4]]);

    let mut g = base.clone();
    g.grow(Side::Right, 9);
    assert_eq!(colors(&g), vec![vec![1, 2, 9], vec![3, 4, 9]]);
}

#[test]
fn shrink_each_side() {
    let base = Grid::frow_raw(3, vec![1u32, 2, 3, 4, 5, 6, 7, 8, 9]).unwrap();

    let mut g = base.clone();
    g.shrink(Side::Top).unwrap();
    assert_eq!(colors(&g), vec![vec![4, 5, 6], vec![7, 8, 9]]);

    let mut g = base.clone();
    g.shrink(Side::Bottom).unwrap();
    assert_eq!(colors(&g), vec![vec![1, 2, 3], vec![4, 5, 6]]);

    let mut g = base.clone();
    g.shrink(Side::Left).unwrap();
    assert_eq!(colors(&g), vec![vec![2, 3], vec![5, 6], vec![8, 9]]);

    let mut g = base.clone();
    g.shrink(Side::Right).unwrap();
    assert_eq!(colors(&g), vec![vec![1, 2], vec![4, 5], vec![7, 8]]);
}

#[test]
fn grow_then_shrink_restores_exact_contents_on_every_side() {
    let base = Grid::frow_raw(3, vec![1u32, 2, 3, 4, 5, 6]).unwrap();
    for side in [Side::Top, Side::Bottom, Side::Left, Side::Right] {
        let mut g = base.clone();
        g.grow(side, 42);
        g.shrink(side).unwrap();
        assert_eq!(colors(&g), colors(&base), "side {:?}", side);
    }
}

#[test]
fn shrink_at_floor_fails_and_leaves_grid_unchanged() {
    let mut wide = Grid::frow_raw(3, vec![1u32, 2, 3]).unwrap();
    for side in [Side::Top, Side::Bottom] {
        match wide.shrink(side) {
            Err(Error::CannotShrink) => {}
            other => panic!("expected CannotShrink, got {:?}", other),
        }
    }
    assert_eq!(colors(&wide), vec![vec![1, 2, 3]]);

    let mut tall = Grid::frow_raw(1, vec![1u32, 2, 3]).unwrap();
    for side in [Side::Left, Side::Right] {
        match tall.shrink(side) {
            Err(Error::CannotShrink) => {}
            other => panic!("expected CannotShrink, got {:?}", other),
        }
    }
    assert_eq!(colors(&tall), vec![vec![1], vec![2], vec![3]]);
}

#[test]
fn get_mut_writes_one_cell() {
    let mut g = Grid::frow_raw(2, vec![1u32, 2, 3, 4]).unwrap();
    *g.get_mut(1, 0) = 30;
    assert_eq!(colors(&g), vec![vec![1, 2], vec![30, 4]]);
}

#[test]
fn check_bounds_reports_both_axes() {
    let g = Grid::new(Size { width: 2, height: 3 }, 0u32);
    assert!(g.check_bounds(2, 1).is_ok());
    assert_eq!(g.check_bounds(3, 0), Err(Error::OutOfBounds));
    assert_eq!(g.check_bounds(0, 2), Err(Error::OutOfBounds));
}

#[test]
fn as_table_decomposes_into_rows() {
    let g = Grid::frow_raw(2, vec![1u32, 2, 3, 4, 5, 6]).unwrap();
    let t = g.as_table();
    assert_eq!(t, vec![vec![1, 2], vec![3, 4], vec![5, 6]]);
}

#[test]
fn map_preserves_structure() {
    let g = Grid::frow_raw(2, vec![1u32, 2, 3, 4]).unwrap();
    let doubled = g.map(|x: &u32| -> u32 { *x * 2 });
    assert_eq!(colors(&doubled), vec![vec![2, 4], vec![6, 8]]);
    assert_eq!(doubled.width(), g.width());
    assert_eq!(doubled.height(), g.height());
}

#[test]
fn resize_keeps_top_left_and_fills_with_default() {
    let mut g = Grid::frow_raw(2, vec![1u32, 2, 3, 4]).unwrap();
    g.resize(Size { width: 3, height: 3 });
    assert_eq!(colors(&g), vec![vec![1, 2, 0], vec![3, 4, 0], vec![0, 0, 0]]);
    g.resize(Size { width: 1, height: 2 });
    assert_eq!(colors(&g), vec![vec![1], vec![3]]);
}

#[test]
fn unique_items_collects_distinct_values() {
    let g = Grid::frow_raw(2, vec![1u32, 2, 1, 2, 3, 3]).unwrap();
    let s = g.unique_items();
    assert_eq!(s.len(), 3);
    assert!(s.contains(&1) && s.contains(&2) && s.contains(&3));
}
