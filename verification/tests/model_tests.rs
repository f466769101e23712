use beads::entities::{Side, Size};
use beads::grid::Error;
use beads::model::{Bead, Model};

fn model_2x2(color: u32) -> Model<u32> {
    Model::new(Size { width: 2, height: 2 }, color)
}

fn cell(m: &Model<u32>, r: usize, c: usize) -> Bead<u32> {
    m.grid.get(r, c)
}

fn all_colors(m: &Model<u32>) -> Vec<Vec<u32>> {
    let g = m.grid_color();
    let mut out = Vec::new();
    for r in 0..g.height() {
        let mut row = Vec::new();
        for c in 0..g.width() {
            row.push(g.get(r, c));
        }
        out.push(row);
    }
    out
}

fn any_filled(m: &Model<u32>) -> bool {
    for r in 0..m.grid.height() {
        for c in 0..m.grid.width() {
            if m.grid.get(r, c).filled {
                return true;
            }
        }
    }
    false
}

#[test]
fn set_replaces_cell_and_returns_previous_bead() {
    // a 2x2 all-A grid; setting (0,0) to C returns the old bead and leaves
    // every other cell untouched
    let a = 10u32;
    let c = 30u32;
    let mut m = model_2x2(a);
    let prev = m.set(0, 0, c).unwrap();
    assert_eq!(prev, Some(Bead { color: a, filled: false }));
    assert_eq!(all_colors(&m), vec![vec![c, a], vec![a, a]]);
}

#[test]
fn set_same_color_is_a_noop() {
    let a = 10u32;
    let mut m = model_2x2(a);
    let line_before = m.line.line().clone();
    let res = m.set(1, 1, a).unwrap();
    assert_eq!(res, None);
    assert_eq!(m.line.line(), &line_before);
    assert_eq!(all_colors(&m), vec![vec![a, a], vec![a, a]]);
}

#[test]
fn set_out_of_bounds_fails() {
    let mut m = model_2x2(1);
    assert_eq!(m.set(2, 0, 5), Err(Error::OutOfBounds));
    assert_eq!(m.set(0, 9, 5), Err(Error::OutOfBounds));
    assert_eq!(all_colors(&m), vec![vec![1, 1], vec![1, 1]]);
}

#[test]
fn toggle_filled_flips_a_run_and_rebuilds_the_grid() {
    let mut m = model_2x2(1);
    // a uniform 2x2 grid is a single run of four beads
    assert_eq!(m.line.len(), 1);
    let was = m.toggle_filled(0).unwrap();
    assert!(!was);
    assert!(any_filled(&m));
    let was = m.toggle_filled(0).unwrap();
    assert!(was);
    assert!(!any_filled(&m));
}

#[test]
fn toggle_filled_out_of_bounds_fails() {
    let mut m = model_2x2(1);
    assert_eq!(m.toggle_filled(5), Err(Error::OutOfBounds));
}

#[test]
fn set_on_a_filled_cell_unfills_the_whole_grid() {
    let mut m = model_2x2(1);
    m.toggle_filled(0).unwrap();
    assert!(any_filled(&m));
    // every cell of the single run is filled; replacing one of them clears
    // the highlight everywhere
    m.set(1, 1, 7).unwrap();
    assert!(!any_filled(&m));
    assert_eq!(all_colors(&m), vec![vec![1, 1], vec![1, 7]]);
}

#[test]
fn set_anywhere_clears_highlights_elsewhere() {
    // unfill propagation: editing a color anywhere invalidates all
    // highlight state, even when the replaced bead is itself unfilled
    let mut m = model_2x2(1);
    m.set(0, 0, 2).unwrap(); // two runs now: [2] and [1,1,1]
    assert_eq!(m.line.len(), 2);
    m.toggle_filled(1).unwrap(); // highlight the all-1 run
    assert!(any_filled(&m));
    assert!(!cell(&m, 0, 0).filled);
    m.set(0, 0, 3).unwrap(); // replaced bead was unfilled; fills still clear
    assert!(!any_filled(&m));
    assert_eq!(all_colors(&m), vec![vec![3, 1], vec![1, 1]]);
}

#[test]
fn model_grow_unfills_and_adds_an_edge() {
    let mut m = model_2x2(1);
    m.toggle_filled(0).unwrap();
    m.grow(Side::Right, 9);
    assert!(!any_filled(&m));
    assert_eq!(all_colors(&m), vec![vec![1, 1, 9], vec![1, 1, 9]]);
}

#[test]
fn model_shrink_fails_at_the_floor_and_leaves_the_model_unchanged() {
    let mut m = Model::new(Size { width: 1, height: 2 }, 4u32);
    assert_eq!(m.shrink(Side::Left), Err(Error::CannotShrink));
    assert_eq!(m.shrink(Side::Right), Err(Error::CannotShrink));
    assert_eq!(all_colors(&m), vec![vec![4], vec![4]]);
    m.shrink(Side::Top).unwrap();
    assert_eq!(m.shrink(Side::Bottom), Err(Error::CannotShrink));
    assert_eq!(all_colors(&m), vec![vec![4]]);
}

#[test]
fn model_resize_grows_right_and_bottom_with_default_color() {
    let mut m = model_2x2(5);
    m.resize(Size { width: 3, height: 1 });
    assert_eq!(all_colors(&m), vec![vec![5, 5, 0]]);
    assert!(!any_filled(&m));
}

#[test]
fn line_reflects_grid_contents() {
    let mut m = model_2x2(1);
    m.set(0, 0, 2).unwrap();
    // row-major cells: 2 1 1 1 -> runs (2,1) (1,3)
    let runs = m.line.line();
    assert_eq!(runs.len(), 2);
    assert_eq!(runs[0], (Bead { color: 2, filled: false }, 1));
    assert_eq!(runs[1], (Bead { color: 1, filled: false }, 3));
    let g = m.line.grid();
    assert_eq!(g.width(), 2);
    assert_eq!(g.height(), 2);
    assert_eq!(g.get(0, 0), Bead { color: 2, filled: false });
}

#[test]
fn line_color_drops_fill_flags_but_keeps_runs() {
    let mut m = model_2x2(1);
    m.set(1, 1, 8).unwrap();
    let lc = m.line_color();
    let runs = lc.line();
    assert_eq!(runs.len(), 2);
    assert_eq!(runs[0], (1u32, 3));
    assert_eq!(runs[1], (8u32, 1));
}

#[test]
fn summary_counts_cells_per_color() {
    let mut m = model_2x2(1);
    m.set(0, 0, 2).unwrap();
    m.set(1, 1, 2).unwrap();
    // cells: 2 1 / 1 2
    let s = m.line_color().summary();
    assert_eq!(s.len(), 2);
    assert_eq!(s.get(&1), Some(&2));
    assert_eq!(s.get(&2), Some(&2));
}
