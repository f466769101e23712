//! The bead model: a grid of colored cells each carrying a transient
//! highlight ("filled") flag, kept in sync with its derived line projection.

use vstd::prelude::*;
use vstd::laws_eq::obeys_concrete_eq;
use vstd::std_specs::cmp::PartialEqSpec;
use crate::grid::{
    Grid, Error, grown_width, grown_height, grown_cell, shrunk_width, shrunk_height, shrunk_cell,
    shrink_ok, resized_cell,
};
use crate::beads_line::{BeadsLine, decode_runs, lemma_decode_update_value_len};
use crate::entities::{Side, Size};

verus! {

/// What a cell color must support: plain-value copying, equality, hashing
/// and debug printing.
pub trait ColorTrait: Copy + core::fmt::Debug + Eq + core::hash::Hash {

}

impl<T: Copy + core::fmt::Debug + Eq + core::hash::Hash> ColorTrait for T {

}

/// One grid cell: a color and a transient highlight ("filled") flag. The
/// flag is meaningful only relative to an unmodified pattern and is cleared
/// by any color or structural change.
#[derive(Clone, Copy, Debug, Hash)]
pub struct Bead<T: ColorTrait> {
    pub color: T,
    pub filled: bool,
}

impl<T: ColorTrait> PartialEq for Bead<T> {
    fn eq(&self, other: &Bead<T>) -> (r: bool) {
        self.color == other.color && self.filled == other.filled
    }
}

impl<T: ColorTrait> Eq for Bead<T> {

}

impl<T: ColorTrait> vstd::std_specs::cmp::PartialEqSpecImpl for Bead<T> {
    open spec fn obeys_eq_spec() -> bool {
        <T as PartialEqSpec>::obeys_eq_spec()
    }

    open spec fn eq_spec(&self, other: &Bead<T>) -> bool {
        self.color.eq_spec(&other.color) && self.filled == other.filled
    }
}

impl<T: ColorTrait + Default> Default for Bead<T> {
    /// An unfilled bead of the default color.
    fn default() -> (b: Bead<T>)
        ensures
            b.filled == false,
            call_ensures(T::default, (), b.color),
    {
        Bead { color: T::default(), filled: false }
    }
}

/// Colors with exact equality give beads exact equality.
pub proof fn lemma_bead_obeys_concrete_eq<T: ColorTrait>()
    requires
        obeys_concrete_eq::<T>(),
    ensures
        obeys_concrete_eq::<Bead<T>>(),
{
    reveal(obeys_concrete_eq);
    assert forall|x: Bead<T>, y: Bead<T>| x.eq_spec(&y) <==> x == y by {
        if x.color == y.color && x.filled == y.filled {
            assert(x == y);
        }
    }
}

/// The authoritative grid of beads together with its derived line
/// projection, which always reflects the current grid contents.
#[derive(Clone)]
pub struct Model<T: ColorTrait> {
    pub grid: Grid<Bead<T>>,
    pub line: BeadsLine<Bead<T>>,
}

impl<T: ColorTrait> Model<T> {
    /// The model invariant: a well-formed grid, and a projection of the same
    /// width that decodes to exactly the grid's cell buffer.
    pub open spec fn wf(self) -> bool {
        &&& self.grid.wf()
        &&& self.line.wf()
        &&& self.line.spec_width() == self.grid.spec_width()
        &&& decode_runs(self.line.runs()) == self.grid.contents()
    }

    /// No cell is highlighted.
    pub open spec fn unfilled(self) -> bool {
        forall|r: int, c: int|
            self.grid.in_bounds(r, c) ==> !(#[trigger] self.grid.cell(r, c)).filled
    }

    /// A fresh model: every cell holds `color`, unfilled.
    pub fn new(size: Size, color: T) -> (m: Model<T>)
        requires
            size.wf(),
            size.width * size.height <= usize::MAX,
            obeys_concrete_eq::<T>(),
        ensures
            m.wf(),
            m.unfilled(),
            m.grid.spec_width() == size.width,
            m.grid.spec_height() == size.height,
            forall|r: int, c: int|
                m.grid.in_bounds(r, c) ==> m.grid.cell(r, c) == (Bead { color, filled: false }),
    {
        proof {
            lemma_bead_obeys_concrete_eq::<T>();
        }
        let grid = Grid::new(size, Bead { color, filled: false });
        let line = BeadsLine::build(&grid);
        Model { grid, line }
    }

    /// Clears the filled flag of every cell, touching nothing else; the line
    /// projection is left for the caller to rebuild.
    fn unfill_grid(&mut self)
        requires
            old(self).grid.wf(),
        ensures
            final(self).grid.wf(),
            final(self).grid.spec_width() == old(self).grid.spec_width(),
            final(self).grid.spec_height() == old(self).grid.spec_height(),
            forall|r: int, c: int|
                old(self).grid.in_bounds(r, c) ==> final(self).grid.cell(r, c) == (Bead {
                    color: old(self).grid.cell(r, c).color,
                    filled: false,
                }),
            final(self).line == old(self).line,
    {
        let w = self.grid.width();
        let h = self.grid.height();
        let ghost m0 = *self;
        let mut r: usize = 0;
        while r < h
            invariant
                r <= h,
                self.grid.wf(),
                m0.grid.wf(),
                w as int == m0.grid.spec_width(),
                h as int == m0.grid.spec_height(),
                self.grid.spec_width() == m0.grid.spec_width(),
                self.grid.spec_height() == m0.grid.spec_height(),
                self.line == m0.line,
                forall|rr: int, cc: int|
                    m0.grid.in_bounds(rr, cc) && rr < r ==> #[trigger] self.grid.cell(rr, cc)
                        == (Bead { color: m0.grid.cell(rr, cc).color, filled: false }),
                forall|rr: int, cc: int|
                    m0.grid.in_bounds(rr, cc) && rr >= r ==> #[trigger] self.grid.cell(rr, cc)
                        == m0.grid.cell(rr, cc),
            decreases h - r,
        {
            let mut c: usize = 0;
            while c < w
                invariant
                    c <= w,
                    r < h,
                    self.grid.wf(),
                    m0.grid.wf(),
                    w as int == m0.grid.spec_width(),
                    h as int == m0.grid.spec_height(),
                    self.grid.spec_width() == m0.grid.spec_width(),
                    self.grid.spec_height() == m0.grid.spec_height(),
                    self.line == m0.line,
                    forall|rr: int, cc: int|
                        m0.grid.in_bounds(rr, cc) && (rr < r || (rr == r && cc < c))
                            ==> #[trigger] self.grid.cell(rr, cc) == (Bead {
                            color: m0.grid.cell(rr, cc).color,
                            filled: false,
                        }),
                    forall|rr: int, cc: int|
                        m0.grid.in_bounds(rr, cc) && (rr > r || (rr == r && cc >= c))
                            ==> #[trigger] self.grid.cell(rr, cc) == m0.grid.cell(rr, cc),
                decreases w - c,
            {
                let b = self.grid.get(r, c);
                self.grid.set_cell(r, c, Bead { color: b.color, filled: false });
                c += 1;
            }
            r += 1;
        }
    }

    /// The grid of colors alone.
    pub fn grid_color(&self) -> (g: Grid<T>)
        requires
            self.wf(),
        ensures
            g.wf(),
            g.spec_width() == self.grid.spec_width(),
            g.spec_height() == self.grid.spec_height(),
            forall|r: int, c: int|
                g.in_bounds(r, c) ==> #[trigger] g.cell(r, c) == self.grid.cell(r, c).color,
    {
        let color_of = |b: &Bead<T>| -> (col: T)
            ensures
                col == b.color,
            {
                b.color
            };
        let g = self.grid.map(color_of);
        proof {
            assert forall|r: int, c: int| g.in_bounds(r, c) implies #[trigger] g.cell(r, c)
                == self.grid.cell(r, c).color by {
                crate::grid::lemma_flat_index(g.spec_width(), g.spec_height(), r, c);
            }
        }
        g
    }

    /// The line projection over colors alone: same run counts, colors only.
    pub fn line_color(&self) -> (l: BeadsLine<T>)
        requires
            self.wf(),
        ensures
            l.spec_width() == self.line.spec_width(),
            l.runs().len() == self.line.runs().len(),
            forall|i: int|
                0 <= i < l.runs().len() ==> #[trigger] l.runs()[i] == (
                self.line.runs()[i].0.color,
                self.line.runs()[i].1,
                ),
    {
        let color_of = |b: &Bead<T>| -> (col: T)
            ensures
                col == b.color,
            {
                b.color
            };
        let l = self.line.map(color_of);
        l
    }
}

/// The bead at `(r, c)` after an effective `set(row, col, color)` on `m1`:
/// the addressed cell takes the new color; every other cell keeps its color;
/// every cell of the grid is unfilled, since an edit anywhere invalidates
/// all highlight state.
pub open spec fn set_bead<T: ColorTrait>(
    m1: Model<T>,
    row: int,
    col: int,
    color: T,
    r: int,
    c: int,
) -> Bead<T> {
    if r == row && c == col {
        Bead { color, filled: false }
    } else {
        Bead { color: m1.grid.cell(r, c).color, filled: false }
    }
}

/// `m2` is exactly `m1` after an effective `set(row, col, color)`.
pub open spec fn is_set_of<T: ColorTrait>(
    m2: Model<T>,
    m1: Model<T>,
    row: int,
    col: int,
    color: T,
) -> bool {
    &&& m2.wf()
    &&& m2.grid.spec_width() == m1.grid.spec_width()
    &&& m2.grid.spec_height() == m1.grid.spec_height()
    &&& forall|r: int, c: int|
        m1.grid.in_bounds(r, c) ==> m2.grid.cell(r, c) == set_bead(m1, row, col, color, r, c)
}

/// `m2` is exactly `m1` unfilled and grown by one row or column of
/// unfilled `v` at `side`.
pub open spec fn is_model_grow_of<T: ColorTrait>(
    m2: Model<T>,
    m1: Model<T>,
    side: Side,
    v: T,
) -> bool {
    &&& m2.wf()
    &&& m2.grid.spec_width() == grown_width(m1.grid, side)
    &&& m2.grid.spec_height() == grown_height(m1.grid, side)
    &&& forall|r: int, c: int|
        m2.grid.in_bounds(r, c) ==> m2.grid.cell(r, c) == (Bead {
            color: grown_cell(m1.grid, side, (Bead { color: v, filled: false }), r, c).color,
            filled: false,
        })
}

/// `m2` is exactly `m1` with the edge at `side` removed and every remaining
/// cell unfilled.
pub open spec fn is_model_shrink_of<T: ColorTrait>(m2: Model<T>, m1: Model<T>, side: Side) -> bool {
    &&& m2.wf()
    &&& m2.grid.spec_width() == shrunk_width(m1.grid, side)
    &&& m2.grid.spec_height() == shrunk_height(m1.grid, side)
    &&& forall|r: int, c: int|
        m2.grid.in_bounds(r, c) ==> m2.grid.cell(r, c) == (Bead {
            color: shrunk_cell(m1.grid, side, r, c).color,
            filled: false,
        })
}

/// `m2` is exactly `m1` resized to `size` toward the bottom-right, added
/// cells holding unfilled `d`, and every cell unfilled.
pub open spec fn is_model_resize_of<T: ColorTrait>(
    m2: Model<T>,
    m1: Model<T>,
    size: Size,
    d: T,
) -> bool {
    &&& m2.wf()
    &&& m2.grid.spec_width() == size.width
    &&& m2.grid.spec_height() == size.height
    &&& forall|r: int, c: int|
        m2.grid.in_bounds(r, c) ==> m2.grid.cell(r, c) == (Bead {
            color: resized_cell(m1.grid, (Bead { color: d, filled: false }), r, c).color,
            filled: false,
        })
}

impl<T: ColorTrait> Model<T> {
    /// Replaces the color at `(row, column)`.
    ///
    /// Returns `Ok(None)` and changes nothing when the cell already holds
    /// `color`; otherwise returns the replaced bead, writes the new color,
    /// unfills the whole grid — highlights are meaningful only relative to
    /// an unmodified pattern — and rebuilds the projection. Fails with
    /// `OutOfBounds` exactly when the address is outside the grid.
    pub fn set(&mut self, row: usize, column: usize, color: T) -> (res: Result<
        Option<Bead<T>>,
        Error,
    >)
        requires
            old(self).wf(),
            obeys_concrete_eq::<T>(),
        ensures
            match res {
                Err(e) => {
                    &&& e == Error::OutOfBounds
                    &&& !old(self).grid.in_bounds(row as int, column as int)
                    &&& *final(self) == *old(self)
                },
                Ok(opt) => match opt {
                    None => {
                        &&& old(self).grid.in_bounds(row as int, column as int)
                        &&& old(self).grid.cell(row as int, column as int).color == color
                        &&& *final(self) == *old(self)
                    },
                    Some(prev) => {
                        &&& old(self).grid.in_bounds(row as int, column as int)
                        &&& prev == old(self).grid.cell(row as int, column as int)
                        &&& prev.color != color
                        &&& is_set_of(*final(self), *old(self), row as int, column as int, color)
                    },
                },
            },
    {
        proof {
            reveal(obeys_concrete_eq);
            lemma_bead_obeys_concrete_eq::<T>();
        }
        match self.grid.check_bounds(row, column) {
            Err(e) => Err(e),
            Ok(()) => {
                let ghost m0 = *self;
                let prev = self.grid.get(row, column);
                if prev.color == color {
                    Ok(None)
                } else {
                    self.grid.set_cell(row, column, Bead { color, filled: false });
                    self.unfill_grid();
                    self.line = BeadsLine::build(&self.grid);
                    proof {
                        assert forall|r: int, c: int| m0.grid.in_bounds(r, c) implies self.grid.cell(
                            r,
                            c,
                        ) == set_bead(m0, row as int, column as int, color, r, c) by {
                        }
                    }
                    Ok(Some(prev))
                }
            },
        }
    }

    /// Flips the filled flag of the run at `index` in the line projection,
    /// returns the prior flag, and regenerates the grid from the projection.
    /// Fails with `OutOfBounds` exactly when `index` is past the last run.
    pub fn toggle_filled(&mut self, index: usize) -> (res: Result<bool, Error>)
        requires
            old(self).wf(),
        ensures
            match res {
                Err(e) => {
                    &&& e == Error::OutOfBounds
                    &&& index >= old(self).line.runs().len()
                    &&& *final(self) == *old(self)
                },
                Ok(was) => {
                    &&& index < old(self).line.runs().len()
                    &&& was == old(self).line.runs()[index as int].0.filled
                    &&& final(self).wf()
                    &&& final(self).grid.spec_width() == old(self).grid.spec_width()
                    &&& final(self).grid.spec_height() == old(self).grid.spec_height()
                    &&& final(self).line.runs() == old(self).line.runs().update(
                        index as int,
                        (
                            (Bead {
                                color: old(self).line.runs()[index as int].0.color,
                                filled: !was,
                            }),
                            old(self).line.runs()[index as int].1,
                        ),
                    )
                },
            },
    {
        if index >= self.line.len() {
            Err(Error::OutOfBounds)
        } else {
            let run = self.line.get_run(index);
            let b = run.0;
            self.line.set_run_value(index, Bead { color: b.color, filled: !b.filled });
            proof {
                lemma_decode_update_value_len(
                    old(self).line.runs(),
                    index as int,
                    (Bead { color: b.color, filled: !b.filled }),
                );
                let w = self.grid.spec_width();
                let h = self.grid.spec_height();
                assert((decode_runs(self.line.runs()).len() as int) % w == 0 && decode_runs(
                    self.line.runs(),
                ).len() >= 1) by {
                    assert(w * h >= 1 && (w * h) % w == 0) by (nonlinear_arith)
                        requires w >= 1 && h >= 1;
                }
            }
            self.grid = self.line.grid();
            proof {
                let w = old(self).grid.spec_width();
                let h = old(self).grid.spec_height();
                assert(self.grid.spec_height() == h) by {
                    assert(self.grid.contents().len() == w * h);
                    assert(self.grid.contents().len() == self.grid.spec_width()
                        * self.grid.spec_height());
                    assert(self.grid.spec_width() == w);
                    assert(w * h == w * self.grid.spec_height() ==> h
                        == self.grid.spec_height()) by (nonlinear_arith)
                        requires w >= 1;
                }
            }
            Ok(b.filled)
        }
    }

    /// Unfills the whole grid, inserts one row or column of unfilled `value`
    /// at `side`, and rebuilds the projection.
    pub fn grow(&mut self, side: Side, value: T)
        requires
            old(self).wf(),
            obeys_concrete_eq::<T>(),
            (old(self).grid.spec_width() + 1) * (old(self).grid.spec_height() + 1) <= usize::MAX,
        ensures
            is_model_grow_of(*final(self), *old(self), side, value),
    {
        proof {
            lemma_bead_obeys_concrete_eq::<T>();
        }
        let ghost m0 = *self;
        self.unfill_grid();
        self.grid.grow(side, Bead { color: value, filled: false });
        self.line = BeadsLine::build(&self.grid);
        proof {
            assert forall|r: int, c: int| self.grid.in_bounds(r, c) implies self.grid.cell(r, c)
                == (Bead {
                color: grown_cell(
                    m0.grid,
                    side,
                    (Bead { color: value, filled: false }),
                    r,
                    c,
                ).color,
                filled: false,
            }) by {
                match side {
                    Side::Top => {},
                    Side::Bottom => {},
                    Side::Left => {},
                    Side::Right => {},
                }
            }
        }
    }

    /// Removes the edge at `side`, unfills the remaining grid, and rebuilds
    /// the projection. Fails with `CannotShrink`, changing nothing, exactly
    /// when that dimension is already 1.
    pub fn shrink(&mut self, side: Side) -> (res: Result<(), Error>)
        requires
            old(self).wf(),
            obeys_concrete_eq::<T>(),
        ensures
            match res {
                Ok(()) => {
                    &&& shrink_ok(old(self).grid, side)
                    &&& is_model_shrink_of(*final(self), *old(self), side)
                },
                Err(e) => {
                    &&& e == Error::CannotShrink
                    &&& !shrink_ok(old(self).grid, side)
                    &&& *final(self) == *old(self)
                },
            },
    {
        proof {
            lemma_bead_obeys_concrete_eq::<T>();
        }
        let ghost m0 = *self;
        match self.grid.shrink(side) {
            Err(e) => Err(e),
            Ok(()) => {
                self.unfill_grid();
                self.line = BeadsLine::build(&self.grid);
                Ok(())
            },
        }
    }
}

impl<T: ColorTrait + Default> Model<T> {
    /// Resizes toward the bottom-right, filling added cells with the default
    /// color, unfills everything, and rebuilds the projection.
    pub fn resize(&mut self, size: Size)
        requires
            old(self).wf(),
            obeys_concrete_eq::<T>(),
            size.wf(),
            (old(self).grid.spec_width() + size.width) * (old(self).grid.spec_height()
                + size.height) <= usize::MAX,
        ensures
            exists|d: T|
                #[trigger] call_ensures(T::default, (), d) && is_model_resize_of(
                    *final(self),
                    *old(self),
                    size,
                    d,
                ),
    {
        proof {
            lemma_bead_obeys_concrete_eq::<T>();
        }
        let ghost m0 = *self;
        let d = T::default();
        self.grid.resize_with(size, Bead { color: d, filled: false });
        self.unfill_grid();
        self.line = BeadsLine::build(&self.grid);
        proof {
            assert(is_model_resize_of(*self, m0, size, d));
        }
    }
}


/// Unfill propagation: any effective color edit clears the filled flag on
/// every cell of the grid, wherever the highlights were.
pub proof fn lemma_unfill_propagation<T: ColorTrait>(
    m1: Model<T>,
    m2: Model<T>,
    row: int,
    col: int,
    color: T,
)
    requires
        m1.wf(),
        m1.grid.in_bounds(row, col),
        is_set_of(m2, m1, row, col, color),
    ensures
        m2.unfilled(),
{
    assert forall|r: int, c: int| m2.grid.in_bounds(r, c) implies !(#[trigger] m2.grid.cell(
        r,
        c,
    )).filled by {
        assert(m1.grid.in_bounds(r, c));
        assert(m2.grid.cell(r, c) == set_bead(m1, row, col, color, r, c));
    }
}

} // verus!
