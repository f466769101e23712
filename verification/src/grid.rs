//! A dense, fixed-row-length, row-major grid with directional grow/shrink.

use vstd::prelude::*;
use std::collections::HashSet;
use crate::entities::{Side, Size};

verus! {

/// Everything a grid or model operation can fail with.
#[derive(Clone, Copy, Debug, Hash, PartialEq, Eq, Structural)]
pub enum Error {
    /// A row or column index at or past the corresponding dimension.
    OutOfBounds,
    /// A raw buffer whose length is not a positive multiple of the width.
    InvalidDataSize,
    /// A shrink that would take a dimension below 1.
    CannotShrink,
}

/// A `width * height` buffer stored row-major: the cell at row `r`,
/// column `c` lives at index `r * width + c`.
#[derive(Clone, Debug)]
pub struct Grid<T> {
    width: usize,
    height: usize,
    data: Vec<T>,
}

impl<T> Grid<T> {
    /// The number of columns.
    pub closed spec fn spec_width(self) -> int {
        self.width as int
    }

    /// The number of rows.
    pub closed spec fn spec_height(self) -> int {
        self.height as int
    }

    /// The row-major cell buffer.
    pub closed spec fn contents(self) -> Seq<T> {
        self.data@
    }

    /// The grid invariant: positive dimensions, and a buffer of exactly
    /// `width * height` cells.
    pub open spec fn wf(self) -> bool {
        &&& self.spec_width() >= 1
        &&& self.spec_height() >= 1
        &&& self.contents().len() == self.spec_width() * self.spec_height()
    }

    /// Whether `(r, c)` names a cell of the grid.
    pub open spec fn in_bounds(self, r: int, c: int) -> bool {
        0 <= r < self.spec_height() && 0 <= c < self.spec_width()
    }

    /// The cell at row `r`, column `c`.
    pub open spec fn cell(self, r: int, c: int) -> T {
        self.contents()[r * self.spec_width() + c]
    }

    /// Two well-formed grids of equal dimensions and equal cells everywhere
    /// have equal buffers.
    pub proof fn lemma_cells_eq_implies_contents_eq(a: Grid<T>, b: Grid<T>)
        requires
            a.wf(),
            b.wf(),
            a.spec_width() == b.spec_width(),
            a.spec_height() == b.spec_height(),
            forall|r: int, c: int| a.in_bounds(r, c) ==> a.cell(r, c) == b.cell(r, c),
        ensures
            a.contents() =~= b.contents(),
    {
        let w = a.spec_width();
        let h = a.spec_height();
        assert forall|i: int| 0 <= i < a.contents().len() implies a.contents()[i]
            == b.contents()[i] by {
            let r = i / w;
            let c = i % w;
            lemma_flat_index_decomposition(w, h, i);
            assert(a.in_bounds(r, c));
            assert(a.cell(r, c) == b.cell(r, c));
        }
    }
}

/// For `0 <= i < w * h` with `w >= 1`, the pair `(i / w, i % w)` is the unique
/// row/column decomposition of the flat index `i`.
pub proof fn lemma_flat_index_decomposition(w: int, h: int, i: int)
    requires
        w >= 1,
        h >= 0,
        0 <= i < w * h,
    ensures
        0 <= i / w < h,
        0 <= i % w < w,
        (i / w) * w + i % w == i,
{
    vstd::arithmetic::div_mod::lemma_fundamental_div_mod(i, w);
    assert(i == w * (i / w) + i % w);
    assert(0 <= i % w < w) by {
        vstd::arithmetic::div_mod::lemma_mod_division_less_than_divisor(i, w);
    }
    assert(i / w >= 0) by {
        vstd::arithmetic::div_mod::lemma_div_pos_is_pos(i, w);
    }
    assert(i / w < h) by {
        if i / w >= h {
            vstd::arithmetic::mul::lemma_mul_inequality(h, i / w, w);
            assert(h * w <= (i / w) * w);
            vstd::arithmetic::mul::lemma_mul_is_commutative(h, w);
            vstd::arithmetic::mul::lemma_mul_is_commutative(i / w, w);
            assert(w * h <= w * (i / w));
        }
    }
    assert((i / w) * w + i % w == i) by {
        vstd::arithmetic::mul::lemma_mul_is_commutative(i / w, w);
    }
}

/// A full row of a `w * h` grid lies inside the buffer.
pub proof fn lemma_row_bounds(w: int, h: int, r: int)
    requires
        w >= 1,
        0 <= r < h,
    ensures
        0 <= r * w,
        r * w + w <= w * h,
{
    assert(0 <= r * w && r * w + w <= w * h) by (nonlinear_arith)
        requires w >= 1 && 0 <= r < h;
}

/// An index inside one of the first `r` rows of a row-major buffer with rows
/// of length `w1` lies below `r * w1`.
pub proof fn lemma_row_prefix_bound(w1: int, r: int, rr: int, cc: int)
    requires
        w1 >= 1,
        0 <= rr < r,
        0 <= cc < w1,
    ensures
        0 <= rr * w1 + cc < r * w1,
{
    assert(0 <= rr * w1 + cc < r * w1) by (nonlinear_arith)
        requires w1 >= 1 && 0 <= rr < r && 0 <= cc < w1;
}

/// A flat index built from an in-bounds row/column pair stays inside the
/// buffer, and decomposes back to the same pair.
pub proof fn lemma_flat_index(w: int, h: int, r: int, c: int)
    requires
        w >= 1,
        0 <= r < h,
        0 <= c < w,
    ensures
        0 <= r * w + c < w * h,
        (r * w + c) / w == r,
        (r * w + c) % w == c,
{
    assert(0 <= r * w + c < w * h) by (nonlinear_arith)
        requires w >= 1 && 0 <= r < h && 0 <= c < w;
    assert((r * w + c) / w == r && (r * w + c) % w == c) by {
        vstd::arithmetic::div_mod::lemma_fundamental_div_mod_converse(r * w + c, w, r, c);
    }
}

/// The width after growing on `side`.
pub open spec fn grown_width<T>(g: Grid<T>, side: Side) -> int {
    match side {
        Side::Top | Side::Bottom => g.spec_width(),
        Side::Left | Side::Right => g.spec_width() + 1,
    }
}

/// The height after growing on `side`.
pub open spec fn grown_height<T>(g: Grid<T>, side: Side) -> int {
    match side {
        Side::Top | Side::Bottom => g.spec_height() + 1,
        Side::Left | Side::Right => g.spec_height(),
    }
}

/// The cell at `(r, c)` of the grid obtained from `g` by inserting one full
/// row or column of `v` at `side`.
pub open spec fn grown_cell<T>(g: Grid<T>, side: Side, v: T, r: int, c: int) -> T {
    match side {
        Side::Top => if r == 0 { v } else { g.cell(r - 1, c) },
        Side::Bottom => if r == g.spec_height() { v } else { g.cell(r, c) },
        Side::Left => if c == 0 { v } else { g.cell(r, c - 1) },
        Side::Right => if c == g.spec_width() { v } else { g.cell(r, c) },
    }
}

/// `g2` is exactly `g1` grown by one row or column of `v` at `side`.
pub open spec fn is_grow_of<T>(g2: Grid<T>, g1: Grid<T>, side: Side, v: T) -> bool {
    &&& g2.wf()
    &&& g2.spec_width() == grown_width(g1, side)
    &&& g2.spec_height() == grown_height(g1, side)
    &&& forall|r: int, c: int|
        g2.in_bounds(r, c) ==> g2.cell(r, c) == grown_cell(g1, side, v, r, c)
}

/// Whether a shrink at `side` keeps both dimensions at 1 or more.
pub open spec fn shrink_ok<T>(g: Grid<T>, side: Side) -> bool {
    match side {
        Side::Top | Side::Bottom => g.spec_height() >= 2,
        Side::Left | Side::Right => g.spec_width() >= 2,
    }
}

/// The width after shrinking on `side`.
pub open spec fn shrunk_width<T>(g: Grid<T>, side: Side) -> int {
    match side {
        Side::Top | Side::Bottom => g.spec_width(),
        Side::Left | Side::Right => g.spec_width() - 1,
    }
}

/// The height after shrinking on `side`.
pub open spec fn shrunk_height<T>(g: Grid<T>, side: Side) -> int {
    match side {
        Side::Top | Side::Bottom => g.spec_height() - 1,
        Side::Left | Side::Right => g.spec_height(),
    }
}

/// The cell at `(r, c)` of the grid obtained from `g` by removing one full
/// row or column at `side`.
pub open spec fn shrunk_cell<T>(g: Grid<T>, side: Side, r: int, c: int) -> T {
    match side {
        Side::Top => g.cell(r + 1, c),
        Side::Bottom => g.cell(r, c),
        Side::Left => g.cell(r, c + 1),
        Side::Right => g.cell(r, c),
    }
}

/// `g2` is exactly `g1` with the row or column at `side` removed.
pub open spec fn is_shrink_of<T>(g2: Grid<T>, g1: Grid<T>, side: Side) -> bool {
    &&& g2.wf()
    &&& g2.spec_width() == shrunk_width(g1, side)
    &&& g2.spec_height() == shrunk_height(g1, side)
    &&& forall|r: int, c: int|
        g2.in_bounds(r, c) ==> g2.cell(r, c) == shrunk_cell(g1, side, r, c)
}

impl<T: Copy> Grid<T> {
    /// Allocates a `size.width * size.height` grid filled with `item`.
    pub fn new(size: Size, item: T) -> (g: Grid<T>)
        requires
            size.wf(),
            size.width * size.height <= usize::MAX,
        ensures
            g.wf(),
            g.spec_width() == size.width,
            g.spec_height() == size.height,
            forall|r: int, c: int| g.in_bounds(r, c) ==> g.cell(r, c) == item,
    {
        let total: usize = size.width * size.height;
        let mut data: Vec<T> = Vec::new();
        let mut i: usize = 0;
        while i < total
            invariant
                i <= total,
                data@.len() == i,
                forall|j: int| 0 <= j < i ==> data@[j] == item,
            decreases total - i,
        {
            data.push(item);
            i += 1;
        }
        let g = Grid { width: size.width, height: size.height, data };
        proof {
            assert forall|r: int, c: int| g.in_bounds(r, c) implies g.cell(r, c) == item by {
                lemma_flat_index(g.spec_width(), g.spec_height(), r, c);
            }
        }
        g
    }

    /// Inserts one full row or column of `value` at the given edge.
    pub fn grow(&mut self, side: Side, value: T)
        requires
            old(self).wf(),
            (old(self).spec_width() + 1) * (old(self).spec_height() + 1) <= usize::MAX,
        ensures
            is_grow_of(*final(self), *old(self), side, value),
    {
        let w = self.width;
        let h = self.height;
        proof {
            assert(w * h + w <= (w + 1) * (h + 1) && w * h + h <= (w + 1) * (h + 1) && h + 1
                <= usize::MAX && w + 1 <= usize::MAX) by (nonlinear_arith)
                requires
                    w >= 1,
                    h >= 1,
                    (w + 1) * (h + 1) <= usize::MAX,
            ;
        }
        match side {
            Side::Top => {
                let ghost g0 = *self;
                let mut data: Vec<T> = Vec::new();
                let mut c: usize = 0;
                while c < w
                    invariant
                        c <= w,
                        data@.len() == c,
                        forall|j: int| 0 <= j < c ==> data@[j] == value,
                    decreases w - c,
                {
                    data.push(value);
                    c += 1;
                }
                let n = self.data.len();
                let mut i: usize = 0;
                while i < n
                    invariant
                        i <= n,
                        *self == g0,
                        n == g0.contents().len(),
                        w as int == g0.spec_width(),
                        data@.len() == w + i,
                        forall|j: int| 0 <= j < w ==> data@[j] == value,
                        forall|j: int| 0 <= j < i ==> data@[w + j] == g0.contents()[j],
                    decreases n - i,
                {
                    data.push(self.data[i]);
                    i += 1;
                }
                self.data = data;
                self.height = h + 1;
                proof {
                    let g2 = *self;
                    assert(g2.contents().len() == g2.spec_width() * g2.spec_height()) by {
                        assert(w * (h + 1) == w * h + w) by (nonlinear_arith);
                    }
                    assert forall|r: int, c2: int| g2.in_bounds(r, c2) implies g2.cell(r, c2)
                        == grown_cell(g0, Side::Top, value, r, c2) by {
                        if r == 0 {
                            assert(r * (w as int) + c2 == c2) by (nonlinear_arith)
                                requires r == 0;
                        } else {
                            lemma_flat_index(w as int, h as int, r - 1, c2);
                            assert(r * (w as int) + c2 == w + ((r - 1) * (w as int) + c2))
                                by (nonlinear_arith);
                        }
                    }
                }
            },
            Side::Bottom => {
                let ghost g0 = *self;
                let mut c: usize = 0;
                while c < w
                    invariant
                        c <= w,
                        g0.wf(),
                        w as int == g0.spec_width(),
                        h as int == g0.spec_height(),
                        w * h + w <= usize::MAX,
                        self.spec_width() == g0.spec_width(),
                        self.spec_height() == g0.spec_height(),
                        self.contents().len() == g0.contents().len() + c,
                        forall|j: int|
                            0 <= j < g0.contents().len() ==> self.contents()[j]
                                == g0.contents()[j],
                        forall|j: int|
                            0 <= j < c ==> #[trigger] self.contents()[g0.contents().len() + j]
                                == value,
                    decreases w - c,
                {
                    self.data.push(value);
                    c += 1;
                }
                self.height = h + 1;
                proof {
                    let g2 = *self;
                    assert(g2.contents().len() == g2.spec_width() * g2.spec_height()) by {
                        assert(w * (h + 1) == w * h + w) by (nonlinear_arith);
                    }
                    assert forall|r: int, c2: int| g2.in_bounds(r, c2) implies g2.cell(r, c2)
                        == grown_cell(g0, Side::Bottom, value, r, c2) by {
                        if r < h {
                            lemma_flat_index(w as int, h as int, r, c2);
                        } else {
                            assert(r * (w as int) + c2 == (w as int) * (h as int) + c2)
                                by (nonlinear_arith)
                                requires r == h as int;
                        }
                    }
                }
            },
            Side::Left => {
                let ghost g0 = *self;
                let mut data: Vec<T> = Vec::new();
                let mut r: usize = 0;
                while r < h
                    invariant
                        r <= h,
                        *self == g0,
                        g0.wf(),
                        w as int == g0.spec_width(),
                        h as int == g0.spec_height(),
                        w * h <= usize::MAX,
                        data@.len() == r * (w + 1),
                        forall|rr: int, cc: int|
                            0 <= rr < r && 0 <= cc < w + 1 ==> data@[rr * (w + 1) + cc]
                                == grown_cell(g0, Side::Left, value, rr, cc),
                    decreases h - r,
                {
                    let ghost row_base = r * (w + 1);
                    proof {
                        assert(row_base >= 0) by (nonlinear_arith)
                            requires row_base == r * (w + 1) && r >= 0 && w >= 0;
                    }
                    data.push(value);
                    proof {
                        assert forall|rr: int, cc: int| 0 <= rr < r && 0 <= cc < w + 1 implies
                            #[trigger] data@[rr * ((w + 1) as int) + cc] == grown_cell(g0,
                            Side::Left, value, rr, cc) by {
                            lemma_row_prefix_bound((w + 1) as int, r as int, rr, cc);
                        }
                    }
                    let mut c: usize = 0;
                    while c < w
                        invariant
                            c <= w,
                            r < h,
                            *self == g0,
                            g0.wf(),
                            w as int == g0.spec_width(),
                            h as int == g0.spec_height(),
                            w * h <= usize::MAX,
                            row_base == r * (w + 1),
                            row_base >= 0,
                            data@.len() == row_base + 1 + c,
                            forall|rr: int, cc: int|
                                0 <= rr < r && 0 <= cc < w + 1 ==> data@[rr * (w + 1) + cc]
                                    == grown_cell(g0, Side::Left, value, rr, cc),
                            data@[row_base] == value,
                            forall|j: int|
                                0 <= j < c ==> data@[row_base + 1 + j] == g0.cell(r as int, j),
                        decreases w - c,
                    {
                        proof {
                            lemma_flat_index(w as int, h as int, r as int, c as int);
                        }
                        data.push(self.data[r * w + c]);
                        proof {
                            assert forall|rr: int, cc: int| 0 <= rr < r && 0 <= cc < w + 1 implies
                                #[trigger] data@[rr * ((w + 1) as int) + cc] == grown_cell(g0,
                                Side::Left, value, rr, cc) by {
                                lemma_row_prefix_bound((w + 1) as int, r as int, rr, cc);
                            }
                        }
                        c += 1;
                    }
                    proof {
                        assert((r + 1) * (w + 1) == r * (w + 1) + (w + 1)) by (nonlinear_arith);
                        assert forall|rr: int, cc: int| 0 <= rr < r + 1 && 0 <= cc < w + 1 implies
                            #[trigger] data@[rr * ((w + 1) as int) + cc] == grown_cell(g0,
                            Side::Left, value, rr, cc) by {
                            if rr < r {
                                lemma_row_prefix_bound((w + 1) as int, r as int, rr, cc);
                            } else {
                                if cc == 0 {
                                assert(data@[row_base] == value);
                            } else {
                                assert(data@[row_base + 1 + (cc - 1)] == g0.cell(r as int, cc - 1));
                            }
                            }
                        }
                    }
                    r += 1;
                }
                self.width = w + 1;
                self.data = data;
                proof {
                    let g2 = *self;
                    assert(g2.contents().len() == g2.spec_width() * g2.spec_height()) by {
                        assert(h * (w + 1) == (w + 1) * h) by (nonlinear_arith);
                    }
                    assert forall|rr: int, cc: int| g2.in_bounds(rr, cc) implies g2.cell(rr, cc)
                        == grown_cell(g0, Side::Left, value, rr, cc) by {
                        assert(data@[rr * (w + 1) + cc] == grown_cell(g0, Side::Left, value, rr,
                            cc));
                    }
                }
            },
            Side::Right => {
                let ghost g0 = *self;
                let mut data: Vec<T> = Vec::new();
                let mut r: usize = 0;
                while r < h
                    invariant
                        r <= h,
                        *self == g0,
                        g0.wf(),
                        w as int == g0.spec_width(),
                        h as int == g0.spec_height(),
                        w * h <= usize::MAX,
                        data@.len() == r * (w + 1),
                        forall|rr: int, cc: int|
                            0 <= rr < r && 0 <= cc < w + 1 ==> data@[rr * (w + 1) + cc]
                                == grown_cell(g0, Side::Right, value, rr, cc),
                    decreases h - r,
                {
                    let ghost row_base = r * (w + 1);
                    proof {
                        assert(row_base >= 0) by (nonlinear_arith)
                            requires row_base == r * (w + 1) && r >= 0 && w >= 0;
                    }
                    let mut c: usize = 0;
                    while c < w
                        invariant
                            c <= w,
                            r < h,
                            *self == g0,
                            g0.wf(),
                            w as int == g0.spec_width(),
                            h as int == g0.spec_height(),
                            w * h <= usize::MAX,
                            row_base == r * (w + 1),
                            row_base >= 0,
                            data@.len() == row_base + c,
                            forall|rr: int, cc: int|
                                0 <= rr < r && 0 <= cc < w + 1 ==> data@[rr * (w + 1) + cc]
                                    == grown_cell(g0, Side::Right, value, rr, cc),
                            forall|j: int|
                                0 <= j < c ==> #[trigger] data@[row_base + j] == g0.cell(r as int, j),
                        decreases w - c,
                    {
                        proof {
                            lemma_flat_index(w as int, h as int, r as int, c as int);
                        }
                        data.push(self.data[r * w + c]);
                        proof {
                            assert forall|rr: int, cc: int| 0 <= rr < r && 0 <= cc < w + 1 implies
                                #[trigger] data@[rr * ((w + 1) as int) + cc] == grown_cell(g0,
                                Side::Right, value, rr, cc) by {
                                lemma_row_prefix_bound((w + 1) as int, r as int, rr, cc);
                            }
                        }
                        c += 1;
                    }
                    data.push(value);
                    proof {
                        assert forall|rr: int, cc: int| 0 <= rr < r && 0 <= cc < w + 1 implies
                            #[trigger] data@[rr * ((w + 1) as int) + cc] == grown_cell(g0,
                            Side::Right, value, rr, cc) by {
                            lemma_row_prefix_bound((w + 1) as int, r as int, rr, cc);
                        }
                    }
                    proof {
                        assert((r + 1) * (w + 1) == r * (w + 1) + (w + 1)) by (nonlinear_arith);
                        assert forall|rr: int, cc: int| 0 <= rr < r + 1 && 0 <= cc < w + 1 implies
                            #[trigger] data@[rr * ((w + 1) as int) + cc] == grown_cell(g0,
                            Side::Right, value, rr, cc) by {
                            if rr < r {
                                lemma_row_prefix_bound((w + 1) as int, r as int, rr, cc);
                            } else {
                                if cc == w as int {
                                assert(data@[row_base + w] == value);
                            } else {
                                assert(data@[row_base + cc] == g0.cell(r as int, cc));
                            }
                            }
                        }
                    }
                    r += 1;
                }
                self.width = w + 1;
                self.data = data;
                proof {
                    let g2 = *self;
                    assert(g2.contents().len() == g2.spec_width() * g2.spec_height()) by {
                        assert(h * (w + 1) == (w + 1) * h) by (nonlinear_arith);
                    }
                    assert forall|rr: int, cc: int| g2.in_bounds(rr, cc) implies g2.cell(rr, cc)
                        == grown_cell(g0, Side::Right, value, rr, cc) by {
                        assert(data@[rr * (w + 1) + cc] == grown_cell(g0, Side::Right, value, rr,
                            cc));
                    }
                }
            },
        }
    }

    /// The height after removing one row, or `CannotShrink` when the grid is
    /// only one row tall.
    fn decreased_height(&self) -> (r: Result<usize, Error>)
        ensures
            match r {
                Ok(n) => self.spec_height() >= 2 && n as int == self.spec_height() - 1,
                Err(e) => e == Error::CannotShrink && self.spec_height() < 2,
            },
    {
        if self.height < 2 {
            Err(Error::CannotShrink)
        } else {
            Ok(self.height - 1)
        }
    }

    /// The width after removing one column, or `CannotShrink` when the grid is
    /// only one column wide.
    fn decreased_width(&self) -> (r: Result<usize, Error>)
        ensures
            match r {
                Ok(n) => self.spec_width() >= 2 && n as int == self.spec_width() - 1,
                Err(e) => e == Error::CannotShrink && self.spec_width() < 2,
            },
    {
        if self.width < 2 {
            Err(Error::CannotShrink)
        } else {
            Ok(self.width - 1)
        }
    }

    /// Removes one full row or column at the given edge. Fails with
    /// `CannotShrink`, leaving the grid unchanged, exactly when the dimension
    /// being reduced is already 1.
    pub fn shrink(&mut self, side: Side) -> (res: Result<(), Error>)
        requires
            old(self).wf(),
        ensures
            match res {
                Ok(()) => shrink_ok(*old(self), side) && is_shrink_of(
                    *final(self),
                    *old(self),
                    side,
                ),
                Err(e) => {
                    &&& e == Error::CannotShrink
                    &&& !shrink_ok(*old(self), side)
                    &&& *final(self) == *old(self)
                },
            },
    {
        let w = self.width;
        let h = self.height;
        match side {
            Side::Top => {
                let nh = match self.decreased_height() {
                    Ok(nh) => nh,
                    Err(e) => { return Err(e); },
                };
                let ghost g0 = *self;
                let mut data: Vec<T> = Vec::new();
                let n = self.data.len();
                proof {
                    assert(w <= w * h) by (nonlinear_arith)
                        requires w >= 1 && h >= 2;
                }
                let mut i: usize = w;
                while i < n
                    invariant
                        w <= i <= n,
                        *self == g0,
                        n == g0.contents().len(),
                        data@.len() == i - w,
                        forall|j: int| 0 <= j < i - w ==> data@[j] == g0.contents()[w + j],
                    decreases n - i,
                {
                    data.push(self.data[i]);
                    i += 1;
                }
                self.data = data;
                self.height = nh;
                proof {
                    let g2 = *self;
                    assert(g2.contents().len() == g2.spec_width() * g2.spec_height()) by {
                        assert(w * h - w == w * (h - 1)) by (nonlinear_arith);
                    }
                    assert forall|r: int, c: int| g2.in_bounds(r, c) implies g2.cell(r, c)
                        == shrunk_cell(g0, Side::Top, r, c) by {
                        lemma_flat_index(w as int, (h - 1) as int, r, c);
                        lemma_flat_index(w as int, h as int, r + 1, c);
                        assert((r + 1) * (w as int) + c == w + (r * (w as int) + c))
                            by (nonlinear_arith);
                    }
                }
                Ok(())
            },
            Side::Bottom => {
                let nh = match self.decreased_height() {
                    Ok(nh) => nh,
                    Err(e) => { return Err(e); },
                };
                let ghost g0 = *self;
                proof {
                    assert(w * h - w == w * (h - 1) && w * (h - 1) >= 0) by (nonlinear_arith)
                        requires w >= 1 && h >= 2;
                }
                let keep = self.data.len() - w;
                self.data.truncate(keep);
                self.height = nh;
                proof {
                    let g2 = *self;
                    assert forall|r: int, c: int| g2.in_bounds(r, c) implies g2.cell(r, c)
                        == shrunk_cell(g0, Side::Bottom, r, c) by {
                        lemma_flat_index(w as int, (h - 1) as int, r, c);
                    }
                }
                Ok(())
            },
            Side::Left => {
                let nw = match self.decreased_width() {
                    Ok(nw) => nw,
                    Err(e) => { return Err(e); },
                };
                let ghost g0 = *self;
                let n = self.data.len();
                let mut data: Vec<T> = Vec::new();
                let mut r: usize = 0;
                while r < h
                    invariant
                        r <= h,
                        *self == g0,
                        g0.wf(),
                        w as int == g0.spec_width(),
                        h as int == g0.spec_height(),
                        n == g0.contents().len(),
                        w >= 2,
                        nw == w - 1,
                        data@.len() == r * nw,
                        forall|rr: int, cc: int|
                            0 <= rr < r && 0 <= cc < nw ==> #[trigger] data@[rr * nw + cc]
                                == g0.cell(rr, cc + 1),
                    decreases h - r,
                {
                    let ghost row_base = r * nw;
                    proof {
                        assert(row_base >= 0) by (nonlinear_arith)
                            requires row_base == r * nw && r >= 0 && nw >= 0;
                    }
                    let mut c: usize = 0;
                    while c < nw
                        invariant
                            c <= nw,
                            r < h,
                            *self == g0,
                            g0.wf(),
                            w as int == g0.spec_width(),
                            h as int == g0.spec_height(),
                            n == g0.contents().len(),
                            w >= 2,
                            nw == w - 1,
                            row_base == r * nw,
                            row_base >= 0,
                            data@.len() == row_base + c,
                            forall|rr: int, cc: int|
                                0 <= rr < r && 0 <= cc < nw ==> #[trigger] data@[rr * nw + cc]
                                    == g0.cell(rr, cc + 1),
                            forall|j: int|
                                0 <= j < c ==> #[trigger] data@[row_base + j] == g0.cell(r as int, j + 1),
                        decreases nw - c,
                    {
                        proof {
                            lemma_flat_index(w as int, h as int, r as int, c + 1);
                        }
                        data.push(self.data[r * w + c + 1]);
                        proof {
                            assert forall|rr: int, cc: int| 0 <= rr < r && 0 <= cc < nw implies
                                #[trigger] data@[rr * (nw as int) + cc] == g0.cell(rr, cc + 1) by {
                                lemma_row_prefix_bound(nw as int, r as int, rr, cc);
                            }
                        }
                        c += 1;
                    }
                    proof {
                        assert((r + 1) * (nw as int) == r * (nw as int) + nw) by (nonlinear_arith);
                        assert forall|rr: int, cc: int| 0 <= rr < r + 1 && 0 <= cc < nw implies
                            #[trigger] data@[rr * (nw as int) + cc] == g0.cell(rr, cc + 1) by {
                            if rr < r {
                                lemma_row_prefix_bound(nw as int, r as int, rr, cc);
                            } else {
                                assert(data@[row_base + cc] == g0.cell(r as int, cc + 1));
                            }
                        }
                    }
                    r += 1;
                }
                self.width = nw;
                self.data = data;
                proof {
                    let g2 = *self;
                    assert(g2.contents().len() == g2.spec_width() * g2.spec_height()) by {
                        assert(h * (nw as int) == (nw as int) * h) by (nonlinear_arith);
                    }
                    assert forall|rr: int, cc: int| g2.in_bounds(rr, cc) implies g2.cell(rr, cc)
                        == shrunk_cell(g0, Side::Left, rr, cc) by {
                        assert(data@[rr * (nw as int) + cc] == g0.cell(rr, cc + 1));
                    }
                }
                Ok(())
            },
            Side::Right => {
                let nw = match self.decreased_width() {
                    Ok(nw) => nw,
                    Err(e) => { return Err(e); },
                };
                let ghost g0 = *self;
                let n = self.data.len();
                let mut data: Vec<T> = Vec::new();
                let mut r: usize = 0;
                while r < h
                    invariant
                        r <= h,
                        *self == g0,
                        g0.wf(),
                        w as int == g0.spec_width(),
                        h as int == g0.spec_height(),
                        n == g0.contents().len(),
                        w >= 2,
                        nw == w - 1,
                        data@.len() == r * nw,
                        forall|rr: int, cc: int|
                            0 <= rr < r && 0 <= cc < nw ==> #[trigger] data@[rr * nw + cc]
                                == g0.cell(rr, cc),
                    decreases h - r,
                {
                    let ghost row_base = r * nw;
                    proof {
                        assert(row_base >= 0) by (nonlinear_arith)
                            requires row_base == r * nw && r >= 0 && nw >= 0;
                    }
                    let mut c: usize = 0;
                    while c < nw
                        invariant
                            c <= nw,
                            r < h,
                            *self == g0,
                            g0.wf(),
                            w as int == g0.spec_width(),
                            h as int == g0.spec_height(),
                            n == g0.contents().len(),
                            w >= 2,
                            nw == w - 1,
                            row_base == r * nw,
                            row_base >= 0,
                            data@.len() == row_base + c,
                            forall|rr: int, cc: int|
                                0 <= rr < r && 0 <= cc < nw ==> #[trigger] data@[rr * nw + cc]
                                    == g0.cell(rr, cc),
                            forall|j: int|
                                0 <= j < c ==> #[trigger] data@[row_base + j] == g0.cell(r as int, j),
                        decreases nw - c,
                    {
                        proof {
                            lemma_flat_index(w as int, h as int, r as int, c as int);
                        }
                        data.push(self.data[r * w + c]);
                        proof {
                            assert forall|rr: int, cc: int| 0 <= rr < r && 0 <= cc < nw implies
                                #[trigger] data@[rr * (nw as int) + cc] == g0.cell(rr, cc) by {
                                lemma_row_prefix_bound(nw as int, r as int, rr, cc);
                            }
                        }
                        c += 1;
                    }
                    proof {
                        assert((r + 1) * (nw as int) == r * (nw as int) + nw) by (nonlinear_arith);
                        assert forall|rr: int, cc: int| 0 <= rr < r + 1 && 0 <= cc < nw implies
                            #[trigger] data@[rr * (nw as int) + cc] == g0.cell(rr, cc) by {
                            if rr < r {
                                lemma_row_prefix_bound(nw as int, r as int, rr, cc);
                            } else {
                                assert(data@[row_base + cc] == g0.cell(r as int, cc));
                            }
                        }
                    }
                    r += 1;
                }
                self.width = nw;
                self.data = data;
                proof {
                    let g2 = *self;
                    assert(g2.contents().len() == g2.spec_width() * g2.spec_height()) by {
                        assert(h * (nw as int) == (nw as int) * h) by (nonlinear_arith);
                    }
                    assert forall|rr: int, cc: int| g2.in_bounds(rr, cc) implies g2.cell(rr, cc)
                        == shrunk_cell(g0, Side::Right, rr, cc) by {
                        assert(data@[rr * (nw as int) + cc] == g0.cell(rr, cc));
                    }
                }
                Ok(())
            },
        }
    }
}


impl<T> Grid<T> {
    /// The number of columns, as a run-time value.
    pub fn width(&self) -> (w: usize)
        ensures
            w as int == self.spec_width(),
    {
        self.width
    }

    /// The number of rows, as a run-time value.
    pub fn height(&self) -> (h: usize)
        ensures
            h as int == self.spec_height(),
    {
        self.height
    }

    /// The total number of cells in the buffer.
    pub fn cell_count(&self) -> (n: usize)
        ensures
            n == self.contents().len(),
    {
        self.data.len()
    }

    /// The dimensions as a `Size`.
    pub fn size(&self) -> (s: Size)
        requires
            self.wf(),
        ensures
            s.wf(),
            s.width as int == self.spec_width(),
            s.height as int == self.spec_height(),
    {
        Size { width: self.width, height: self.height }
    }

    /// Checks a cell address on both axes; either axis out of range reports
    /// `OutOfBounds`.
    pub fn check_bounds(&self, row: usize, column: usize) -> (r: Result<(), Error>)
        ensures
            match r {
                Ok(()) => self.in_bounds(row as int, column as int),
                Err(e) => e == Error::OutOfBounds && !self.in_bounds(row as int, column as int),
            },
    {
        if row >= self.height {
            Err(Error::OutOfBounds)
        } else if column >= self.width {
            Err(Error::OutOfBounds)
        } else {
            Ok(())
        }
    }

    /// A mutable borrow of the cell at `(row, column)`.
    pub fn get_mut(&mut self, row: usize, column: usize) -> (p: &mut T)
        requires
            old(self).wf(),
            old(self).in_bounds(row as int, column as int),
        ensures
            *p == old(self).cell(row as int, column as int),
            final(self).spec_width() == old(self).spec_width(),
            final(self).spec_height() == old(self).spec_height(),
            final(self).contents() == old(self).contents().update(
                row as int * old(self).spec_width() + column as int,
                *final(p),
            ),
    {
        let n = self.data.len();
        proof {
            lemma_flat_index(
                self.spec_width(),
                self.spec_height(),
                row as int,
                column as int,
            );
        }
        let idx = row * self.width + column;
        &mut self.data[idx]
    }

    /// Builds a grid from a raw row-major buffer and a positive width; the
    /// height is derived. Fails with `InvalidDataSize` when the buffer length
    /// is not a positive multiple of the width.
    pub fn frow_raw(width: usize, data: Vec<T>) -> (res: Result<Grid<T>, Error>)
        requires
            width >= 1,
        ensures
            match res {
                Ok(g) => {
                    &&& data@.len() > 0
                    &&& (data@.len() as int) % (width as int) == 0
                    &&& g.wf()
                    &&& g.spec_width() == width
                    &&& g.spec_height() == (data@.len() as int) / (width as int)
                    &&& g.contents() == data@
                },
                Err(e) => {
                    &&& e == Error::InvalidDataSize
                    &&& ((data@.len() as int) % (width as int) != 0 || data@.len() == 0)
                },
            },
    {
        if data.len() % width > 0 || data.len() == 0 {
            Err(Error::InvalidDataSize)
        } else {
            let height = data.len() / width;
            proof {
                let n = data@.len() as int;
                let w = width as int;
                vstd::arithmetic::div_mod::lemma_fundamental_div_mod(n, w);
                assert(n == w * (n / w));
                if n / w < 1 {
                    vstd::arithmetic::div_mod::lemma_div_pos_is_pos(n, w);
                    assert(n / w == 0);
                    assert(n == w * 0);
                }
            }
            Ok(Grid { width, height, data })
        }
    }
}

impl<T: Copy> Grid<T> {
    /// The cell at `(row, column)`, by value.
    pub fn get(&self, row: usize, column: usize) -> (v: T)
        requires
            self.wf(),
            self.in_bounds(row as int, column as int),
        ensures
            v == self.cell(row as int, column as int),
    {
        let n = self.data.len();
        proof {
            lemma_flat_index(
                self.spec_width(),
                self.spec_height(),
                row as int,
                column as int,
            );
        }
        self.data[row * self.width + column]
    }

    /// Overwrites the cell at `(row, column)`, leaving every other cell and
    /// the dimensions unchanged.
    pub fn set_cell(&mut self, row: usize, column: usize, value: T)
        requires
            old(self).wf(),
            old(self).in_bounds(row as int, column as int),
        ensures
            final(self).wf(),
            final(self).spec_width() == old(self).spec_width(),
            final(self).spec_height() == old(self).spec_height(),
            final(self).cell(row as int, column as int) == value,
            forall|r: int, c: int|
                old(self).in_bounds(r, c) && !(r == row as int && c == column as int)
                    ==> final(self).cell(r, c) == old(self).cell(r, c),
            final(self).contents() == old(self).contents().update(
                row as int * old(self).spec_width() + column as int,
                value,
            ),
    {
        let ghost g0 = *self;
        let w = self.width;
        let h = self.height;
        let n = self.data.len();
        proof {
            lemma_flat_index(w as int, h as int, row as int, column as int);
        }
        let idx = row * self.width + column;
        self.data.set(idx, value);
        proof {
            assert forall|r: int, c: int|
                g0.in_bounds(r, c) && !(r == row as int && c == column as int) implies self.cell(
                r,
                c,
            ) == g0.cell(r, c) by {
                lemma_flat_index(w as int, h as int, r, c);
                lemma_flat_index(w as int, h as int, row as int, column as int);
            }
        }
    }

    /// A read-only decomposition into `height` rows of `width` cells each.
    pub fn as_table(&self) -> (t: Vec<Vec<T>>)
        requires
            self.wf(),
        ensures
            t@.len() == self.spec_height(),
            forall|r: int| 0 <= r < t@.len() ==> #[trigger] t@[r]@.len() == self.spec_width(),
            forall|r: int, c: int|
                self.in_bounds(r, c) ==> #[trigger] t@[r]@[c] == self.cell(r, c),
    {
        let w = self.width;
        let h = self.height;
        let n = self.data.len();
        let mut t: Vec<Vec<T>> = Vec::new();
        let mut r: usize = 0;
        while r < h
            invariant
                r <= h,
                self.wf(),
                w as int == self.spec_width(),
                h as int == self.spec_height(),
                n == self.contents().len(),
                t@.len() == r,
                forall|rr: int| 0 <= rr < r ==> #[trigger] t@[rr]@.len() == w,
                forall|rr: int, cc: int|
                    0 <= rr < r && 0 <= cc < w ==> #[trigger] t@[rr]@[cc] == self.cell(rr, cc),
            decreases h - r,
        {
            let mut row: Vec<T> = Vec::new();
            let mut c: usize = 0;
            while c < w
                invariant
                    c <= w,
                    r < h,
                    self.wf(),
                    w as int == self.spec_width(),
                    h as int == self.spec_height(),
                    n == self.contents().len(),
                    row@.len() == c,
                    forall|j: int| 0 <= j < c ==> #[trigger] row@[j] == self.cell(r as int, j),
                decreases w - c,
            {
                proof {
                    lemma_flat_index(w as int, h as int, r as int, c as int);
                }
                row.push(self.data[r * w + c]);
                c += 1;
            }
            t.push(row);
            r += 1;
        }
        t
    }

    /// Structure-preserving elementwise transform: the result has the same
    /// dimensions, and each cell is related to the source cell by `fun`.
    pub fn map<X: Copy, F: Fn(&T) -> X>(&self, fun: F) -> (g: Grid<X>)
        requires
            self.wf(),
            forall|i: int|
                0 <= i < self.contents().len() ==> call_requires(fun, (&self.contents()[i],)),
        ensures
            g.wf(),
            g.spec_width() == self.spec_width(),
            g.spec_height() == self.spec_height(),
            forall|i: int|
                0 <= i < g.contents().len() ==> call_ensures(
                    fun,
                    (&self.contents()[i],),
                    #[trigger] g.contents()[i],
                ),
    {
        let n = self.data.len();
        let mut data: Vec<X> = Vec::new();
        let mut i: usize = 0;
        while i < n
            invariant
                i <= n,
                n == self.contents().len(),
                forall|j: int|
                    0 <= j < n ==> call_requires(fun, (&self.contents()[j],)),
                data@.len() == i,
                forall|j: int|
                    0 <= j < i ==> call_ensures(
                        fun,
                        (&self.contents()[j],),
                        #[trigger] data@[j],
                    ),
            decreases n - i,
        {
            data.push(fun(&self.data[i]));
            i += 1;
        }
        Grid { width: self.width, height: self.height, data }
    }
}

/// The cell at `(r, c)` of `g` resized to `size` with fill value `d`: the
/// top-left overlap keeps the cells of `g`, every added cell holds `d`.
pub open spec fn resized_cell<T>(g: Grid<T>, d: T, r: int, c: int) -> T {
    if r < g.spec_height() && c < g.spec_width() {
        g.cell(r, c)
    } else {
        d
    }
}

/// `g2` is exactly `g1` resized to `size`, growing or shrinking only at the
/// right and bottom edges, with `d` in every added cell.
pub open spec fn is_resize_of<T>(g2: Grid<T>, g1: Grid<T>, size: Size, d: T) -> bool {
    &&& g2.wf()
    &&& g2.spec_width() == size.width
    &&& g2.spec_height() == size.height
    &&& forall|r: int, c: int|
        g2.in_bounds(r, c) ==> g2.cell(r, c) == resized_cell(g1, d, r, c)
}

impl<T: Copy> Grid<T> {
    /// Grows or shrinks the right and bottom edges only, one row or column at
    /// a time, until the grid has the target size; added cells hold `fill`.
    /// The existing top-left submatrix is always preserved.
    pub fn resize_with(&mut self, size: Size, fill: T)
        requires
            old(self).wf(),
            size.wf(),
            (old(self).spec_width() + size.width) * (old(self).spec_height() + size.height)
                <= usize::MAX,
        ensures
            is_resize_of(*final(self), *old(self), size, fill),
    {
        let ghost g0 = *self;
        let tw = size.width;
        let th = size.height;
        proof {
            assert forall|a: int, b: int|
                1 <= a <= g0.spec_width() + tw && 1 <= b <= g0.spec_height() + th implies
                #[trigger] (a * b) <= usize::MAX by {
                vstd::arithmetic::mul::lemma_mul_upper_bound(
                    a,
                    g0.spec_width() + tw,
                    b,
                    g0.spec_height() + th,
                );
            }
            assert(g0.spec_width() + tw <= usize::MAX && g0.spec_height() + th <= usize::MAX)
                by (nonlinear_arith)
                requires
                    g0.spec_width() >= 1,
                    g0.spec_height() >= 1,
                    tw >= 1,
                    th >= 1,
                    (g0.spec_width() + tw) * (g0.spec_height() + th) <= usize::MAX,
            ;
        }
        while self.width() < tw
            invariant
                self.wf(),
                size.wf(),
                tw == size.width,
                th == size.height,
                g0.wf(),
                self.spec_height() == g0.spec_height(),
                g0.spec_width() <= self.spec_width(),
                self.spec_width() <= g0.spec_width() + tw,
                g0.spec_width() + tw <= usize::MAX,
                g0.spec_height() + th <= usize::MAX,
                forall|a: int, b: int|
                    1 <= a <= g0.spec_width() + tw && 1 <= b <= g0.spec_height() + th
                        ==> #[trigger] (a * b) <= usize::MAX,
                forall|r: int, c: int|
                    self.in_bounds(r, c) ==> #[trigger] self.cell(r, c) == (if c
                        < g0.spec_width() {
                        g0.cell(r, c)
                    } else {
                        fill
                    }),
            decreases tw - self.spec_width(),
        {
            self.grow(Side::Right, fill);
        }
        while self.width() > tw
            invariant
                self.wf(),
                size.wf(),
                tw == size.width,
                th == size.height,
                g0.wf(),
                self.spec_height() == g0.spec_height(),
                tw <= self.spec_width(),
                self.spec_width() <= g0.spec_width() + tw,
                g0.spec_height() + th <= usize::MAX,
                forall|a: int, b: int|
                    1 <= a <= g0.spec_width() + tw && 1 <= b <= g0.spec_height() + th
                        ==> #[trigger] (a * b) <= usize::MAX,
                forall|r: int, c: int|
                    self.in_bounds(r, c) ==> #[trigger] self.cell(r, c) == (if c
                        < g0.spec_width() {
                        g0.cell(r, c)
                    } else {
                        fill
                    }),
            decreases self.spec_width() - tw,
        {
            let res = self.shrink(Side::Right);
            proof {
                assert(res is Ok);
            }
        }
        while self.height() < th
            invariant
                self.wf(),
                size.wf(),
                tw == size.width,
                th == size.height,
                g0.wf(),
                self.spec_width() == tw,
                g0.spec_height() <= self.spec_height(),
                self.spec_height() <= g0.spec_height() + th,
                forall|a: int, b: int|
                    1 <= a <= g0.spec_width() + tw && 1 <= b <= g0.spec_height() + th
                        ==> #[trigger] (a * b) <= usize::MAX,
                forall|r: int, c: int|
                    self.in_bounds(r, c) ==> #[trigger] self.cell(r, c) == resized_cell(
                        g0,
                        fill,
                        r,
                        c,
                    ),
            decreases th - self.spec_height(),
        {
            self.grow(Side::Bottom, fill);
        }
        while self.height() > th
            invariant
                self.wf(),
                size.wf(),
                tw == size.width,
                th == size.height,
                g0.wf(),
                self.spec_width() == tw,
                th <= self.spec_height(),
                forall|r: int, c: int|
                    self.in_bounds(r, c) ==> #[trigger] self.cell(r, c) == resized_cell(
                        g0,
                        fill,
                        r,
                        c,
                    ),
            decreases self.spec_height() - th,
        {
            let res = self.shrink(Side::Bottom);
            proof {
                assert(res is Ok);
            }
        }
    }
}

impl<T: Copy + Default> Grid<T> {
    /// Resizes toward the bottom-right as `resize_with` does, filling added
    /// cells with the default value of `T`.
    pub fn resize(&mut self, size: Size)
        requires
            old(self).wf(),
            size.wf(),
            (old(self).spec_width() + size.width) * (old(self).spec_height() + size.height)
                <= usize::MAX,
        ensures
            exists|d: T|
                #[trigger] call_ensures(T::default, (), d) && is_resize_of(
                    *final(self),
                    *old(self),
                    size,
                    d,
                ),
    {
        let d = T::default();
        self.resize_with(size, d);
    }
}

/// Growing at any side and then shrinking at the same side restores the
/// starting grid exactly: same dimensions, same buffer. The intermediate
/// shrink can never fail, because the grown dimension is at least 2.
pub proof fn lemma_grow_shrink_roundtrip<T>(g1: Grid<T>, g2: Grid<T>, g3: Grid<T>, side: Side, v: T)
    requires
        g1.wf(),
        is_grow_of(g2, g1, side, v),
        is_shrink_of(g3, g2, side),
    ensures
        shrink_ok(g2, side),
        g3.spec_width() == g1.spec_width(),
        g3.spec_height() == g1.spec_height(),
        g3.contents() =~= g1.contents(),
{
    assert forall|r: int, c: int| g3.in_bounds(r, c) implies g3.cell(r, c) == g1.cell(r, c) by {
        match side {
            Side::Top => {
                assert(g2.in_bounds(r + 1, c));
                assert(g3.cell(r, c) == g2.cell(r + 1, c));
            },
            Side::Bottom => {
                assert(g2.in_bounds(r, c));
                assert(g3.cell(r, c) == g2.cell(r, c));
            },
            Side::Left => {
                assert(g2.in_bounds(r, c + 1));
                assert(g3.cell(r, c) == g2.cell(r, c + 1));
            },
            Side::Right => {
                assert(g2.in_bounds(r, c));
                assert(g3.cell(r, c) == g2.cell(r, c));
            },
        }
    }
    Grid::lemma_cells_eq_implies_contents_eq(g3, g1);
}


impl<T: Copy + core::cmp::Eq + core::hash::Hash> Grid<T> {
    /// The distinct values present anywhere in the buffer.
    pub fn unique_items(&self) -> (s: HashSet<T>)
        requires
            self.wf(),
            vstd::std_specs::hash::obeys_key_model::<T>(),
        ensures
            s@ == self.contents().to_set(),
    {
        broadcast use vstd::std_specs::hash::group_hash_axioms;

        let n = self.data.len();
        let mut s: HashSet<T> = HashSet::new();
        let mut i: usize = 0;
        while i < n
            invariant
                i <= n,
                n == self.contents().len(),
                vstd::std_specs::hash::obeys_key_model::<T>(),
                s@ == self.contents().take(i as int).to_set(),
            decreases n - i,
        {
            broadcast use vstd::std_specs::hash::group_hash_axioms;

            let x = self.data[i];
            s.insert(x);
            proof {
                let prefix = self.contents().take(i as int);
                assert(self.contents().take(i + 1 as int) =~= prefix.push(x));
                prefix.lemma_push_to_set_commute(x);
            }
            i += 1;
        }
        proof {
            assert(self.contents().take(n as int) =~= self.contents());
        }
        s
    }
}

} // verus!

