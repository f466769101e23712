//! The derived linear "knit" projection of a grid: a run-length encoding of
//! the row-major cell sequence, queryable by run index and convertible back
//! into a grid.

use vstd::prelude::*;
use vstd::pervasive::VecAdditionalExecFns;
use std::collections::HashMap;
use crate::grid::Grid;
use vstd::laws_eq::obeys_concrete_eq;

verus! {

/// `n` copies of `v`.
pub open spec fn repeat_val<T>(v: T, n: int) -> Seq<T> {
    Seq::new(n as nat, |i: int| v)
}

/// Expands a run-length encoding back into the sequence it encodes.
pub open spec fn decode_runs<T>(runs: Seq<(T, usize)>) -> Seq<T>
    decreases runs.len(),
{
    if runs.len() == 0 {
        Seq::empty()
    } else {
        repeat_val(runs.first().0, runs.first().1 as int) + decode_runs(runs.drop_first())
    }
}

/// Every run counts at least one element.
pub open spec fn runs_wf<T>(runs: Seq<(T, usize)>) -> bool {
    forall|i: int| 0 <= i < runs.len() ==> (#[trigger] runs[i]).1 >= 1
}

/// No two adjacent runs carry the same value: the encoding is maximal.
pub open spec fn runs_maximal<T>(runs: Seq<(T, usize)>) -> bool {
    forall|i: int| 0 <= i < runs.len() - 1 ==> (#[trigger] runs[i]).0 != runs[i + 1].0
}

/// Appending a run decodes to the decoded prefix followed by that run.
pub proof fn lemma_decode_push<T>(runs: Seq<(T, usize)>, v: T, n: usize)
    ensures
        decode_runs(runs.push((v, n))) =~= decode_runs(runs) + repeat_val(v, n as int),
    decreases runs.len(),
{
    let p = runs.push((v, n));
    if runs.len() == 0 {
        assert(p.drop_first() =~= runs);
        assert(decode_runs(runs) =~= Seq::<T>::empty());
        assert(repeat_val(v, n as int) + Seq::<T>::empty() =~= repeat_val(v, n as int));
        assert(Seq::<T>::empty() + repeat_val(v, n as int) =~= repeat_val(v, n as int));
    } else {
        lemma_decode_push(runs.drop_first(), v, n);
        assert(p.drop_first() =~= runs.drop_first().push((v, n)));
        assert(repeat_val(p.first().0, p.first().1 as int) + (decode_runs(runs.drop_first())
            + repeat_val(v, n as int)) =~= (repeat_val(runs.first().0, runs.first().1 as int)
            + decode_runs(runs.drop_first())) + repeat_val(v, n as int));
    }
}

/// Raising the count of the final run by one appends one more copy of its
/// value to the decoded sequence.
pub proof fn lemma_decode_bump_last<T>(runs: Seq<(T, usize)>, v: T, cnt: usize)
    requires
        runs.len() >= 1,
        runs.last() == (v, cnt),
        cnt + 1 <= usize::MAX,
    ensures
        decode_runs(runs.update(runs.len() - 1, (v, (cnt + 1) as usize))) =~= decode_runs(
            runs,
        ).push(v),
{
    let k = runs.len() - 1;
    let prefix = runs.take(k);
    assert(runs =~= prefix.push((v, cnt)));
    assert(runs.update(k, (v, (cnt + 1) as usize)) =~= prefix.push((v, (cnt + 1) as usize)));
    lemma_decode_push(prefix, v, cnt);
    lemma_decode_push(prefix, v, (cnt + 1) as usize);
    assert(repeat_val(v, cnt + 1 as int) =~= repeat_val(v, cnt as int).push(v));
    assert(decode_runs(prefix.push((v, (cnt + 1) as usize))) =~= (decode_runs(prefix)
        + repeat_val(v, cnt as int)).push(v));
}

/// A run-length projection: the runs, plus the row length of the grid it was
/// derived from, kept for reconstruction.
#[derive(Clone, Debug)]
pub struct BeadsLine<T> {
    line: Vec<(T, usize)>,
    width: usize,
}

impl<T> BeadsLine<T> {
    /// The runs, in order.
    pub closed spec fn runs(self) -> Seq<(T, usize)> {
        self.line@
    }

    /// The row length of the source grid.
    pub closed spec fn spec_width(self) -> int {
        self.width as int
    }

    /// A usable projection: positive width and positive run counts.
    pub open spec fn wf(self) -> bool {
        &&& self.spec_width() >= 1
        &&& runs_wf(self.runs())
    }

    /// The number of runs.
    pub fn len(&self) -> (n: usize)
        ensures
            n == self.runs().len(),
    {
        self.line.len()
    }

    /// The row length of the source grid, as a run-time value.
    pub fn width(&self) -> (w: usize)
        ensures
            w as int == self.spec_width(),
    {
        self.width
    }

    /// A read-only borrow of the runs.
    pub fn line(&self) -> (l: &Vec<(T, usize)>)
        ensures
            l@ == self.runs(),
    {
        &self.line
    }
}

impl<T: Copy> BeadsLine<T> {
    /// The run at `index`.
    pub fn get_run(&self, index: usize) -> (r: (T, usize))
        requires
            index < self.runs().len(),
        ensures
            r == self.runs()[index as int],
    {
        self.line[index]
    }

    /// Replaces the value of the run at `index`, keeping its count.
    pub fn set_run_value(&mut self, index: usize, value: T)
        requires
            index < old(self).runs().len(),
        ensures
            final(self).spec_width() == old(self).spec_width(),
            final(self).runs() == old(self).runs().update(
                index as int,
                (value, old(self).runs()[index as int].1),
            ),
    {
        let cnt = self.line[index].1;
        self.line.set(index, (value, cnt));
    }

    /// Builds the projection of a grid: a maximal run-length encoding of its
    /// row-major cell sequence.
    pub fn build(grid: &Grid<T>) -> (l: BeadsLine<T>)
        where T: PartialEq
        requires
            grid.wf(),
            obeys_concrete_eq::<T>(),
        ensures
            l.wf(),
            l.spec_width() == grid.spec_width(),
            decode_runs(l.runs()) == grid.contents(),
            runs_maximal(l.runs()),
    {
        proof {
            reveal(vstd::laws_eq::obeys_concrete_eq);
        }
        let w = grid.width();
        let h = grid.height();
        let total = grid.cell_count();
        let mut line: Vec<(T, usize)> = Vec::new();
        let mut r: usize = 0;
        while r < h
            invariant
                r <= h,
                grid.wf(),
                obeys_concrete_eq::<T>(),
                w as int == grid.spec_width(),
                h as int == grid.spec_height(),
                total == grid.contents().len(),
                decode_runs(line@) =~= grid.contents().take(r * w),
                0 <= r * w <= total,
                runs_wf(line@),
                runs_maximal(line@),
                line@.len() >= 1 ==> line@.last().1 <= r * w,
            decreases h - r,
        {
            let ghost row_base = r * w;
            proof {
                crate::grid::lemma_row_bounds(w as int, h as int, r as int);
            }
            let mut c: usize = 0;
            while c < w
                invariant
                    c <= w,
                    r < h,
                    grid.wf(),
                    obeys_concrete_eq::<T>(),
                    w as int == grid.spec_width(),
                    h as int == grid.spec_height(),
                    total == grid.contents().len(),
                    row_base == r * w,
                    0 <= row_base,
                    row_base + w <= total,
                    decode_runs(line@) =~= grid.contents().take(row_base + c),
                    runs_wf(line@),
                    runs_maximal(line@),
                    line@.len() >= 1 ==> line@.last().1 <= row_base + c,
                decreases w - c,
            {
                proof {
                    reveal(vstd::laws_eq::obeys_concrete_eq);
                    crate::grid::lemma_flat_index(w as int, h as int, r as int, c as int);
                }
                let cell = grid.get(r, c);
                let ghost idx = row_base + c;
                proof {
                    assert(grid.contents().take(idx + 1) =~= grid.contents().take(idx).push(
                        grid.contents()[idx],
                    ));
                    assert(grid.cell(r as int, c as int) == grid.contents()[idx]);
                }
                let k = line.len();
                let ghost runs0 = line@;
                if k == 0 {
                    line.push((cell, 1));
                    proof {
                        lemma_decode_push(runs0, cell, 1);
                        assert(repeat_val(cell, 1 as int) =~= Seq::empty().push(cell));
                        assert(decode_runs(line@) =~= grid.contents().take(idx + 1));
                    }
                } else {
                    let last = line[k - 1];
                    if last.0 == cell {
                        line.set(k - 1, (cell, last.1 + 1));
                        proof {
                            assert(runs0.last() == (cell, last.1));
                            lemma_decode_bump_last(runs0, cell, last.1);
                            assert(decode_runs(line@) =~= grid.contents().take(idx + 1));
                        }
                    } else {
                        line.push((cell, 1));
                        proof {
                            lemma_decode_push(runs0, cell, 1);
                            assert(repeat_val(cell, 1 as int) =~= Seq::empty().push(cell));
                            assert(decode_runs(line@) =~= grid.contents().take(idx + 1));
                        }
                    }
                }
                c += 1;
            }
            proof {
                assert((r + 1) * w == r * w + w) by (nonlinear_arith);
            }
            r += 1;
        }
        proof {
            assert(grid.contents().take((h * w) as int) =~= grid.contents()) by {
                assert(h * w == w * h) by (nonlinear_arith);
            }
        }
        BeadsLine { line, width: w }
    }
}


/// Replacing the value of one run, keeping its count, keeps the length of the
/// decoded sequence.
pub proof fn lemma_decode_update_value_len<T>(runs: Seq<(T, usize)>, i: int, v2: T)
    requires
        0 <= i < runs.len(),
    ensures
        decode_runs(runs.update(i, (v2, runs[i].1))).len() == decode_runs(runs).len(),
    decreases runs.len(),
{
    let u = runs.update(i, (v2, runs[i].1));
    if i == 0 {
        assert(u.drop_first() =~= runs.drop_first());
    } else {
        assert(u.drop_first() =~= runs.drop_first().update(i - 1, (v2, runs.drop_first()[i - 1].1)));
        lemma_decode_update_value_len(runs.drop_first(), i - 1, v2);
    }
}

impl<T: Copy> BeadsLine<T> {
    /// Rebuilds the grid this projection encodes: the decoded sequence, cut
    /// into rows of the stored width.
    pub fn grid(&self) -> (g: Grid<T>)
        requires
            self.wf(),
            decode_runs(self.runs()).len() >= 1,
            (decode_runs(self.runs()).len() as int) % self.spec_width() == 0,
        ensures
            g.wf(),
            g.spec_width() == self.spec_width(),
            g.contents() == decode_runs(self.runs()),
    {
        let n = self.line.len();
        let mut data: Vec<T> = Vec::new();
        let mut i: usize = 0;
        while i < n
            invariant
                i <= n,
                n == self.runs().len(),
                runs_wf(self.runs()),
                data@ =~= decode_runs(self.runs().take(i as int)),
            decreases n - i,
        {
            let run = self.line[i];
            let v = run.0;
            let cnt = run.1;
            let mut j: usize = 0;
            while j < cnt
                invariant
                    j <= cnt,
                    i < n,
                    n == self.runs().len(),
                    (v, cnt) == self.runs()[i as int],
                    data@ =~= decode_runs(self.runs().take(i as int)) + repeat_val(v, j as int),
                decreases cnt - j,
            {
                data.push(v);
                proof {
                    assert(decode_runs(self.runs().take(i as int)) + repeat_val(v, j + 1 as int)
                        =~= (decode_runs(self.runs().take(i as int)) + repeat_val(
                        v,
                        j as int,
                    )).push(v));
                }
                j += 1;
            }
            proof {
                assert(self.runs().take(i + 1 as int) =~= self.runs().take(i as int).push(
                    (v, cnt),
                ));
                lemma_decode_push(self.runs().take(i as int), v, cnt);
            }
            i += 1;
        }
        proof {
            assert(self.runs().take(n as int) =~= self.runs());
        }
        match Grid::frow_raw(self.width, data) {
            Ok(g) => g,
            Err(_) => {
                proof {
                    assert(false);
                }
                vstd::pervasive::unreached()
            },
        }
    }

    /// Elementwise transform of the run values; counts and width are kept.
    pub fn map<X: Copy, F: Fn(&T) -> X>(&self, fun: F) -> (l: BeadsLine<X>)
        requires
            forall|i: int|
                0 <= i < self.runs().len() ==> call_requires(fun, (&self.runs()[i].0,)),
        ensures
            l.spec_width() == self.spec_width(),
            l.runs().len() == self.runs().len(),
            forall|i: int|
                0 <= i < l.runs().len() ==> (#[trigger] l.runs()[i]).1 == self.runs()[i].1
                    && call_ensures(fun, (&self.runs()[i].0,), l.runs()[i].0),
    {
        let n = self.line.len();
        let mut out: Vec<(X, usize)> = Vec::new();
        let mut i: usize = 0;
        while i < n
            invariant
                i <= n,
                n == self.runs().len(),
                forall|j: int|
                    0 <= j < n ==> call_requires(fun, (&self.runs()[j].0,)),
                out@.len() == i,
                forall|j: int|
                    0 <= j < i ==> (#[trigger] out@[j]).1 == self.runs()[j].1 && call_ensures(
                        fun,
                        (&self.runs()[j].0,),
                        out@[j].0,
                    ),
            decreases n - i,
        {
            let run = self.line[i];
            out.push((fun(&run.0), run.1));
            i += 1;
        }
        BeadsLine { line: out, width: self.width }
    }
}


/// The number of cells that runs carrying the value `k` contribute.
pub open spec fn color_count<T>(runs: Seq<(T, usize)>, k: T) -> int
    decreases runs.len(),
{
    if runs.len() == 0 {
        0
    } else {
        (if runs.first().0 == k {
            runs.first().1 as int
        } else {
            0
        }) + color_count(runs.drop_first(), k)
    }
}

/// A per-value count is nonnegative.
pub proof fn lemma_color_count_nonneg<T>(runs: Seq<(T, usize)>, k: T)
    ensures
        color_count(runs, k) >= 0,
    decreases runs.len(),
{
    if runs.len() > 0 {
        lemma_color_count_nonneg(runs.drop_first(), k);
    }
}

/// Appending one run raises exactly that value's count.
pub proof fn lemma_color_count_push<T>(runs: Seq<(T, usize)>, v: T, n: usize, k: T)
    ensures
        color_count(runs.push((v, n)), k) == color_count(runs, k) + (if v == k {
            n as int
        } else {
            0
        }),
    decreases runs.len(),
{
    let p = runs.push((v, n));
    if runs.len() == 0 {
        assert(p.drop_first() =~= runs);
    } else {
        assert(p.drop_first() =~= runs.drop_first().push((v, n)));
        lemma_color_count_push(runs.drop_first(), v, n, k);
    }
}

/// No value's count exceeds the decoded length.
pub proof fn lemma_color_count_le_decode<T>(runs: Seq<(T, usize)>, k: T)
    ensures
        color_count(runs, k) <= decode_runs(runs).len(),
    decreases runs.len(),
{
    if runs.len() > 0 {
        lemma_color_count_le_decode(runs.drop_first(), k);
    }
}

/// A prefix never counts more than the whole.
pub proof fn lemma_color_count_prefix<T>(runs: Seq<(T, usize)>, j: int, k: T)
    requires
        0 <= j <= runs.len(),
    ensures
        color_count(runs.take(j), k) <= color_count(runs, k),
    decreases runs.len() - j,
{
    if j < runs.len() {
        lemma_color_count_prefix(runs, j + 1, k);
        assert(runs.take(j + 1) =~= runs.take(j).push(runs[j]));
        lemma_color_count_push(runs.take(j), runs[j].0, runs[j].1, k);
    } else {
        assert(runs.take(j) =~= runs);
    }
}

impl<T: Copy + core::cmp::Eq + core::hash::Hash> BeadsLine<T> {
    /// The per-color cell totals of the pattern: each value present in the
    /// runs, mapped to the number of cells holding it.
    pub fn summary(&self) -> (m: HashMap<T, usize>)
        requires
            self.wf(),
            vstd::std_specs::hash::obeys_key_model::<T>(),
            decode_runs(self.runs()).len() <= usize::MAX,
        ensures
            forall|k: T| m@.contains_key(k) <==> color_count(self.runs(), k) > 0,
            forall|k: T|
                m@.contains_key(k) ==> #[trigger] m@[k] as int == color_count(self.runs(), k),
    {
        broadcast use vstd::std_specs::hash::group_hash_axioms;

        let n = self.line.len();
        let mut m: HashMap<T, usize> = HashMap::new();
        let mut i: usize = 0;
        while i < n
            invariant
                i <= n,
                n == self.runs().len(),
                runs_wf(self.runs()),
                vstd::std_specs::hash::obeys_key_model::<T>(),
                decode_runs(self.runs()).len() <= usize::MAX,
                forall|k: T| m@.contains_key(k) <==> color_count(self.runs().take(i as int), k)
                    > 0,
                forall|k: T|
                    m@.contains_key(k) ==> #[trigger] m@[k] as int == color_count(
                        self.runs().take(i as int),
                        k,
                    ),
            decreases n - i,
        {
            broadcast use vstd::std_specs::hash::group_hash_axioms;

            let run = self.line[i];
            let v = run.0;
            let cnt = run.1;
            let prior: usize = match m.get(&v) {
                Some(p) => *p,
                None => 0,
            };
            proof {
                let runs = self.runs();
                let prefix = runs.take(i as int);
                assert(runs.take(i + 1 as int) =~= prefix.push((v, cnt)));
                lemma_color_count_push(prefix, v, cnt, v);
                lemma_color_count_nonneg(prefix, v);
                lemma_color_count_prefix(runs, i + 1 as int, v);
                lemma_color_count_le_decode(runs, v);
                assert(prior as int == color_count(prefix, v));
                assert(prior + cnt <= usize::MAX);
            }
            m.insert(v, prior + cnt);
            proof {
                let runs = self.runs();
                let prefix = runs.take(i as int);
                assert forall|k: T| m@.contains_key(k) <==> color_count(
                    runs.take(i + 1 as int),
                    k,
                ) > 0 by {
                    lemma_color_count_push(prefix, v, cnt, k);
                    lemma_color_count_nonneg(prefix, k);
                    assert(runs[i as int] == (v, cnt));
                    assert(runs[i as int].1 >= 1);
                }
                assert forall|k: T| m@.contains_key(k) implies #[trigger] m@[k] as int
                    == color_count(runs.take(i + 1 as int), k) by {
                    lemma_color_count_push(prefix, v, cnt, k);
                }
            }
            i += 1;
        }
        proof {
            assert(self.runs().take(n as int) =~= self.runs());
        }
        m
    }
}

} // verus!
