//! The reversible command layer: the message vocabulary, a bounded undo/redo
//! log that records the exact inverse of every mutating command, and the
//! display-rotation helper.

use vstd::prelude::*;
use std::collections::VecDeque;
use vstd::laws_eq::obeys_concrete_eq;
use crate::entities::{Side, GridAction};
use crate::grid::{Error, shrink_ok};
use crate::model::{
    Model, Bead, ColorTrait, is_set_of, is_model_grow_of, is_model_shrink_of, is_model_resize_of,
};

verus! {

/// Bound on each history queue; when a queue is full the oldest entry is
/// evicted to make room for the newest.
pub const LOG_CAPACITY: usize = 1000;

/// The command vocabulary the core accepts from any front end.
#[derive(Clone, Copy, Debug)]
pub enum Message<T> {
    /// A raw click on a cell: starts a fresh edit branch.
    GridClicked(usize, usize),
    /// Replace the color at (row, column).
    SetColor(usize, usize, T),
    /// Grow or shrink one edge.
    GridAction(GridAction),
    /// Turn the display rotation; never logged.
    Rotate(isize),
    Undo,
    Redo,
}

/// Which history queue an inverse is recorded into.
#[derive(Clone, Copy, Debug, PartialEq, Eq, Structural)]
pub enum LogTarget {
    Undo,
    Redo,
}

/// The commands that mutate the model and carry an inverse.
pub open spec fn is_reversible<T>(m: Message<T>) -> bool {
    match m {
        Message::SetColor(_, _, _) => true,
        Message::GridAction(_) => true,
        _ => false,
    }
}

/// The exact inverse of a reversible command, computed from the state the
/// command is about to act on; `None` when the command will not change it.
pub open spec fn inverse_of<T: ColorTrait>(m: Model<T>, cmd: Message<T>) -> Option<Message<T>> {
    match cmd {
        Message::SetColor(row, col, color) => {
            if m.grid.in_bounds(row as int, col as int) && m.grid.cell(
                row as int,
                col as int,
            ).color != color {
                Some(Message::SetColor(row, col, m.grid.cell(row as int, col as int).color))
            } else {
                None
            }
        },
        Message::GridAction(GridAction::Add(side)) => Some(
            Message::GridAction(GridAction::Remove(side)),
        ),
        Message::GridAction(GridAction::Remove(side)) => if shrink_ok(m.grid, side) {
            Some(Message::GridAction(GridAction::Add(side)))
        } else {
            None
        },
        _ => None,
    }
}

/// `m2` is exactly the model reached by executing `cmd` against `m1`; grows
/// fill with the log's default color `dc`. A command whose inverse is `None`
/// leaves the model untouched.
pub open spec fn is_apply_of<T: ColorTrait>(
    m2: Model<T>,
    m1: Model<T>,
    cmd: Message<T>,
    dc: T,
) -> bool {
    match cmd {
        Message::SetColor(row, col, color) => {
            if m1.grid.in_bounds(row as int, col as int) && m1.grid.cell(
                row as int,
                col as int,
            ).color != color {
                is_set_of(m2, m1, row as int, col as int, color)
            } else {
                m2 == m1
            }
        },
        Message::GridAction(GridAction::Add(side)) => is_model_grow_of(m2, m1, side, dc),
        Message::GridAction(GridAction::Remove(side)) => if shrink_ok(m1.grid, side) {
            is_model_shrink_of(m2, m1, side)
        } else {
            m2 == m1
        },
        _ => m2 == m1,
    }
}

/// The error a reversible command reports, if any: a color edit outside the
/// grid, or a removal at the 1-cell floor.
pub open spec fn apply_err<T: ColorTrait>(m: Model<T>, cmd: Message<T>) -> Option<Error> {
    match cmd {
        Message::SetColor(row, col, _) => if !m.grid.in_bounds(row as int, col as int) {
            Some(Error::OutOfBounds)
        } else {
            None
        },
        Message::GridAction(GridAction::Remove(side)) => if !shrink_ok(m.grid, side) {
            Some(Error::CannotShrink)
        } else {
            None
        },
        _ => None,
    }
}

/// A history queue after recording `m` at the front, evicting the oldest
/// entry if the queue was full.
pub open spec fn logged<T>(q: Seq<Message<T>>, m: Message<T>) -> Seq<Message<T>> {
    let q2 = seq![m] + q;
    if q2.len() > LOG_CAPACITY {
        q2.take(LOG_CAPACITY as int)
    } else {
        q2
    }
}

/// Reduces an accumulated rotation to a column offset of the current width:
/// the Euclidean remainder of `rot` modulo `width`.
pub fn normalize_rotation(rot: isize, width: usize) -> (r: usize)
    requires
        1 <= width <= isize::MAX,
    ensures
        r as int == (rot as int) % (width as int),
{
    let w = width;
    if rot >= 0 {
        let u = rot as usize;
        let m = u % w;
        proof {
            vstd::arithmetic::div_mod::lemma_fundamental_div_mod(u as int, w as int);
            vstd::arithmetic::div_mod::lemma_mod_division_less_than_divisor(u as int, w as int);
        }
        m
    } else {
        let mag: usize = ((-(rot + 1)) as usize) + 1;
        let m = mag % w;
        proof {
            let magi = mag as int;
            let wi = w as int;
            let q = magi / wi;
            vstd::arithmetic::div_mod::lemma_fundamental_div_mod(magi, wi);
            vstd::arithmetic::div_mod::lemma_mod_division_less_than_divisor(magi, wi);
            assert(magi == -(rot as int));
            if m == 0 {
                assert(rot as int == (-q) * wi + 0) by (nonlinear_arith)
                    requires magi == wi * q + 0 && magi == -(rot as int);
                vstd::arithmetic::div_mod::lemma_fundamental_div_mod_converse(
                    rot as int,
                    wi,
                    -q,
                    0,
                );
            } else {
                assert(rot as int == (-q - 1) * wi + (wi - (m as int))) by (nonlinear_arith)
                    requires magi == wi * q + (m as int) && magi == -(rot as int);
                vstd::arithmetic::div_mod::lemma_fundamental_div_mod_converse(
                    rot as int,
                    wi,
                    -q - 1,
                    wi - (m as int),
                );
            }
        }
        if m == 0 {
            0
        } else {
            w - m
        }
    }
}

/// The undo/redo controller: owns the model, the two bounded history queues,
/// the display rotation, and the fill color used when an edge is grown.
pub struct CommandLog<T: ColorTrait> {
    model: Model<T>,
    undo: VecDeque<Message<T>>,
    redo: VecDeque<Message<T>>,
    rotation: isize,
    default_color: T,
}

impl<T: ColorTrait> CommandLog<T> {
    /// The model driven by this log.
    pub closed spec fn spec_model(self) -> Model<T> {
        self.model
    }

    /// The undo queue, newest entry first.
    pub closed spec fn undo_log(self) -> Seq<Message<T>> {
        self.undo@
    }

    /// The redo queue, newest entry first.
    pub closed spec fn redo_log(self) -> Seq<Message<T>> {
        self.redo@
    }

    /// The accumulated display rotation.
    pub closed spec fn spec_rotation(self) -> int {
        self.rotation as int
    }

    /// The fill color used when an edge is grown.
    pub closed spec fn spec_default_color(self) -> T {
        self.default_color
    }

    /// A valid log: a valid model, queues within capacity holding only
    /// reversible commands.
    pub open spec fn wf(self) -> bool {
        &&& self.spec_model().wf()
        &&& self.undo_log().len() <= LOG_CAPACITY
        &&& self.redo_log().len() <= LOG_CAPACITY
        &&& forall|i: int|
            0 <= i < self.undo_log().len() ==> is_reversible(#[trigger] self.undo_log()[i])
        &&& forall|i: int|
            0 <= i < self.redo_log().len() ==> is_reversible(#[trigger] self.redo_log()[i])
    }

    /// A fresh log around `model` with empty histories.
    pub fn new(model: Model<T>, default_color: T) -> (log: CommandLog<T>)
        requires
            model.wf(),
        ensures
            log.wf(),
            log.spec_model() == model,
            log.undo_log() == Seq::<Message<T>>::empty(),
            log.redo_log() == Seq::<Message<T>>::empty(),
            log.spec_rotation() == 0,
            log.spec_default_color() == default_color,
    {
        CommandLog {
            model,
            undo: VecDeque::with_capacity(LOG_CAPACITY),
            redo: VecDeque::with_capacity(LOG_CAPACITY),
            rotation: 0,
            default_color,
        }
    }

    /// A read-only borrow of the model.
    pub fn model(&self) -> (m: &Model<T>)
        ensures
            *m == self.spec_model(),
    {
        &self.model
    }

    /// The number of pending undo entries.
    pub fn undo_len(&self) -> (n: usize)
        ensures
            n == self.undo_log().len(),
    {
        self.undo.len()
    }

    /// The number of pending redo entries.
    pub fn redo_len(&self) -> (n: usize)
        ensures
            n == self.redo_log().len(),
    {
        self.redo.len()
    }

    /// The accumulated display rotation.
    pub fn rotation(&self) -> (r: isize)
        ensures
            r as int == self.spec_rotation(),
    {
        self.rotation
    }
}

/// Records `m` at the front of `q`, evicting the oldest entry when full.
fn push_log<T: ColorTrait>(q: &mut VecDeque<Message<T>>, m: Message<T>)
    requires
        old(q)@.len() <= LOG_CAPACITY,
    ensures
        final(q)@ == logged(old(q)@, m),
{
    let ghost q0 = q@;
    if q.len() == LOG_CAPACITY {
        q.pop_back();
        proof {
            assert(q@ =~= q0.drop_last());
        }
    }
    q.push_front(m);
    proof {
        if q0.len() == LOG_CAPACITY {
            assert((seq![m] + q0).take(LOG_CAPACITY as int) =~= seq![m] + q0.drop_last());
        }
    }
}

impl<T: ColorTrait> CommandLog<T> {
    /// Executes a reversible command against the model and records its exact
    /// inverse, computed from the pre-mutation state, at the front of the
    /// chosen queue. A command that does not change the model records
    /// nothing. Reports `OutOfBounds` for a color edit outside the grid and
    /// `CannotShrink` for a removal at the 1-cell floor.
    pub fn apply(&mut self, cmd: Message<T>, target: LogTarget) -> (res: Result<(), Error>)
        requires
            old(self).wf(),
            is_reversible(cmd),
            obeys_concrete_eq::<T>(),
            (old(self).spec_model().grid.spec_width() + 1) * (old(self).spec_model().grid.spec_height() + 1) <= usize::MAX,
        ensures
            final(self).wf(),
            is_apply_of(
                final(self).spec_model(),
                old(self).spec_model(),
                cmd,
                old(self).spec_default_color(),
            ),
            final(self).spec_default_color() == old(self).spec_default_color(),
            final(self).spec_rotation() == old(self).spec_rotation(),
            match inverse_of(old(self).spec_model(), cmd) {
                Some(ic) => {
                    &&& (target == LogTarget::Undo ==> final(self).undo_log() == logged(
                        old(self).undo_log(),
                        ic,
                    ) && final(self).redo_log() == old(self).redo_log())
                    &&& (target == LogTarget::Redo ==> final(self).redo_log() == logged(
                        old(self).redo_log(),
                        ic,
                    ) && final(self).undo_log() == old(self).undo_log())
                },
                None => {
                    &&& final(self).undo_log() == old(self).undo_log()
                    &&& final(self).redo_log() == old(self).redo_log()
                },
            },
            res == match apply_err(old(self).spec_model(), cmd) {
                Some(e) => Err::<(), Error>(e),
                None => Ok::<(), Error>(()),
            },
    {
        match cmd {
            Message::SetColor(row, col, color) => {
                match self.model.set(row, col, color) {
                    Err(e) => Err(e),
                    Ok(None) => Ok(()),
                    Ok(Some(prev)) => {
                        let inv = Message::SetColor(row, col, prev.color);
                        match target {
                            LogTarget::Undo => push_log(&mut self.undo, inv),
                            LogTarget::Redo => push_log(&mut self.redo, inv),
                        }
                        Ok(())
                    },
                }
            },
            Message::GridAction(action) => {
                match action {
                    GridAction::Add(side) => {
                        self.model.grow(side, self.default_color);
                        let inv = Message::GridAction(GridAction::Remove(side));
                        match target {
                            LogTarget::Undo => push_log(&mut self.undo, inv),
                            LogTarget::Redo => push_log(&mut self.redo, inv),
                        }
                        Ok(())
                    },
                    GridAction::Remove(side) => {
                        match self.model.shrink(side) {
                            Err(e) => Err(e),
                            Ok(()) => {
                                let inv = Message::GridAction(GridAction::Add(side));
                                match target {
                                    LogTarget::Undo => push_log(&mut self.undo, inv),
                                    LogTarget::Redo => push_log(&mut self.redo, inv),
                                }
                                Ok(())
                            },
                        }
                    },
                }
            },
            _ => {
                proof {
                    assert(false);
                }
                vstd::pervasive::unreached()
            },
        }
    }
}


impl<T: ColorTrait> CommandLog<T> {
    /// Pops the newest undo entry and replays it, recording its own inverse
    /// into the redo queue; a no-op on an empty queue.
    pub fn undo(&mut self) -> (res: Result<(), Error>)
        requires
            old(self).wf(),
            obeys_concrete_eq::<T>(),
            (old(self).spec_model().grid.spec_width() + 1) * (old(self).spec_model().grid.spec_height() + 1) <= usize::MAX,
        ensures
            final(self).wf(),
            final(self).spec_default_color() == old(self).spec_default_color(),
            final(self).spec_rotation() == old(self).spec_rotation(),
            old(self).undo_log().len() == 0 ==> {
                &&& final(self).spec_model() == old(self).spec_model()
                &&& final(self).undo_log() == old(self).undo_log()
                &&& final(self).redo_log() == old(self).redo_log()
                &&& res is Ok
            },
            old(self).undo_log().len() > 0 ==> {
                let cmd = old(self).undo_log()[0];
                &&& is_apply_of(
                    final(self).spec_model(),
                    old(self).spec_model(),
                    cmd,
                    old(self).spec_default_color(),
                )
                &&& final(self).undo_log() == old(self).undo_log().drop_first()
                &&& final(self).redo_log() == match inverse_of(old(self).spec_model(), cmd) {
                    Some(ic) => logged(old(self).redo_log(), ic),
                    None => old(self).redo_log(),
                }
                &&& res == match apply_err(old(self).spec_model(), cmd) {
                    Some(e) => Err::<(), Error>(e),
                    None => Ok::<(), Error>(()),
                }
            },
    {
        let popped = self.undo.pop_front();
        match popped {
            None => Ok(()),
            Some(cmd) => {
                proof {
                    assert(self.undo@ =~= old(self).undo_log().drop_first());
                    assert(is_reversible(old(self).undo_log()[0]));
                }
                self.apply(cmd, LogTarget::Redo)
            },
        }
    }

    /// Pops the newest redo entry and replays it, recording its own inverse
    /// into the undo queue; a no-op on an empty queue.
    pub fn redo(&mut self) -> (res: Result<(), Error>)
        requires
            old(self).wf(),
            obeys_concrete_eq::<T>(),
            (old(self).spec_model().grid.spec_width() + 1) * (old(self).spec_model().grid.spec_height() + 1) <= usize::MAX,
        ensures
            final(self).wf(),
            final(self).spec_default_color() == old(self).spec_default_color(),
            final(self).spec_rotation() == old(self).spec_rotation(),
            old(self).redo_log().len() == 0 ==> {
                &&& final(self).spec_model() == old(self).spec_model()
                &&& final(self).undo_log() == old(self).undo_log()
                &&& final(self).redo_log() == old(self).redo_log()
                &&& res is Ok
            },
            old(self).redo_log().len() > 0 ==> {
                let cmd = old(self).redo_log()[0];
                &&& is_apply_of(
                    final(self).spec_model(),
                    old(self).spec_model(),
                    cmd,
                    old(self).spec_default_color(),
                )
                &&& final(self).redo_log() == old(self).redo_log().drop_first()
                &&& final(self).undo_log() == match inverse_of(old(self).spec_model(), cmd) {
                    Some(ic) => logged(old(self).undo_log(), ic),
                    None => old(self).undo_log(),
                }
                &&& res == match apply_err(old(self).spec_model(), cmd) {
                    Some(e) => Err::<(), Error>(e),
                    None => Ok::<(), Error>(()),
                }
            },
    {
        let popped = self.redo.pop_front();
        match popped {
            None => Ok(()),
            Some(cmd) => {
                proof {
                    assert(self.redo@ =~= old(self).redo_log().drop_first());
                    assert(is_reversible(old(self).redo_log()[0]));
                }
                self.apply(cmd, LogTarget::Undo)
            },
        }
    }

    /// The single dispatch point for user-originated messages. A fresh edit
    /// (a click or a reversible command) clears the redo queue — starting a
    /// new edit branch invalidates pending redo history — and a reversible
    /// command is then executed with its inverse logged for undo. Rotation
    /// only turns the display. Undo and redo replay history and do not clear
    /// the redo queue themselves.
    pub fn update(&mut self, msg: Message<T>) -> (res: Result<(), Error>)
        requires
            old(self).wf(),
            obeys_concrete_eq::<T>(),
            (old(self).spec_model().grid.spec_width() + 1) * (old(self).spec_model().grid.spec_height() + 1) <= usize::MAX,
        ensures
            final(self).wf(),
            final(self).spec_default_color() == old(self).spec_default_color(),
            is_reversible(msg) ==> {
                &&& res == match apply_err(old(self).spec_model(), msg) {
                    Some(e) => Err::<(), Error>(e),
                    None => Ok::<(), Error>(()),
                }
                &&& is_apply_of(
                    final(self).spec_model(),
                    old(self).spec_model(),
                    msg,
                    old(self).spec_default_color(),
                )
                &&& final(self).redo_log() == Seq::<Message<T>>::empty()
                &&& final(self).undo_log() == match inverse_of(old(self).spec_model(), msg) {
                    Some(ic) => logged(old(self).undo_log(), ic),
                    None => old(self).undo_log(),
                }
                &&& final(self).spec_rotation() == old(self).spec_rotation()
            },
            msg matches Message::GridClicked(_, _) ==> {
                &&& res is Ok
                &&& final(self).spec_model() == old(self).spec_model()
                &&& final(self).redo_log() == Seq::<Message<T>>::empty()
                &&& final(self).undo_log() == old(self).undo_log()
                &&& final(self).spec_rotation() == old(self).spec_rotation()
            },
            msg matches Message::Rotate(d) ==> {
                &&& res is Ok
                &&& final(self).spec_model() == old(self).spec_model()
                &&& final(self).undo_log() == old(self).undo_log()
                &&& final(self).redo_log() == old(self).redo_log()
                &&& final(self).spec_rotation() == (
                    if isize::MIN <= old(self).spec_rotation() + d <= isize::MAX {
                        old(self).spec_rotation() + d
                    } else {
                        old(self).spec_rotation()
                    }
                )
            },
            msg matches Message::Undo ==> {
                &&& final(self).spec_rotation() == old(self).spec_rotation()
                &&& (old(self).undo_log().len() == 0 ==> {
                    &&& final(self).spec_model() == old(self).spec_model()
                    &&& final(self).undo_log() == old(self).undo_log()
                    &&& final(self).redo_log() == old(self).redo_log()
                })
                &&& (old(self).undo_log().len() > 0 ==> {
                    let cmd = old(self).undo_log()[0];
                    &&& is_apply_of(
                        final(self).spec_model(),
                        old(self).spec_model(),
                        cmd,
                        old(self).spec_default_color(),
                    )
                    &&& final(self).undo_log() == old(self).undo_log().drop_first()
                    &&& final(self).redo_log() == match inverse_of(old(self).spec_model(), cmd) {
                        Some(ic) => logged(old(self).redo_log(), ic),
                        None => old(self).redo_log(),
                    }
                })
            },
            msg matches Message::Redo ==> {
                &&& final(self).spec_rotation() == old(self).spec_rotation()
                &&& (old(self).redo_log().len() == 0 ==> {
                    &&& final(self).spec_model() == old(self).spec_model()
                    &&& final(self).undo_log() == old(self).undo_log()
                    &&& final(self).redo_log() == old(self).redo_log()
                })
                &&& (old(self).redo_log().len() > 0 ==> {
                    let cmd = old(self).redo_log()[0];
                    &&& is_apply_of(
                        final(self).spec_model(),
                        old(self).spec_model(),
                        cmd,
                        old(self).spec_default_color(),
                    )
                    &&& final(self).redo_log() == old(self).redo_log().drop_first()
                    &&& final(self).undo_log() == match inverse_of(old(self).spec_model(), cmd) {
                        Some(ic) => logged(old(self).undo_log(), ic),
                        None => old(self).undo_log(),
                    }
                })
            },
    {
        match msg {
            Message::SetColor(_, _, _) | Message::GridAction(_) => {
                self.redo.clear();
                self.apply(msg, LogTarget::Undo)
            },
            Message::GridClicked(_, _) => {
                self.redo.clear();
                Ok(())
            },
            Message::Rotate(d) => {
                match self.rotation.checked_add(d) {
                    Some(r) => {
                        self.rotation = r;
                    },
                    None => {},
                }
                Ok(())
            },
            Message::Undo => self.undo(),
            Message::Redo => self.redo(),
        }
    }
}


/// Same grid dimensions and cell buffer; line projections may differ in
/// encoding but decode to the same cells.
pub open spec fn same_grid<T: ColorTrait>(a: Model<T>, b: Model<T>) -> bool {
    &&& a.grid.spec_width() == b.grid.spec_width()
    &&& a.grid.spec_height() == b.grid.spec_height()
    &&& a.grid.contents() == b.grid.contents()
}

/// The cells that a shrink at `side` removes are all unfilled `dc`.
pub open spec fn edge_all_default<T: ColorTrait>(g: crate::grid::Grid<Bead<T>>, side: Side, dc: T) -> bool {
    match side {
        Side::Top => forall|c: int|
            0 <= c < g.spec_width() ==> #[trigger] g.cell(0, c) == (Bead {
                color: dc,
                filled: false,
            }),
        Side::Bottom => forall|c: int|
            0 <= c < g.spec_width() ==> #[trigger] g.cell(g.spec_height() - 1, c) == (Bead {
                color: dc,
                filled: false,
            }),
        Side::Left => forall|r: int|
            0 <= r < g.spec_height() ==> #[trigger] g.cell(r, 0) == (Bead {
                color: dc,
                filled: false,
            }),
        Side::Right => forall|r: int|
            0 <= r < g.spec_height() ==> #[trigger] g.cell(r, g.spec_width() - 1) == (Bead {
                color: dc,
                filled: false,
            }),
    }
}

/// The commands whose effect a later inverse can restore exactly from `m`: a
/// color edit, a grow, or a shrink that only removes unfilled default cells.
pub open spec fn cmd_restorable<T: ColorTrait>(m: Model<T>, cmd: Message<T>, dc: T) -> bool {
    match cmd {
        Message::SetColor(_, _, _) => true,
        Message::GridAction(GridAction::Add(_)) => true,
        Message::GridAction(GridAction::Remove(side)) => shrink_ok(m.grid, side)
            ==> edge_all_default(m.grid, side, dc),
        _ => false,
    }
}

/// Reversibility, one step: executing an effective command and then its
/// logged inverse restores the grid exactly, and keeps every cell unfilled.
pub proof fn lemma_apply_inverse_restores<T: ColorTrait>(
    m1: Model<T>,
    m2: Model<T>,
    m3: Model<T>,
    cmd: Message<T>,
    dc: T,
)
    requires
        m1.wf(),
        m1.unfilled(),
        cmd_restorable(m1, cmd, dc),
        inverse_of(m1, cmd) is Some,
        is_apply_of(m2, m1, cmd, dc),
        is_apply_of(m3, m2, inverse_of(m1, cmd)->Some_0, dc),
    ensures
        same_grid(m3, m1),
        m2.wf(),
        m2.unfilled(),
        m3.wf(),
        m3.unfilled(),
{
    let ic = inverse_of(m1, cmd)->Some_0;
    match cmd {
        Message::SetColor(row, col, color) => {
            let r0 = row as int;
            let c0 = col as int;
            let prev = m1.grid.cell(r0, c0);
            assert(!prev.filled);
            assert(m2.unfilled());
            assert(m2.grid.cell(r0, c0).color == color);
            assert(prev == (Bead { color: prev.color, filled: false }));
            assert forall|r: int, c: int| m3.grid.in_bounds(r, c) implies m3.grid.cell(r, c)
                == m1.grid.cell(r, c) by {
                assert(m2.grid.in_bounds(r, c));
                assert(m1.grid.in_bounds(r, c));
            }
            crate::grid::Grid::lemma_cells_eq_implies_contents_eq(m3.grid, m1.grid);
            assert(m3.unfilled());
        },
        Message::GridAction(GridAction::Add(side)) => {
            assert(m2.unfilled());
            assert(shrink_ok(m2.grid, side));
            assert forall|r: int, c: int| m3.grid.in_bounds(r, c) implies m3.grid.cell(r, c)
                == m1.grid.cell(r, c) by {
                match side {
                    Side::Top => {
                        assert(m2.grid.in_bounds(r + 1, c));
                        assert(m1.grid.in_bounds(r, c));
                    },
                    Side::Bottom => {
                        assert(m2.grid.in_bounds(r, c));
                        assert(m1.grid.in_bounds(r, c));
                    },
                    Side::Left => {
                        assert(m2.grid.in_bounds(r, c + 1));
                        assert(m1.grid.in_bounds(r, c));
                    },
                    Side::Right => {
                        assert(m2.grid.in_bounds(r, c));
                        assert(m1.grid.in_bounds(r, c));
                    },
                }
                assert(m1.grid.cell(r, c) == (Bead {
                    color: m1.grid.cell(r, c).color,
                    filled: false,
                }));
            }
            crate::grid::Grid::lemma_cells_eq_implies_contents_eq(m3.grid, m1.grid);
            assert(m3.unfilled());
        },
        Message::GridAction(GridAction::Remove(side)) => {
            assert(shrink_ok(m1.grid, side));
            assert(edge_all_default(m1.grid, side, dc));
            assert(m2.unfilled());
            assert forall|r: int, c: int| m3.grid.in_bounds(r, c) implies m3.grid.cell(r, c)
                == m1.grid.cell(r, c) by {
                assert(m1.grid.in_bounds(r, c));
                match side {
                    Side::Top => {
                        if r == 0 {
                        } else {
                            assert(m2.grid.in_bounds(r - 1, c));
                        }
                    },
                    Side::Bottom => {
                        if r == m2.grid.spec_height() {
                        } else {
                            assert(m2.grid.in_bounds(r, c));
                        }
                    },
                    Side::Left => {
                        if c == 0 {
                        } else {
                            assert(m2.grid.in_bounds(r, c - 1));
                        }
                    },
                    Side::Right => {
                        if c == m2.grid.spec_width() {
                        } else {
                            assert(m2.grid.in_bounds(r, c));
                        }
                    },
                }
                assert(m1.grid.cell(r, c) == (Bead {
                    color: m1.grid.cell(r, c).color,
                    filled: false,
                }));
            }
            crate::grid::Grid::lemma_cells_eq_implies_contents_eq(m3.grid, m1.grid);
            assert(m3.unfilled());
        },
        _ => {
            assert(false);
        },
    }
}


/// Replaying the commands of `stack` in order, starting from `m`, is certain
/// to end in a model whose grid equals `m0`'s, whatever representation each
/// intermediate model takes.
pub open spec fn undoes_to<T: ColorTrait>(
    stack: Seq<Message<T>>,
    m: Model<T>,
    m0: Model<T>,
    dc: T,
) -> bool
    decreases stack.len(),
{
    if stack.len() == 0 {
        same_grid(m, m0)
    } else {
        &&& is_reversible(stack.first())
        &&& cmd_restorable(m, stack.first(), dc)
        &&& forall|m2: Model<T>|
            #[trigger] is_apply_of(m2, m, stack.first(), dc) ==> undoes_to(
                stack.drop_first(),
                m2,
                m0,
                dc,
            )
    }
}

/// `undoes_to` reads only the grid of its starting model: two models with
/// equal grids undo identically.
pub proof fn lemma_undoes_to_same_grid<T: ColorTrait>(
    stack: Seq<Message<T>>,
    a: Model<T>,
    b: Model<T>,
    m0: Model<T>,
    dc: T,
)
    requires
        undoes_to(stack, a, m0, dc),
        same_grid(a, b),
    ensures
        undoes_to(stack, b, m0, dc),
    decreases stack.len(),
{
    if stack.len() == 0 {
    } else {
        let cmd = stack.first();
        assert(cmd_restorable(b, cmd, dc)) by {
            match cmd {
                Message::GridAction(GridAction::Remove(side)) => {
                    if shrink_ok(b.grid, side) {
                        assert(edge_all_default(a.grid, side, dc));
                        assert forall|r: int, c: int| a.grid.in_bounds(r, c) implies a.grid.cell(
                            r,
                            c,
                        ) == b.grid.cell(r, c) by {
                        }
                    }
                },
                _ => {},
            }
        }
        assert forall|m2: Model<T>| #[trigger] is_apply_of(m2, b, cmd, dc) implies undoes_to(
            stack.drop_first(),
            m2,
            m0,
            dc,
        ) by {
            if is_apply_of(m2, a, cmd, dc) {
                assert(undoes_to(stack.drop_first(), m2, m0, dc));
            } else {
                // the step from `b` was an identity step; from `a` the same
                // command is also an identity step, landing on `a` itself
                assert(m2 == b);
                assert(is_apply_of(a, a, cmd, dc));
                assert(undoes_to(stack.drop_first(), a, m0, dc));
                lemma_undoes_to_same_grid(stack.drop_first(), a, m2, m0, dc);
            }
        }
    }
}

/// The user commands reversibility speaks of: color edits and grows.
pub open spec fn user_cmd<T>(m: Message<T>) -> bool {
    match m {
        Message::SetColor(_, _, _) => true,
        Message::GridAction(GridAction::Add(_)) => true,
        _ => false,
    }
}

/// Reversibility, inductive step: executing one user command extends the
/// undo stack so that replaying it still restores the starting grid.
pub proof fn lemma_apply_preserves_undoes_to<T: ColorTrait>(
    stack: Seq<Message<T>>,
    m0: Model<T>,
    m1: Model<T>,
    m2: Model<T>,
    cmd: Message<T>,
    dc: T,
)
    requires
        m1.wf(),
        m1.unfilled(),
        is_reversible(cmd),
        cmd_restorable(m1, cmd, dc),
        undoes_to(stack, m1, m0, dc),
        is_apply_of(m2, m1, cmd, dc),
    ensures
        m2.wf(),
        m2.unfilled(),
        match inverse_of(m1, cmd) {
            Some(ic) => undoes_to(seq![ic] + stack, m2, m0, dc),
            None => undoes_to(stack, m2, m0, dc),
        },
{
    match inverse_of(m1, cmd) {
        Some(ic) => {
            let stack2 = seq![ic] + stack;
            assert(stack2.first() == ic);
            assert(stack2.drop_first() =~= stack);
            assert(is_reversible(ic));
            assert(cmd_restorable(m2, ic, dc)) by {
                match cmd {
                    Message::GridAction(GridAction::Add(side)) => {
                        // the edge the inverse will remove was just grown
                        // from the default color, every bead unfilled
                        assert(edge_all_default(m2.grid, side, dc)) by {
                            match side {
                                Side::Top => {
                                    assert forall|c: int| 0 <= c < m2.grid.spec_width() implies
                                        #[trigger] m2.grid.cell(0, c) == (Bead {
                                        color: dc,
                                        filled: false,
                                    }) by {
                                        assert(m2.grid.in_bounds(0, c));
                                    }
                                },
                                Side::Bottom => {
                                    assert forall|c: int| 0 <= c < m2.grid.spec_width() implies
                                        #[trigger] m2.grid.cell(m2.grid.spec_height() - 1, c)
                                        == (Bead { color: dc, filled: false }) by {
                                        assert(m2.grid.in_bounds(m2.grid.spec_height() - 1, c));
                                    }
                                },
                                Side::Left => {
                                    assert forall|r: int| 0 <= r < m2.grid.spec_height() implies
                                        #[trigger] m2.grid.cell(r, 0) == (Bead {
                                        color: dc,
                                        filled: false,
                                    }) by {
                                        assert(m2.grid.in_bounds(r, 0));
                                    }
                                },
                                Side::Right => {
                                    assert forall|r: int| 0 <= r < m2.grid.spec_height() implies
                                        #[trigger] m2.grid.cell(r, m2.grid.spec_width() - 1)
                                        == (Bead { color: dc, filled: false }) by {
                                        assert(m2.grid.in_bounds(r, m2.grid.spec_width() - 1));
                                    }
                                },
                            }
                        }
                    },
                    _ => {},
                }
            }
            assert forall|m3: Model<T>| #[trigger] is_apply_of(m3, m2, ic, dc) implies undoes_to(
                stack,
                m3,
                m0,
                dc,
            ) by {
                lemma_apply_inverse_restores(m1, m2, m3, cmd, dc);
                lemma_undoes_to_same_grid(stack, m1, m3, m0, dc);
            }
            assert(undoes_to(stack2, m2, m0, dc));
            lemma_apply_inverse_trivia(m1, m2, cmd, dc);
        },
        None => {
            assert(m2 == m1);
        },
    }
}

/// An effective user command yields a well-formed, unhighlighted model.
proof fn lemma_apply_inverse_trivia<T: ColorTrait>(
    m1: Model<T>,
    m2: Model<T>,
    cmd: Message<T>,
    dc: T,
)
    requires
        m1.wf(),
        m1.unfilled(),
        is_reversible(cmd),
        inverse_of(m1, cmd) is Some,
        is_apply_of(m2, m1, cmd, dc),
    ensures
        m2.wf(),
        m2.unfilled(),
{
    match cmd {
        Message::SetColor(row, col, color) => {
            assert(m2.unfilled());
        },
        Message::GridAction(GridAction::Add(side)) => {
            assert(m2.unfilled());
        },
        Message::GridAction(GridAction::Remove(side)) => {
            assert(m2.unfilled());
        },
        _ => {
            assert(false);
        },
    }
}

/// The undo stack built by a run of commands: the inverse of each effective
/// command, newest first.
pub open spec fn stack_after<T: ColorTrait>(
    models: Seq<Model<T>>,
    cmds: Seq<Message<T>>,
    k: int,
) -> Seq<Message<T>>
    decreases k,
{
    if k <= 0 {
        Seq::empty()
    } else {
        match inverse_of(models[k - 1], cmds[k - 1]) {
            Some(ic) => seq![ic] + stack_after(models, cmds, k - 1),
            None => stack_after(models, cmds, k - 1),
        }
    }
}

/// Reversibility over a whole run of restorable commands: starting
/// unhighlighted, replaying the logged inverses newest-first is certain to
/// restore the initial grid exactly.
pub proof fn lemma_run_reversible<T: ColorTrait>(
    models: Seq<Model<T>>,
    cmds: Seq<Message<T>>,
    k: int,
    dc: T,
)
    requires
        models.len() == cmds.len() + 1,
        0 <= k <= cmds.len(),
        models[0].wf(),
        models[0].unfilled(),
        forall|i: int|
            0 <= i < cmds.len() ==> is_reversible(#[trigger] cmds[i]) && cmd_restorable(
                models[i],
                cmds[i],
                dc,
            ),
        forall|i: int|
            0 <= i < cmds.len() ==> is_apply_of(#[trigger] models[i + 1], models[i], cmds[i], dc),
    ensures
        models[k].wf(),
        models[k].unfilled(),
        undoes_to(stack_after(models, cmds, k), models[k], models[0], dc),
    decreases k,
{
    if k == 0 {
    } else {
        lemma_run_reversible(models, cmds, k - 1, dc);
        let i = k - 1;
        assert(is_apply_of(models[i + 1], models[i], cmds[i], dc));
        assert(models[i + 1] == models[k]);
        assert(is_reversible(cmds[i]) && cmd_restorable(models[i], cmds[i], dc));
        lemma_apply_preserves_undoes_to(
            stack_after(models, cmds, k - 1),
            models[0],
            models[k - 1],
            models[k],
            cmds[k - 1],
            dc,
        );
    }
}

/// Reversibility for user commands (the undo direction): after any sequence
/// of color edits and grows from an unhighlighted state, replaying the
/// logged inverses newest-first restores the initial grid exactly.
pub proof fn lemma_reversibility<T: ColorTrait>(
    models: Seq<Model<T>>,
    cmds: Seq<Message<T>>,
    dc: T,
)
    requires
        models.len() == cmds.len() + 1,
        models[0].wf(),
        models[0].unfilled(),
        forall|i: int| 0 <= i < cmds.len() ==> user_cmd(#[trigger] cmds[i]),
        forall|i: int|
            0 <= i < cmds.len() ==> is_apply_of(#[trigger] models[i + 1], models[i], cmds[i], dc),
    ensures
        models.last().wf(),
        models.last().unfilled(),
        undoes_to(stack_after(models, cmds, cmds.len() as int), models.last(), models[0], dc),
{
    assert forall|i: int| 0 <= i < cmds.len() implies is_reversible(#[trigger] cmds[i])
        && cmd_restorable(models[i], cmds[i], dc) by {
        assert(user_cmd(cmds[i]));
    }
    lemma_run_reversible(models, cmds, cmds.len() as int, dc);
    assert(models.last() == models[cmds.len() as int]);
}

/// Threads `undoes_to` along a concrete replay chain: after consuming the
/// first `j` stack entries the remainder still leads back to `m0`.
proof fn lemma_undoes_to_chain<T: ColorTrait>(
    stack: Seq<Message<T>>,
    m0: Model<T>,
    umodels: Seq<Model<T>>,
    j: int,
    dc: T,
)
    requires
        umodels.len() == stack.len() + 1,
        undoes_to(stack, umodels[0], m0, dc),
        0 <= j <= stack.len(),
        forall|i: int|
            0 <= i < stack.len() ==> is_apply_of(#[trigger] umodels[i + 1], umodels[i], stack[i], dc),
    ensures
        undoes_to(stack.skip(j), umodels[j], m0, dc),
    decreases j,
{
    if j == 0 {
        assert(stack.skip(0) =~= stack);
    } else {
        lemma_undoes_to_chain(stack, m0, umodels, j - 1, dc);
        let rest = stack.skip(j - 1);
        assert(rest.first() == stack[j - 1]);
        assert(rest.drop_first() =~= stack.skip(j));
        let i = j - 1;
        assert(is_apply_of(umodels[i + 1], umodels[i], stack[i], dc));
        assert(undoes_to(rest.drop_first(), umodels[j], m0, dc));
    }
}

/// The redo direction of reversibility: replaying the whole undo stack
/// restores the initial grid, and the inverses that those undo steps log —
/// the redo stack — lead straight back to the state the undos left.
pub proof fn lemma_undo_then_redo<T: ColorTrait>(
    stack: Seq<Message<T>>,
    m: Model<T>,
    m0: Model<T>,
    umodels: Seq<Model<T>>,
    dc: T,
)
    requires
        m.wf(),
        m.unfilled(),
        undoes_to(stack, m, m0, dc),
        umodels.len() == stack.len() + 1,
        umodels[0] == m,
        forall|i: int|
            0 <= i < stack.len() ==> is_apply_of(#[trigger] umodels[i + 1], umodels[i], stack[i], dc),
    ensures
        same_grid(umodels.last(), m0),
        undoes_to(stack_after(umodels, stack, stack.len() as int), umodels.last(), m, dc),
{
    let n = stack.len() as int;
    assert forall|i: int| 0 <= i < n implies is_reversible(#[trigger] stack[i]) && cmd_restorable(
        umodels[i],
        stack[i],
        dc,
    ) by {
        lemma_undoes_to_chain(stack, m0, umodels, i, dc);
        assert(stack.skip(i).first() == stack[i]);
        assert(stack.skip(i).len() > 0);
    }
    lemma_run_reversible(umodels, stack, n, dc);
    lemma_undoes_to_chain(stack, m0, umodels, n, dc);
    assert(stack.skip(n).len() == 0);
    assert(umodels.last() == umodels[n]);
}

impl<T: ColorTrait> CommandLog<T> {
    /// Flips the filled flag of a run of the line projection, outside the
    /// undo history, as a view-state change.
    pub fn toggle_filled(&mut self, index: usize) -> (res: Result<bool, crate::grid::Error>)
        requires
            old(self).wf(),
        ensures
            final(self).wf(),
            final(self).undo_log() == old(self).undo_log(),
            final(self).redo_log() == old(self).redo_log(),
            final(self).spec_rotation() == old(self).spec_rotation(),
            final(self).spec_default_color() == old(self).spec_default_color(),
            final(self).spec_model().grid.spec_width() == old(self).spec_model().grid.spec_width(),
            final(self).spec_model().grid.spec_height() == old(
                self,
            ).spec_model().grid.spec_height(),
            res is Err ==> final(self).spec_model() == old(self).spec_model() && res
                == Err::<bool, crate::grid::Error>(crate::grid::Error::OutOfBounds) && index >= old(
                self,
            ).spec_model().line.runs().len(),
            res matches Ok(was) ==> {
                let runs0 = old(self).spec_model().line.runs();
                &&& index < runs0.len()
                &&& was == runs0[index as int].0.filled
                &&& final(self).spec_model().line.runs() == runs0.update(
                    index as int,
                    (
                        (Bead { color: runs0[index as int].0.color, filled: !was }),
                        runs0[index as int].1,
                    ),
                )
            },
    {
        self.model.toggle_filled(index)
    }
}

impl<T: ColorTrait + Default> CommandLog<T> {
    /// Resizes the model toward the bottom-right; a panel action that lives
    /// outside the undo history.
    pub fn resize(&mut self, size: crate::entities::Size)
        requires
            old(self).wf(),
            obeys_concrete_eq::<T>(),
            size.wf(),
            (old(self).spec_model().grid.spec_width() + size.width) * (old(self).spec_model().grid.spec_height() + size.height) <= usize::MAX,
        ensures
            final(self).wf(),
            final(self).undo_log() == old(self).undo_log(),
            final(self).redo_log() == old(self).redo_log(),
            final(self).spec_rotation() == old(self).spec_rotation(),
            final(self).spec_default_color() == old(self).spec_default_color(),
            exists|d: T|
                #[trigger] call_ensures(T::default, (), d) && is_model_resize_of(
                    final(self).spec_model(),
                    old(self).spec_model(),
                    size,
                    d,
                ),
    {
        self.model.resize(size);
    }
}

} // verus!
