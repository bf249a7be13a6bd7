//! Input events, the queue that hands them from the input source to the main
//! loop, and the reducer that turns a batch of them into the next action.

use vstd::prelude::*;
use crate::cells::{as_point, CellSet};

verus! {

/// What the main loop does next.
#[derive(Clone, Copy, Debug, PartialEq, Eq, Structural)]
pub enum Action {
    /// Redraw the view, then go back to the action before.
    Update,
    /// The simulation stands still until a key resumes it.
    Pause,
    /// Leave the main loop.
    Quit,
    /// Nothing pending: the simulation runs.
    Nothing,
}

/// What the main loop does in one turn, once a batch of input is reduced.
#[derive(Clone, Copy, Debug, PartialEq, Eq, Structural)]
pub enum LoopStep {
    /// Redraw the view without advancing.
    Redraw,
    /// Do nothing this turn.
    Idle,
    /// Leave the loop.
    Stop,
    /// Advance one generation and redraw.
    Advance,
}

/// The main loop's turn for the action that a batch left, and the action
/// that the next batch starts from. A redraw returns to the action `last`
/// that stood before the batch; a running simulation advances only when a
/// tick is due.
pub fn loop_step(action: Action, last: Action, tick_due: bool) -> (r: (LoopStep, Action))
    ensures
        r == match action {
            Action::Update => (LoopStep::Redraw, last),
            Action::Pause => (LoopStep::Idle, Action::Pause),
            Action::Quit => (LoopStep::Stop, Action::Quit),
            Action::Nothing => (
                if tick_due {
                    LoopStep::Advance
                } else {
                    LoopStep::Idle
                },
                Action::Nothing,
            ),
        },
{
    match action {
        Action::Update => (LoopStep::Redraw, last),
        Action::Pause => (LoopStep::Idle, Action::Pause),
        Action::Quit => (LoopStep::Stop, Action::Quit),
        Action::Nothing => {
            if tick_due {
                (LoopStep::Advance, Action::Nothing)
            } else {
                (LoopStep::Idle, Action::Nothing)
            }
        },
    }
}

/// A decoded input occurrence.
#[derive(Clone, Copy, Debug, PartialEq, Eq, Structural)]
pub enum InputAction {
    /// A left mouse press at a 1-based screen column and row.
    MouseClick(u16, u16),
    /// A character key.
    KeyDown(char),
    KeyDownLeft,
    KeyDownRight,
    KeyDownUp,
    KeyDownDown,
    /// Any other input, which changes nothing.
    Unrecognized,
}

/// The world point under a 1-based screen position when the view's top-left
/// cell shows `off`.
pub open spec fn screen_to_world(sx: int, sy: int, off: (int, int)) -> (int, int) {
    (sx - 1 + off.0, sy - 1 + off.1)
}

/// `s` with the membership of `p` flipped.
pub open spec fn toggled(s: Set<(int, int)>, p: (int, int)) -> Set<(int, int)> {
    if s.contains(p) {
        s.remove(p)
    } else {
        s.insert(p)
    }
}

/// The live cells, the running action and the view offset after one event.
pub open spec fn reduce_event(
    e: InputAction,
    st: (Set<(int, int)>, Action, (int, int)),
) -> (Set<(int, int)>, Action, (int, int)) {
    let (s, a, off) = st;
    match e {
        InputAction::KeyDownLeft => (s, Action::Update, (off.0 - 1, off.1)),
        InputAction::KeyDownRight => (s, Action::Update, (off.0 + 1, off.1)),
        InputAction::KeyDownUp => (s, Action::Update, (off.0, off.1 - 1)),
        InputAction::KeyDownDown => (s, Action::Update, (off.0, off.1 + 1)),
        InputAction::KeyDown(c) => if c == ' ' {
            (s, if a == Action::Nothing { Action::Pause } else { Action::Nothing }, off)
        } else if c == 'q' {
            (s, Action::Quit, off)
        } else {
            st
        },
        InputAction::MouseClick(sx, sy) => (
            toggled(s, screen_to_world(sx as int, sy as int, off)),
            Action::Update,
            off,
        ),
        InputAction::Unrecognized => st,
    }
}

/// The state after the events of `es`, oldest first.
pub open spec fn reduce_all(
    es: Seq<InputAction>,
    st: (Set<(int, int)>, Action, (int, int)),
) -> (Set<(int, int)>, Action, (int, int))
    decreases es.len(),
{
    if es.len() == 0 {
        st
    } else {
        reduce_event(es.last(), reduce_all(es.drop_last(), st))
    }
}

/// The offset can move by one per event, and a click lands at most a screen's
/// width away from it, without leaving `i64`.
pub open spec fn offset_room(off: (i64, i64), n: int) -> bool {
    i64::MIN + n + 1 <= off.0 && off.0 + n + 65535 <= i64::MAX && i64::MIN + n + 1 <= off.1
        && off.1 + n + 65535 <= i64::MAX
}

/// Whether `process_input` can take a batch of `n` events with the view at
/// `off`.
pub fn has_offset_room(off: (i64, i64), n: usize) -> (r: bool)
    ensures
        r == offset_room(off, n as int),
{
    let k = n as i128;
    i64::MIN as i128 + k + 1 <= off.0 as i128 && off.0 as i128 + k + 65535 <= i64::MAX as i128
        && i64::MIN as i128 + k + 1 <= off.1 as i128 && off.1 as i128 + k + 65535 <= i64::MAX as i128
}

/// Applies a batch of events in order to the live cells and the view offset,
/// and returns the action that the batch leaves. Arrows move the offset and
/// ask for a redraw; a space toggles between paused and running; `q` quits;
/// a click flips the cell under it and asks for a redraw; anything else
/// changes nothing.
pub fn process_input(
    events: &Vec<InputAction>,
    cells: &mut CellSet,
    action: Action,
    offset: &mut (i64, i64),
) -> (r: Action)
    requires
        old(cells).wf(),
        offset_room(*old(offset), events@.len() as int),
    ensures
        final(cells).wf(),
        (final(cells)@, r, as_point(*final(offset))) == reduce_all(
            events@,
            (old(cells)@, action, as_point(*old(offset))),
        ),
{
    let ghost st0 = (cells@, action, as_point(*offset));
    let ghost off0 = *offset;
    let mut retval = action;
    let mut i: usize = 0;
    while i < events.len()
        invariant
            cells.wf(),
            i <= events@.len(),
            off0 == *old(offset),
            st0 == (old(cells)@, action, as_point(*old(offset))),
            offset_room(off0, events@.len() as int),
            off0.0 - i <= offset.0 <= off0.0 + i,
            off0.1 - i <= offset.1 <= off0.1 + i,
            (cells@, retval, as_point(*offset)) == reduce_all(events@.take(i as int), st0),
        decreases events@.len() - i,
    {
        let e = events[i];
        retval = match e {
            InputAction::KeyDownLeft => {
                offset.0 = offset.0 - 1;
                Action::Update
            },
            InputAction::KeyDownRight => {
                offset.0 = offset.0 + 1;
                Action::Update
            },
            InputAction::KeyDownUp => {
                offset.1 = offset.1 - 1;
                Action::Update
            },
            InputAction::KeyDownDown => {
                offset.1 = offset.1 + 1;
                Action::Update
            },
            InputAction::KeyDown(' ') => {
                if retval == Action::Nothing {
                    Action::Pause
                } else {
                    Action::Nothing
                }
            },
            InputAction::KeyDown('q') => Action::Quit,
            InputAction::MouseClick(sx, sy) => {
                let x = sx as i64 - 1 + offset.0;
                let y = sy as i64 - 1 + offset.1;
                if !cells.remove(x, y) {
                    cells.insert(x, y);
                }
                Action::Update
            },
            _ => retval,
        };
        proof {
            assert(events@.take(i + 1).drop_last() =~= events@.take(i as int));
            assert(events@.take(i + 1).last() == e);
        }
        i = i + 1;
    }
    proof {
        assert(events@.take(events@.len() as int) =~= events@);
    }
    retval
}

/// An empty batch leaves the cells, the action and the offset as they were.
pub proof fn lemma_empty_batch_changes_nothing(s: Set<(int, int)>, a: Action, off: (int, int))
    ensures
        reduce_all(Seq::empty(), (s, a, off)) == (s, a, off),
{
}

/// Two clicks at the same screen position, with nothing between them, leave
/// the live cells as they were.
pub proof fn lemma_double_click_restores(
    s: Set<(int, int)>,
    a: Action,
    off: (int, int),
    sx: u16,
    sy: u16,
)
    ensures
        reduce_all(
            seq![InputAction::MouseClick(sx, sy), InputAction::MouseClick(sx, sy)],
            (s, a, off),
        ).0 == s,
{
    let es = seq![InputAction::MouseClick(sx, sy), InputAction::MouseClick(sx, sy)];
    let p = screen_to_world(sx as int, sy as int, off);
    assert(es.drop_last().drop_last() =~= Seq::<InputAction>::empty());
    assert(es.drop_last().last() == InputAction::MouseClick(sx, sy));
    assert(es.last() == InputAction::MouseClick(sx, sy));
    let e = InputAction::MouseClick(sx, sy);
    let st = (s, a, off);
    assert(reduce_all(es.drop_last().drop_last(), st) == st);
    assert(reduce_all(es.drop_last(), st) == reduce_event(e, st));
    assert(reduce_all(es, st) == reduce_event(e, reduce_event(e, st)));
    assert(toggled(toggled(s, p), p) =~= s);
}

/// The events that the input source has produced and the main loop has not
/// yet taken, oldest first.
pub struct EventQueue {
    events: Vec<InputAction>,
}

impl View for EventQueue {
    type V = Seq<InputAction>;

    closed spec fn view(&self) -> Seq<InputAction> {
        self.events@
    }
}

/// The queue after `es` were pushed onto `q` one by one.
pub open spec fn after_pushes(q: Seq<InputAction>, es: Seq<InputAction>) -> Seq<InputAction>
    decreases es.len(),
{
    if es.len() == 0 {
        q
    } else {
        after_pushes(q, es.drop_last()).push(es.last())
    }
}

/// Pushing events one by one and then draining hands back what was queued
/// before, then the pushed events in the order they were pushed, none lost
/// and none twice.
pub proof fn lemma_drain_keeps_push_order(q: Seq<InputAction>, es: Seq<InputAction>)
    ensures
        after_pushes(q, es) == q + es,
    decreases es.len(),
{
    if es.len() > 0 {
        lemma_drain_keeps_push_order(q, es.drop_last());
        assert(q + es =~= (q + es.drop_last()).push(es.last()));
    } else {
        assert(q + es =~= q);
    }
}

impl EventQueue {
    pub fn new() -> (r: EventQueue)
        ensures
            r@ == Seq::<InputAction>::empty(),
    {
        EventQueue { events: Vec::new() }
    }

    /// Appends `e` at the tail.
    pub fn push(&mut self, e: InputAction)
        ensures
            final(self)@ == old(self)@.push(e),
    {
        self.events.push(e);
    }

    /// Takes the input source's event: an unrecognized one is dropped, any
    /// other queued. True when it is the quit key, after which the source
    /// stops.
    pub fn offer(&mut self, e: InputAction) -> (r: bool)
        ensures
            final(self)@ == if e == InputAction::Unrecognized {
                old(self)@
            } else {
                old(self)@.push(e)
            },
            r == (e == InputAction::KeyDown('q')),
    {
        if e != InputAction::Unrecognized {
            self.push(e);
        }
        e == InputAction::KeyDown('q')
    }

    /// Removes every queued event and returns them, oldest first.
    pub fn drain_all(&mut self) -> (r: Vec<InputAction>)
        ensures
            r@ == old(self)@,
            final(self)@ == Seq::<InputAction>::empty(),
    {
        let mut taken: Vec<InputAction> = Vec::new();
        std::mem::swap(&mut taken, &mut self.events);
        taken
    }

    /// Number of queued events.
    pub fn len(&self) -> (r: usize)
        ensures
            r == self@.len(),
    {
        self.events.len()
    }
}

} // verus!
