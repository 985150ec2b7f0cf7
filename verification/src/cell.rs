//! Double-buffered component cells.

use vstd::prelude::*;

verus! {

/// Wraps one stored component value so readers observe the current value
/// while a writer builds a replacement. The cell holds the logically-current
/// value plus, optionally, a pending one. `write`/`get_mut` mutate the
/// current value in place (visible immediately); `stage` records a pending
/// replacement that becomes current only at `commit`, the tick-boundary
/// hook. For purely in-place components `commit` is a no-op.
pub struct DoubleBufferedCell<T> {
    /// The logically-current value, the one readers observe.
    pub current: T,
    /// The staged replacement, if one has been written for the next tick.
    pub pending: Option<T>,
}

/// The value `read` returns after a commit: the pending value if one was
/// staged, else the current one.
pub open spec fn commit_read<T>(cell: DoubleBufferedCell<T>) -> T {
    match cell.pending {
        Option::Some(p) => p,
        Option::None => cell.current,
    }
}

impl<T> DoubleBufferedCell<T> {
    /// A fresh cell holding `value`, with nothing staged.
    pub fn new(value: T) -> (cell: DoubleBufferedCell<T>)
        ensures
            cell == (DoubleBufferedCell { current: value, pending: None::<T> }),
    {
        DoubleBufferedCell { current: value, pending: None }
    }

    /// The current value.
    pub fn read(&self) -> (value: &T)
        ensures
            *value == self.current,
    {
        &self.current
    }

    /// Replaces the current value in place; the change is visible to readers
    /// immediately. Anything staged stays staged.
    pub fn write(&mut self, value: T)
        ensures
            final(self).current == value,
            final(self).pending == old(self).pending,
    {
        self.current = value;
    }

    /// Mutable access to the current value, for in-place algorithms; writes
    /// through it are visible to readers immediately.
    pub fn get_mut(&mut self) -> (value: &mut T)
        ensures
            *value == old(self).current,
            final(self).current == *final(value),
            final(self).pending == old(self).pending,
    {
        &mut self.current
    }

    /// Stages a replacement without touching the current value: readers keep
    /// observing the old value until `commit` runs.
    pub fn stage(&mut self, value: T)
        ensures
            final(self).current == old(self).current,
            final(self).pending == Some(value),
    {
        self.pending = Some(value);
    }

    /// The tick-boundary swap: a staged value, if any, becomes current and
    /// nothing is left staged. With nothing staged this is a no-op.
    pub fn commit(&mut self)
        ensures
            final(self).current == commit_read(*old(self)),
            final(self).pending is None,
    {
        match self.pending.take() {
            Some(p) => {
                self.current = p;
            },
            None => {},
        }
    }

    /// Consumes the cell, yielding the current value; a staged value is
    /// discarded.
    pub fn take(self) -> (value: T)
        ensures
            value == self.current,
    {
        self.current
    }
}

/// A staged write is invisible before the commit and is exactly what is read
/// after it: for any cell with `value` staged, the committed read is `value`.
pub proof fn lemma_commit_makes_staged_visible<T>(cell: DoubleBufferedCell<T>, value: T)
    requires
        cell.pending == Some(value),
    ensures
        commit_read(cell) == value,
{
}

/// With nothing staged, a commit changes nothing: the current value survives
/// the tick boundary.
pub proof fn lemma_commit_keeps_unstaged_value<T>(cell: DoubleBufferedCell<T>)
    requires
        cell.pending is None,
    ensures
        commit_read(cell) == cell.current,
{
}

} // verus!
