use vstd::prelude::*;

use crate::grid_cell::GridCell2048;

verus! {

/// What one push does to the stored snapshots: append at the back, evicting
/// the oldest snapshot when the buffer is already at capacity. A history of
/// capacity 0 stores nothing, so its length stays bounded by the capacity.
pub open spec fn push_snap(h: Seq<GridCell2048>, cap: int, g: GridCell2048) -> Seq<GridCell2048> {
    if h.len() < cap {
        h.push(g)
    } else if h.len() > 0 {
        h.skip(1).push(g)
    } else {
        h
    }
}

/// A bounded stack of board snapshots for undo: the most recent snapshot is
/// popped first, and pushing beyond the capacity drops the oldest.
pub struct TurnsHistory {
    pub deep: u8,
    pub stack: Vec<GridCell2048>,
}

impl TurnsHistory {
    pub fn new(deep: u8) -> (h: TurnsHistory)
        ensures
            h.deep == deep,
            h.stack@.len() == 0,
    {
        TurnsHistory { deep, stack: Vec::new() }
    }

    /// Remove and return the most recent snapshot; an empty history yields
    /// nothing and stays as it is.
    pub fn pop(&mut self) -> (r: Option<GridCell2048>)
        ensures
            final(self).deep == old(self).deep,
            old(self).stack@.len() == 0 ==> r is None && final(self).stack@ == old(self).stack@,
            old(self).stack@.len() > 0 ==> r == Some(old(self).stack@.last())
                && final(self).stack@ == old(self).stack@.drop_last(),
    {
        self.stack.pop()
    }

    /// Push a snapshot, evicting the oldest when already at capacity; the
    /// stored length never exceeds the capacity it started within.
    pub fn add(&mut self, grid_cell2048: GridCell2048)
        ensures
            final(self).deep == old(self).deep,
            final(self).stack@ == push_snap(
                old(self).stack@,
                old(self).deep as int,
                grid_cell2048,
            ),
            old(self).stack@.len() <= old(self).deep ==> final(self).stack@.len() <= old(
                self,
            ).deep,
    {
        if self.stack.len() < self.deep as usize {
            self.stack.push(grid_cell2048);
        } else if self.stack.len() > 0 {
            self.stack.remove(0);
            proof {
                assert(self.stack@ =~= old(self).stack@.skip(1));
            }
            self.stack.push(grid_cell2048);
        }
    }

    /// How many snapshots can still be undone.
    pub fn size(&self) -> (n: usize)
        ensures
            n == self.stack@.len(),
    {
        self.stack.len()
    }
}

/// Pushing a whole sequence of snapshots, oldest first.
pub open spec fn push_all(h: Seq<GridCell2048>, cap: int, items: Seq<GridCell2048>) -> Seq<
    GridCell2048,
>
    decreases items.len(),
{
    if items.len() == 0 {
        h
    } else {
        push_all(push_snap(h, cap, items[0]), cap, items.skip(1))
    }
}

/// The capacity bound is an invariant: after any sequence of pushes onto a
/// history within its capacity, the stored length is still at most the
/// capacity — for every capacity, including 0.
pub proof fn lemma_push_all_bounded(h: Seq<GridCell2048>, cap: int, items: Seq<GridCell2048>)
    requires
        0 <= cap,
        h.len() <= cap,
    ensures
        push_all(h, cap, items).len() <= cap,
    decreases items.len(),
{
    if items.len() > 0 {
        lemma_push_all_bounded(push_snap(h, cap, items[0]), cap, items.skip(1));
    }
}

/// The bounded history keeps exactly the most recent snapshots: after any
/// sequence of pushes onto a history within capacity, what is stored is the
/// last `cap` entries of everything ever pushed, in order.
pub proof fn lemma_push_all_keeps_recent(h: Seq<GridCell2048>, cap: int, items: Seq<GridCell2048>)
    requires
        1 <= cap,
        h.len() <= cap,
    ensures
        push_all(h, cap, items) == (h + items).skip(
            if h.len() + items.len() > cap {
                h.len() + items.len() - cap
            } else {
                0
            },
        ),
        push_all(h, cap, items).len() <= cap,
    decreases items.len(),
{
    if items.len() == 0 {
        assert((h + items).skip(0) =~= h);
    } else {
        let g = items[0];
        let h2 = push_snap(h, cap, g);
        assert(h2.len() <= cap);
        lemma_push_all_keeps_recent(h2, cap, items.skip(1));
        if h.len() < cap {
            assert(h2 + items.skip(1) =~= h + items);
        } else {
            assert(h2 =~= h.skip(1).push(g));
            assert(h2 + items.skip(1) =~= (h + items).skip(1));
            let rest = if h2.len() + items.len() - 1 > cap {
                h2.len() + items.len() - 1 - cap
            } else {
                0
            };
            assert((h2 + items.skip(1)).skip(rest) =~= (h + items).skip(
                h.len() + items.len() - cap,
            ));
        }
    }
}

/// Undo depth is bounded: pushing `cap + 1` snapshots onto an empty history
/// keeps exactly the most recent `cap` of them — the oldest snapshot is
/// silently dropped, so only the last `cap` board states can be restored.
pub proof fn lemma_history_drops_oldest(cap: int, items: Seq<GridCell2048>)
    requires
        1 <= cap,
        items.len() == cap + 1,
    ensures
        push_all(Seq::<GridCell2048>::empty(), cap, items) == items.skip(1),
{
    lemma_push_all_keeps_recent(Seq::<GridCell2048>::empty(), cap, items);
    assert(Seq::<GridCell2048>::empty() + items =~= items);
}

} // verus!
