//! Handles to engine state that may not exist yet, and what is known of single channels.

use std::marker::PhantomData;
use std::sync::Arc;

use vstd::prelude::*;

verus! {

/// The cells that late handles stand for. A cell is empty until something is published in it.
pub struct LateCells<T> {
    cells: Vec<Option<Arc<T>>>,
}

impl<T> View for LateCells<T> {
    type V = Seq<Option<Arc<T>>>;

    closed spec fn view(&self) -> Seq<Option<Arc<T>>> {
        self.cells@
    }
}

impl<T> LateCells<T> {
    pub fn new() -> (cells: Self)
        ensures
            cells@ == Seq::<Option<Arc<T>>>::empty(),
    {
        LateCells { cells: Vec::new() }
    }
}

/// A handle to engine state that is published once its engine is built. A handle and its
/// clones stand for one cell, so that what is published through any of them is what all of
/// them read next. Its view is the place of that cell. Who shares the cells between threads
/// keeps them behind a lock.
pub struct LateHandle<T> {
    cell: usize,
    of: PhantomData<T>,
}

impl<T> View for LateHandle<T> {
    type V = int;

    closed spec fn view(&self) -> int {
        self.cell as int
    }
}

impl<T> Clone for LateHandle<T> {
    /// Another handle to the same cell; what the cell holds is not copied.
    fn clone(&self) -> (c: Self)
        ensures
            c@ == self@,
    {
        LateHandle { cell: self.cell, of: PhantomData }
    }
}

impl<T> LateHandle<T> {
    /// A handle to a new, empty cell.
    pub fn empty(cells: &mut LateCells<T>) -> (h: Self)
        ensures
            h@ == old(cells)@.len(),
            final(cells)@ == old(cells)@.push(None),
    {
        let cell: usize = cells.cells.len();
        cells.cells.push(None);
        LateHandle { cell, of: PhantomData }
    }

    /// A handle to a new cell that holds `v`.
    pub fn with(cells: &mut LateCells<T>, v: Arc<T>) -> (h: Self)
        ensures
            h@ == old(cells)@.len(),
            final(cells)@ == old(cells)@.push(Some(v)),
    {
        let cell: usize = cells.cells.len();
        cells.cells.push(Some(v));
        LateHandle { cell, of: PhantomData }
    }

    /// Publish the handle, or replace it. Every clone reads it from here on; no other cell
    /// changes.
    pub fn publish(&self, cells: &mut LateCells<T>, v: Arc<T>)
        requires
            self@ < old(cells)@.len(),
        ensures
            final(cells)@ == old(cells)@.update(self@, Some(v)),
    {
        cells.cells.set(self.cell, Some(v));
    }

    /// The present handle, if any.
    pub fn get(&self, cells: &LateCells<T>) -> (v: Option<Arc<T>>)
        requires
            self@ < cells@.len(),
        ensures
            v == cells@[self@],
    {
        match &cells.cells[self.cell] {
            Some(v) => Some(Arc::clone(v)),
            None => None,
        }
    }
}

/// A run of publishes, each by the place of its handle's cell.
pub open spec fn after_publishes<T>(
    cells: Seq<Option<Arc<T>>>,
    log: Seq<(int, Arc<T>)>,
) -> Seq<Option<Arc<T>>>
    decreases log.len(),
{
    if log.len() == 0 {
        cells
    } else {
        after_publishes(cells, log.drop_last()).update(log.last().0, Some(log.last().1))
    }
}

/// Every publish goes through a handle to one of the cells.
pub open spec fn through_these<T>(cells: Seq<Option<Arc<T>>>, log: Seq<(int, Arc<T>)>) -> bool {
    forall|j: int| 0 <= j < log.len() ==> 0 <= (#[trigger] log[j]).0 < cells.len()
}

/// What one handle publishes is what every clone of it reads, until one of them publishes
/// again: whatever is published through other handles in between, the last publish through
/// `h` or a clone is what `c`, a clone of `h`, reads.
pub proof fn law_every_clone_reads_the_last_publish<T>(
    cells: Seq<Option<Arc<T>>>,
    log: Seq<(int, Arc<T>)>,
    h: LateHandle<T>,
    c: LateHandle<T>,
    i: int,
)
    requires
        through_these(cells, log),
        c@ == h@,
        0 <= h@ < cells.len(),
        0 <= i < log.len(),
        log[i].0 == h@,
        forall|j: int| i < j < log.len() ==> (#[trigger] log[j]).0 != h@,
    ensures
        c@ < after_publishes(cells, log).len(),
        after_publishes(cells, log)[c@] == Some(log[i].1),
    decreases log.len(),
{
    lemma_publishes_keep_the_cells(cells, log.drop_last());
    if i < log.len() - 1 {
        assert(log.last().0 != h@);
        law_every_clone_reads_the_last_publish(cells, log.drop_last(), h, c, i);
    }
}

/// A handle through which, and through whose clones, nothing is published reads what it read.
pub proof fn law_other_handles_are_unaffected<T>(
    cells: Seq<Option<Arc<T>>>,
    log: Seq<(int, Arc<T>)>,
    h: LateHandle<T>,
)
    requires
        through_these(cells, log),
        0 <= h@ < cells.len(),
        forall|j: int| 0 <= j < log.len() ==> (#[trigger] log[j]).0 != h@,
    ensures
        h@ < after_publishes(cells, log).len(),
        after_publishes(cells, log)[h@] == cells[h@],
    decreases log.len(),
{
    if log.len() > 0 {
        lemma_publishes_keep_the_cells(cells, log.drop_last());
        assert(log.last().0 != h@);
        law_other_handles_are_unaffected(cells, log.drop_last(), h);
    }
}

proof fn lemma_publishes_keep_the_cells<T>(cells: Seq<Option<Arc<T>>>, log: Seq<(int, Arc<T>)>)
    requires
        through_these(cells, log),
    ensures
        after_publishes(cells, log).len() == cells.len(),
    decreases log.len(),
{
    if log.len() > 0 {
        lemma_publishes_keep_the_cells(cells, log.drop_last());
    }
}

/// An incoming channel. `routed` says whether it has a live decode channel, which is also
/// what selects its meter.
pub struct ChannelInfo {
    pub channel: u8,
    pub label: String,
    pub active: bool,
    pub routed: bool,
}

/// An outgoing channel.
pub struct OutgoingInfo {
    pub channel: u8,
    pub label: String,
    pub active: bool,
}

/// What a handle publishes is what it and every clone of it read next, and no other handle
/// reads anything new.
pub proof fn law_a_publish_is_read_by_the_clones<T>(
    h: LateHandle<T>,
    clone: LateHandle<T>,
    other: LateHandle<T>,
    cells: &mut LateCells<T>,
    v: Arc<T>,
    done: (),
    read: Option<Arc<T>>,
    before: Option<Arc<T>>,
    after: Option<Arc<T>>,
)
    requires
        0 <= h@ < old(cells)@.len(),
        0 <= other@ < old(cells)@.len(),
        other@ != h@,
        call_ensures(<LateHandle<T> as Clone>::clone, (&h,), clone),
        call_ensures(LateHandle::<T>::publish, (&h, cells, v), done),
        call_ensures(LateHandle::<T>::get, (&clone, final(cells)), read),
        call_ensures(LateHandle::<T>::get, (&other, old(cells)), before),
        call_ensures(LateHandle::<T>::get, (&other, final(cells)), after),
    ensures
        read == Some(v),
        after == before,
{
}

/// A new handle stands for a cell that no other handle has, empty or with what it was given.
pub proof fn law_a_new_handle_has_its_own_cell<T>(
    cells: &mut LateCells<T>,
    h: LateHandle<T>,
    given: &mut LateCells<T>,
    v: Arc<T>,
    g: LateHandle<T>,
    other: LateHandle<T>,
)
    requires
        call_ensures(LateHandle::<T>::empty, (cells,), h),
        call_ensures(LateHandle::<T>::with, (given, v), g),
        0 <= other@ < old(cells)@.len(),
    ensures
        h@ != other@,
        final(cells)@[h@] is None,
        final(cells)@[other@] == old(cells)@[other@],
        final(given)@[g@] == Some(v),
        final(given)@.len() == old(given)@.len() + 1,
{
}

} // verus!
