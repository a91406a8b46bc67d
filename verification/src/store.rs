//! The store of entries: what the index holds at one moment.
//!
//! The store only grows. A crawl appends its batches, each in one step; a
//! query reads the entries as they stand. Nothing is ever changed or removed.

use crate::crawl::{
    delivered, files, fresh, handovers, lemma_crawl_batches, unfinished, EventView, Handover,
};
use crate::entry::{views, EntryView, IndexEntry};
use crate::ranking::{rank, ranked};
use vstd::prelude::*;

verus! {

/// The entries of the index, in the order of their discovery.
pub struct EntryStore {
    entries: Vec<IndexEntry>,
}

impl View for EntryStore {
    type V = Seq<EntryView>;

    closed spec fn view(&self) -> Seq<EntryView> {
        views(self.entries@)
    }
}

impl EntryStore {
    /// A store without entries.
    pub fn new() -> (store: Self)
        ensures
            store@ == Seq::<EntryView>::empty(),
    {
        let store = EntryStore { entries: Vec::new() };
        assert(store@ =~= Seq::<EntryView>::empty());
        store
    }

    /// The number of entries.
    pub fn len(&self) -> (len: usize)
        ensures
            len == self@.len(),
    {
        self.entries.len()
    }

    /// Whether the store holds no entry.
    pub fn is_empty(&self) -> (empty: bool)
        ensures
            empty == (self@.len() == 0),
    {
        self.entries.len() == 0
    }

    /// Appends the whole of `batch`, in its order, behind the entries that the
    /// store holds. These stay as they are.
    pub fn append_batch(&mut self, batch: Vec<IndexEntry>)
        ensures
            final(self)@ == old(self)@ + views(batch@),
    {
        let mut rest = batch;
        self.entries.append(&mut rest);
        assert(views(self.entries@) =~= views(old(self).entries@) + views(batch@));
    }

    /// The entries as they stand.
    pub fn read_snapshot(&self) -> (snapshot: &Vec<IndexEntry>)
        ensures
            views(snapshot@) == self@,
    {
        &self.entries
    }

    /// Copies of the entries as they stand.
    pub fn to_vec(&self) -> (copies: Vec<IndexEntry>)
        ensures
            views(copies@) == self@,
    {
        let mut copies: Vec<IndexEntry> = Vec::with_capacity(self.entries.len());
        let mut i: usize = 0;
        while i < self.entries.len()
            invariant
                i <= self.entries.len(),
                copies.len() == i,
                forall|k: int| 0 <= k < i ==> (#[trigger] copies[k])@ == self.entries[k]@,
            decreases self.entries.len() - i,
        {
            copies.push(self.entries[i].clone());
            i += 1;
        }
        assert(views(copies@) =~= views(self.entries@));
        copies
    }

    /// Searches the store for `query`: copies of the entries whose name
    /// matches, the better match first, and of two equal matches the one that
    /// was found first.
    pub fn search(&self, query: &str) -> (results: Vec<IndexEntry>)
        ensures
            views(results@) == ranked(self@, query@),
    {
        rank(&self.entries, query)
    }
}

/// What a store that holds `store` holds after `batches` have been appended
/// to it, one after the other.
pub open spec fn after_batches(store: Seq<EntryView>, batches: Seq<Seq<EntryView>>) -> Seq<
    EntryView,
>
    decreases batches.len(),
{
    if batches.len() == 0 {
        store
    } else {
        after_batches(store, batches.drop_last()) + batches.last()
    }
}

/// The batches of `handed` alone, in order.
pub open spec fn batches_of(handed: Seq<Handover>) -> Seq<Seq<EntryView>> {
    handed.map_values(|h: Handover| h.batch)
}

/// The store only grows. Whatever batches are appended, and however many:
/// what the store held at an earlier moment it holds at every later moment,
/// in the same places, and so it never holds fewer entries than before.
pub proof fn lemma_store_only_grows(
    store: Seq<EntryView>,
    batches: Seq<Seq<EntryView>>,
    earlier: int,
    later: int,
)
    requires
        0 <= earlier <= later <= batches.len(),
    ensures
        after_batches(store, batches.take(earlier)).is_prefix_of(
            after_batches(store, batches.take(later)),
        ),
        after_batches(store, batches.take(earlier)).len() <= after_batches(
            store,
            batches.take(later),
        ).len(),
    decreases later - earlier,
{
    if earlier < later {
        lemma_store_only_grows(store, batches, earlier, later - 1);
        assert(batches.take(later).drop_last() =~= batches.take(later - 1));
    }
}

/// The store moves from batch to batch: what it holds after one more batch
/// is what it held before, followed by the whole of that batch. Its length
/// never stands between the two.
pub proof fn lemma_store_moves_by_batches(
    store: Seq<EntryView>,
    batches: Seq<Seq<EntryView>>,
    n: int,
)
    requires
        0 <= n < batches.len(),
    ensures
        after_batches(store, batches.take(n + 1)) == after_batches(store, batches.take(n))
            + batches[n],
        after_batches(store, batches.take(n + 1)).len() == after_batches(
            store,
            batches.take(n),
        ).len() + batches[n].len(),
{
    assert(batches.take(n + 1).drop_last() =~= batches.take(n));
}

/// Appending batches one by one appends all that they deliver.
proof fn lemma_after_handovers(store: Seq<EntryView>, handed: Seq<Handover>)
    ensures
        after_batches(store, batches_of(handed)) == store + delivered(handed),
    decreases handed.len(),
{
    if handed.len() == 0 {
        assert(store + delivered(handed) =~= store);
    } else {
        lemma_after_handovers(store, handed.drop_last());
        assert(batches_of(handed).drop_last() =~= batches_of(handed.drop_last()));
        assert(store + delivered(handed) =~= (store + delivered(handed.drop_last()))
            + handed.last().batch);
    }
}

/// A crawl whose batches are all appended adds to the store the files that
/// the traversal found, in the order of their discovery, and nothing else: no
/// directory, nothing unreadable, no file twice.
pub proof fn lemma_crawl_fills_store(
    store: Seq<EntryView>,
    capacity: nat,
    events: Seq<EventView>,
)
    requires
        capacity > 0,
        unfinished(events),
    ensures
        after_batches(
            store,
            batches_of(handovers(fresh(capacity), events.push(EventView::End))),
        ) == store + files(events),
{
    lemma_crawl_batches(capacity, events);
    lemma_after_handovers(store, handovers(fresh(capacity), events.push(EventView::End)));
}

} // verus!
