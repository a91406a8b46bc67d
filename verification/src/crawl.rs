//! The batching rule of a crawl.
//!
//! A crawl walks the filesystem and reports what it meets, one event at a
//! time. The [`Crawler`] decides what is to be done about each event: most of
//! the time nothing, now and then a batch of entries is to be handed to the
//! index. The caller walks, sleeps and appends; the crawler only decides.

use crate::entry::{bare_entry, views, EntryView, IndexEntry};
use vstd::prelude::*;

verus! {

/// The number of entries that a crawl collects before it hands them over.
pub const BATCH_CAPACITY: usize = 1000;

/// How long a crawl rests after it has handed over a full batch, in milliseconds.
pub const PAUSE_MILLIS: u64 = 100;

/// The time from the start of one crawl to the start of the next, in seconds.
pub const CYCLE_SECONDS: u64 = 3600;

/// The place where a crawl starts: the one root of the host's filesystem.
pub fn crawl_root(windows: bool) -> (root: &'static str)
    ensures
        root@ == (if windows {
            "C:\\"@
        } else {
            "/"@
        }),
{
    if windows {
        "C:\\"
    } else {
        "/"
    }
}

/// What a traversal reports.
pub enum WalkEvent {
    /// A filesystem object that the traversal could read.
    Object { path: String, name: String, is_dir: bool },
    /// Something that the traversal could not read: no permission, a dangling
    /// link, an object that went away.
    Unreadable,
    /// The traversal is over.
    End,
}

/// A [`WalkEvent`] as mathematical values.
pub enum EventView {
    Object { entry: EntryView, is_dir: bool },
    Unreadable,
    End,
}

impl View for WalkEvent {
    type V = EventView;

    open spec fn view(&self) -> EventView {
        match *self {
            WalkEvent::Object { path, name, is_dir } => EventView::Object {
                entry: bare_entry(path@, name@),
                is_dir,
            },
            WalkEvent::Unreadable => EventView::Unreadable,
            WalkEvent::End => EventView::End,
        }
    }
}

/// What the caller is to do after an event.
pub enum CrawlAction {
    /// Nothing: go on with the traversal.
    Proceed,
    /// Append `batch` to the index in one step. If `pause` is set, rest for
    /// [`PAUSE_MILLIS`] afterwards, holding no access to the index.
    Commit { batch: Vec<IndexEntry>, pause: bool },
}

/// A [`CrawlAction`] as mathematical values.
pub enum ActionView {
    Proceed,
    Commit { batch: Seq<EntryView>, pause: bool },
}

impl View for CrawlAction {
    type V = ActionView;

    open spec fn view(&self) -> ActionView {
        match *self {
            CrawlAction::Proceed => ActionView::Proceed,
            CrawlAction::Commit { batch, pause } => ActionView::Commit {
                batch: views(batch@),
                pause,
            },
        }
    }
}

/// The state of a [`Crawler`] as mathematical values.
pub struct CrawlerView {
    /// The number of entries that make a full batch.
    pub capacity: nat,
    /// The entries found since the last batch, in the order of their discovery.
    pub pending: Seq<EntryView>,
}

/// The state of a crawler that has found nothing yet.
pub open spec fn fresh(capacity: nat) -> CrawlerView {
    CrawlerView { capacity, pending: Seq::empty() }
}

/// The state after `event`.
///
/// Directories and unreadable objects leave the state as it is. A file joins
/// the pending entries; if these already make a full batch, they leave first.
/// The end of the traversal leaves nothing pending.
pub open spec fn next_state(state: CrawlerView, event: EventView) -> CrawlerView {
    match event {
        EventView::Object { entry, is_dir } => {
            if is_dir {
                state
            } else if state.pending.len() >= state.capacity {
                CrawlerView { capacity: state.capacity, pending: seq![entry] }
            } else {
                CrawlerView { capacity: state.capacity, pending: state.pending.push(entry) }
            }
        },
        EventView::Unreadable => state,
        EventView::End => CrawlerView { capacity: state.capacity, pending: Seq::empty() },
    }
}

/// What is to be done about `event` in `state`.
///
/// A file that arrives when the pending entries make a full batch sends them
/// off, with a pause. The end of the traversal sends off what is pending, if
/// anything is, without a pause.
pub open spec fn next_action(state: CrawlerView, event: EventView) -> ActionView {
    match event {
        EventView::Object { entry, is_dir } => {
            if !is_dir && state.pending.len() >= state.capacity {
                ActionView::Commit { batch: state.pending, pause: true }
            } else {
                ActionView::Proceed
            }
        },
        EventView::Unreadable => ActionView::Proceed,
        EventView::End => {
            if state.pending.len() > 0 {
                ActionView::Commit { batch: state.pending, pause: false }
            } else {
                ActionView::Proceed
            }
        },
    }
}

/// The batching buffer of one crawl.
pub struct Crawler {
    capacity: usize,
    buffer: Vec<IndexEntry>,
}

impl View for Crawler {
    type V = CrawlerView;

    closed spec fn view(&self) -> CrawlerView {
        CrawlerView { capacity: self.capacity as nat, pending: views(self.buffer@) }
    }
}

impl Crawler {
    /// A crawler never holds more entries than make a batch, and a batch has
    /// room for at least one.
    pub open spec fn wf(&self) -> bool {
        &&& self@.capacity > 0
        &&& self@.capacity <= usize::MAX
        &&& self@.pending.len() <= self@.capacity
    }

    /// A crawler that has found nothing yet and collects `capacity` entries
    /// to a batch.
    pub fn new(capacity: usize) -> (crawler: Self)
        requires
            capacity > 0,
        ensures
            crawler.wf(),
            crawler@ == fresh(capacity as nat),
    {
        let crawler = Crawler { capacity, buffer: Vec::new() };
        assert(crawler@.pending =~= Seq::<EntryView>::empty());
        crawler
    }

    /// The number of entries that make a full batch.
    pub fn capacity(&self) -> (capacity: usize)
        ensures
            capacity == self@.capacity,
    {
        self.capacity
    }

    /// The number of entries found since the last batch.
    pub fn pending(&self) -> (pending: usize)
        ensures
            pending == self@.pending.len(),
    {
        self.buffer.len()
    }

    /// Takes note of `event` and says what the caller is to do about it.
    pub fn step(&mut self, event: WalkEvent) -> (action: CrawlAction)
        requires
            old(self).wf(),
        ensures
            final(self).wf(),
            final(self)@ == next_state(old(self)@, event@),
            action@ == next_action(old(self)@, event@),
    {
        match event {
            WalkEvent::Object { path, name, is_dir } => {
                if is_dir {
                    CrawlAction::Proceed
                } else {
                    let entry = IndexEntry::new(path, name);
                    if self.buffer.len() >= self.capacity {
                        let mut batch: Vec<IndexEntry> = Vec::new();
                        std::mem::swap(&mut self.buffer, &mut batch);
                        self.buffer.push(entry);
                        assert(views(self.buffer@) =~= seq![entry@]);
                        CrawlAction::Commit { batch, pause: true }
                    } else {
                        self.buffer.push(entry);
                        assert(views(self.buffer@) =~= views(old(self).buffer@).push(entry@));
                        CrawlAction::Proceed
                    }
                }
            },
            WalkEvent::Unreadable => CrawlAction::Proceed,
            WalkEvent::End => {
                if self.buffer.len() > 0 {
                    let mut batch: Vec<IndexEntry> = Vec::new();
                    std::mem::swap(&mut self.buffer, &mut batch);
                    assert(views(self.buffer@) =~= Seq::<EntryView>::empty());
                    CrawlAction::Commit { batch, pause: false }
                } else {
                    assert(views(self.buffer@) =~= Seq::<EntryView>::empty());
                    CrawlAction::Proceed
                }
            },
        }
    }
}

/// One batch that a crawl hands over, and whether the crawl rests after it.
pub struct Handover {
    pub batch: Seq<EntryView>,
    pub pause: bool,
}

/// The state that `events`, taken in order, lead to from `state`.
pub open spec fn state_after(state: CrawlerView, events: Seq<EventView>) -> CrawlerView
    decreases events.len(),
{
    if events.len() == 0 {
        state
    } else {
        next_state(state_after(state, events.drop_last()), events.last())
    }
}

/// The batches that `events`, taken in order from `state`, have handed over.
pub open spec fn handovers(state: CrawlerView, events: Seq<EventView>) -> Seq<Handover>
    decreases events.len(),
{
    if events.len() == 0 {
        Seq::empty()
    } else {
        let earlier = handovers(state, events.drop_last());
        match next_action(state_after(state, events.drop_last()), events.last()) {
            ActionView::Proceed => earlier,
            ActionView::Commit { batch, pause } => earlier.push(Handover { batch, pause }),
        }
    }
}

/// The entries of the objects among `events` that are no directories, in order.
pub open spec fn files(events: Seq<EventView>) -> Seq<EntryView>
    decreases events.len(),
{
    if events.len() == 0 {
        Seq::empty()
    } else {
        match events.last() {
            EventView::Object { entry, is_dir } => if is_dir {
                files(events.drop_last())
            } else {
                files(events.drop_last()).push(entry)
            },
            _ => files(events.drop_last()),
        }
    }
}

/// The entries of all of `batches`, in the order in which the index receives them.
pub open spec fn delivered(batches: Seq<Handover>) -> Seq<EntryView>
    decreases batches.len(),
{
    if batches.len() == 0 {
        Seq::empty()
    } else {
        delivered(batches.drop_last()) + batches.last().batch
    }
}

/// The least number of batches of `capacity` entries that hold `n` entries.
pub open spec fn batches_needed(n: nat, capacity: nat) -> nat
    recommends
        capacity > 0,
{
    ((n + capacity - 1) / (capacity as int)) as nat
}

/// The events of a traversal before its end: none of them is the end itself.
pub open spec fn unfinished(events: Seq<EventView>) -> bool {
    forall|i: int| 0 <= i < events.len() ==> !((#[trigger] events[i]) is End)
}

/// While a traversal is under way, every batch handed over so far is full and
/// followed by a pause, between one and `capacity` entries are pending once a
/// file has been found, and the batches and the pending entries together are
/// the files found so far, in order.
pub proof fn lemma_crawl_under_way(capacity: nat, events: Seq<EventView>)
    requires
        capacity > 0,
        unfinished(events),
    ensures
        ({
            let state = state_after(fresh(capacity), events);
            let batches = handovers(fresh(capacity), events);
            &&& state.capacity == capacity
            &&& state.pending.len() <= capacity
            &&& files(events).len() > 0 ==> state.pending.len() > 0
            &&& forall|k: int|
                0 <= k < batches.len() ==> (#[trigger] batches[k]).batch.len() == capacity
                    && batches[k].pause
            &&& delivered(batches) + state.pending == files(events)
            &&& files(events).len() == batches.len() * capacity + state.pending.len()
        }),
    decreases events.len(),
{
    let state = state_after(fresh(capacity), events);
    let batches = handovers(fresh(capacity), events);
    if events.len() == 0 {
        assert(delivered(batches) + state.pending =~= files(events));
        assert(batches.len() * capacity == 0) by (nonlinear_arith)
            requires
                batches.len() == 0,
        ;
    } else {
        let before = events.drop_last();
        assert(unfinished(before)) by {
            assert forall|i: int| 0 <= i < before.len() implies !((#[trigger] before[i]) is End) by {
                assert(before[i] == events[i]);
            }
        }
        lemma_crawl_under_way(capacity, before);
        let state0 = state_after(fresh(capacity), before);
        let batches0 = handovers(fresh(capacity), before);
        assert(!(events.last() is End)) by {
            assert(events.last() == events[events.len() - 1]);
        }
        match events.last() {
            EventView::Object { entry, is_dir } => {
                if is_dir {
                } else if state0.pending.len() >= capacity {
                    let sent = Handover { batch: state0.pending, pause: true };
                    assert(batches == batches0.push(sent));
                    assert(batches.drop_last() =~= batches0);
                    assert(delivered(batches) == delivered(batches0) + state0.pending);
                    assert(state.pending =~= seq![entry]);
                    assert(delivered(batches) + state.pending =~= files(events));
                    assert(batches.len() * capacity == batches0.len() * capacity + capacity)
                        by (nonlinear_arith)
                        requires
                            batches.len() == batches0.len() + 1,
                    ;
                } else {
                    assert(delivered(batches) + state.pending =~= files(events));
                }
            },
            _ => {},
        }
    }
}

/// A crawl that finds `n` files hands over exactly as many batches as `n`
/// entries need, the least number that holds them. Every batch but the last is
/// full and followed by a pause; the last holds what is left, is not empty and
/// is followed by none. Together the batches are the files of the traversal in
/// the order of their discovery: nothing is lost, nothing comes twice, and no
/// directory and no unreadable object is among them. Afterwards the crawler is
/// as it was before the crawl.
pub proof fn lemma_crawl_batches(capacity: nat, events: Seq<EventView>)
    requires
        capacity > 0,
        unfinished(events),
    ensures
        ({
            let whole = events.push(EventView::End);
            let batches = handovers(fresh(capacity), whole);
            let n = files(events).len();
            &&& batches.len() == batches_needed(n, capacity)
            &&& forall|k: int|
                0 <= k < batches.len() - 1 ==> (#[trigger] batches[k]).batch.len() == capacity
                    && batches[k].pause
            &&& batches.len() > 0 ==> {
                &&& !batches.last().pause
                &&& batches.last().batch.len() == n - (batches.len() - 1) * capacity
                &&& batches.last().batch.len() == if n % capacity == 0 {
                    capacity
                } else {
                    n % capacity
                }
            }
            &&& delivered(batches) == files(events)
            &&& state_after(fresh(capacity), whole) == fresh(capacity)
        }),
{
    let whole = events.push(EventView::End);
    let batches = handovers(fresh(capacity), whole);
    let n = files(events).len();
    lemma_crawl_under_way(capacity, events);
    assert(whole.drop_last() =~= events);
    let state0 = state_after(fresh(capacity), events);
    let batches0 = handovers(fresh(capacity), events);
    let k = batches0.len() as int;
    let r = state0.pending.len() as int;
    assert(n == k * capacity + r);
    if r > 0 {
        let sent = Handover { batch: state0.pending, pause: false };
        assert(batches == batches0.push(sent));
        assert(batches.drop_last() =~= batches0);
        assert(delivered(batches) == delivered(batches0) + state0.pending);
        assert(forall|j: int| 0 <= j < batches.len() - 1 ==> batches[j] == batches0[j]);
        assert(n + capacity - 1 == (k + 1) * capacity + (r - 1)) by (nonlinear_arith)
            requires
                n == k * capacity + r,
        ;
        vstd::arithmetic::div_mod::lemma_fundamental_div_mod_converse(
            n + capacity - 1,
            capacity as int,
            k + 1,
            r - 1,
        );
        if r == capacity {
            assert(n == (k + 1) * capacity + 0) by (nonlinear_arith)
                requires
                    n == k * capacity + r,
                    r == capacity,
            ;
            vstd::arithmetic::div_mod::lemma_fundamental_div_mod_converse(
                n as int,
                capacity as int,
                k + 1,
                0,
            );
        } else {
            vstd::arithmetic::div_mod::lemma_fundamental_div_mod_converse(
                n as int,
                capacity as int,
                k,
                r,
            );
        }
    } else {
        assert(n == 0);
        assert(batches == batches0);
        assert(k * capacity == 0);
        assert(k == 0) by (nonlinear_arith)
            requires
                k * capacity == 0,
                capacity > 0,
                k >= 0,
        ;
        assert(delivered(batches) + state0.pending =~= delivered(batches));
        assert((n + capacity - 1) / (capacity as int) == 0) by {
            vstd::arithmetic::div_mod::lemma_fundamental_div_mod_converse(
                n + capacity - 1,
                capacity as int,
                0,
                capacity - 1,
            );
        }
    }
}

/// Every entry that a crawl hands over is the entry of an object that the
/// traversal reported and that is no directory.
pub proof fn lemma_crawl_excludes_directories(
    capacity: nat,
    events: Seq<EventView>,
    k: int,
    j: int,
)
    requires
        capacity > 0,
        unfinished(events),
        0 <= k < handovers(fresh(capacity), events.push(EventView::End)).len(),
        0 <= j < handovers(fresh(capacity), events.push(EventView::End))[k].batch.len(),
    ensures
        exists|i: int|
            0 <= i < events.len() && #[trigger] events[i] == (EventView::Object {
                entry: handovers(fresh(capacity), events.push(EventView::End))[k].batch[j],
                is_dir: false,
            }),
{
    let batches = handovers(fresh(capacity), events.push(EventView::End));
    lemma_crawl_batches(capacity, events);
    lemma_delivered_holds(batches, k, j);
    lemma_files_are_objects(events, batches[k].batch[j]);
}

/// An entry of one batch is among what all the batches deliver.
proof fn lemma_delivered_holds(batches: Seq<Handover>, k: int, j: int)
    requires
        0 <= k < batches.len(),
        0 <= j < batches[k].batch.len(),
    ensures
        delivered(batches).contains(batches[k].batch[j]),
    decreases batches.len(),
{
    let earlier = delivered(batches.drop_last());
    let all = delivered(batches);
    if k == batches.len() - 1 {
        assert(all[earlier.len() + j] == batches[k].batch[j]);
    } else {
        lemma_delivered_holds(batches.drop_last(), k, j);
        let at = choose|at: int| 0 <= at < earlier.len() && earlier[at] == batches[k].batch[j];
        assert(all[at] == batches[k].batch[j]);
    }
}

/// A file of a traversal is the entry of one of its events, and that event is
/// an object that is no directory.
proof fn lemma_files_are_objects(events: Seq<EventView>, entry: EntryView)
    requires
        files(events).contains(entry),
    ensures
        exists|i: int|
            0 <= i < events.len() && #[trigger] events[i] == (EventView::Object {
                entry,
                is_dir: false,
            }),
    decreases events.len(),
{
    if events.len() > 0 {
        let before = events.drop_last();
        let at = choose|at: int| 0 <= at < files(events).len() && files(events)[at] == entry;
        let last_is_it = events.last() == (EventView::Object { entry, is_dir: false });
        if last_is_it {
            assert(events[events.len() - 1] == (EventView::Object { entry, is_dir: false }));
        } else {
            assert(files(before).contains(entry)) by {
                match events.last() {
                    EventView::Object { entry: found, is_dir } => {
                        if !is_dir {
                            assert(at < files(before).len());
                            assert(files(before)[at] == entry);
                        }
                    },
                    _ => {},
                }
            }
            lemma_files_are_objects(before, entry);
            let i = choose|i: int|
                0 <= i < before.len() && #[trigger] before[i] == (EventView::Object {
                    entry,
                    is_dir: false,
                });
            assert(events[i] == (EventView::Object { entry, is_dir: false }));
        }
    }
}

} // verus!
