//! The index as a program shares it between its crawl and its queries.
//!
//! A [`SystemIndex`] keeps an [`EntryStore`] behind a reader-writer lock. Any
//! number of queries read it at once; an append has it alone, for the moment
//! of the append and no longer. No access to the store leaves this module, so
//! none is ever held while the caller sleeps or waits.

use crate::entry::{views, EntryView, IndexEntry};
use crate::ranking::ranked;
use crate::store::EntryStore;
use parking_lot::lock_api::RwLock;
use parking_lot::{RawRwLock, RwLockReadGuard, RwLockWriteGuard};
use vstd::prelude::*;

verus! {

/// The raw reader-writer lock of `parking_lot`, of which nothing is known here.
#[verifier::external_type_specification]
#[verifier::external_body]
pub struct ExRawRwLock(RawRwLock);

/// The reader-writer lock of `lock_api`, as `parking_lot` hands it on. What
/// it guards cannot be seen from outside an access.
#[verifier::external_type_specification]
#[verifier::external_body]
#[verifier::reject_recursive_types(R)]
#[verifier::reject_recursive_types(T)]
pub struct ExRwLock<R, T: ?Sized>(RwLock<R, T>);

/// Shared access to the store, for as long as this value lives. It holds the
/// read guard of `parking_lot`, whose type is bound by a trait of `lock_api`
/// and so cannot be named in verified code.
#[verifier::external_body]
struct ReadAccess<'a> {
    guard: RwLockReadGuard<'a, EntryStore>,
}

/// Sole access to the store, for as long as this value lives. It holds the
/// write guard of `parking_lot`.
#[verifier::external_body]
struct WriteAccess<'a> {
    guard: RwLockWriteGuard<'a, EntryStore>,
}

/// The entries of the store that `lock` was made around, as they stood at
/// that moment. Of what the lock guards at any later moment this says
/// nothing: that is for whoever has access to see.
pub uninterp spec fn guarded_at_first(lock: RwLock<RawRwLock, EntryStore>) -> Seq<EntryView>;

/// Calls `RwLock::new` of `parking_lot`.
///
/// Trusted, not proved: the lock is made around `store`, so the entries of
/// `store` are what it guards at first.
#[verifier::external_body]
fn guard_store(store: EntryStore) -> (lock: RwLock<RawRwLock, EntryStore>)
    ensures
        guarded_at_first(lock) == store@,
{
    RwLock::new(store)
}

/// Calls `RwLock::read` of `parking_lot`, which waits until no writer has
/// the lock. Nothing is claimed of the access.
#[verifier::external_body]
fn acquire_read<'a>(lock: &'a RwLock<RawRwLock, EntryStore>) -> ReadAccess<'a> {
    ReadAccess { guard: lock.read() }
}

/// Calls `RwLock::write` of `parking_lot`, which waits until nobody else has
/// the lock. Nothing is claimed of the access.
#[verifier::external_body]
fn acquire_write<'a>(lock: &'a RwLock<RawRwLock, EntryStore>) -> WriteAccess<'a> {
    WriteAccess { guard: lock.write() }
}

/// Calls `deref` of the read guard. Nothing is claimed of the store that
/// comes back: it is what the last writer left.
#[verifier::external_body]
fn read_target<'a, 'b>(access: &'b ReadAccess<'a>) -> &'b EntryStore {
    &*access.guard
}

/// Calls `deref_mut` of the write guard. Nothing is claimed of the store that
/// comes back, nor of what becomes of it after the access has ended.
#[verifier::external_body]
fn write_target<'a, 'b>(access: &'b mut WriteAccess<'a>) -> &'b mut EntryStore {
    &mut *access.guard
}

/// An index that a crawl fills while queries read it.
pub struct SystemIndex {
    store: RwLock<RawRwLock, EntryStore>,
}

impl SystemIndex {
    /// The entries that the index held when it was made, before any append.
    pub closed spec fn at_first(&self) -> Seq<EntryView> {
        guarded_at_first(self.store)
    }

    /// An index that starts without entries.
    pub fn new() -> (index: Self)
        ensures
            index.at_first() == Seq::<EntryView>::empty(),
    {
        SystemIndex { store: guard_store(EntryStore::new()) }
    }

    /// Appends the whole of `batch` to the index, in one step under sole
    /// access: a query sees all of the batch or none of it.
    pub fn append_batch(&self, batch: Vec<IndexEntry>) {
        let mut access = acquire_write(&self.store);
        let store = write_target(&mut access);
        store.append_batch(batch);
    }

    /// The number of entries at the moment of the call.
    pub fn len(&self) -> usize {
        let access = acquire_read(&self.store);
        read_target(&access).len()
    }

    /// Copies of the entries that the index holds at the moment of the call.
    pub fn read_snapshot(&self) -> Vec<IndexEntry> {
        let access = acquire_read(&self.store);
        read_target(&access).to_vec()
    }

    /// Searches the index for `query`: copies of the entries whose name
    /// matches, the better match first. The results are those of one moment's
    /// entries, whichever they were.
    pub fn search(&self, query: &str) -> (results: Vec<IndexEntry>)
        ensures
            exists|snapshot: Seq<EntryView>| views(results@) == #[trigger] ranked(snapshot, query@),
    {
        let access = acquire_read(&self.store);
        let store = read_target(&access);
        let results = store.search(query);
        assert(views(results@) == ranked(store@, query@));
        results
    }
}

} // verus!
