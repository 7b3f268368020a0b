//! The store: the current snapshot of the tree, shared by all readers,
//! and the lock table beside it.
//!
//! A snapshot is never changed once it is published. A rescan or a patch
//! builds a new tree and swaps it in; a reader that still holds the old
//! one keeps a complete tree.

use vstd::prelude::*;
use std::sync::Arc;
use crate::locks::{
    acquire_answer,
    after_acquire,
    after_release,
    holder_of,
    woken_by_release,
    Acquired,
    LockState,
    LockTable,
};
use crate::media::{get_modified_time, modified_text, Timestamp};
use crate::paths::{normalize, normalized};
use crate::tree::{
    entry_view,
    find_entry,
    find_in_tree,
    remove_entry,
    update_metadata,
    with_metadata,
    without_path,
    EntryView,
    FileEntry,
};

verus! {

/// `Arc::clone`: one more handle to the same tree.
#[verifier::external_body]
fn share(tree: &Arc<FileEntry>) -> (r: Arc<FileEntry>)
    ensures
        r == *tree,
{
    Arc::clone(tree)
}

/// The tree snapshot and the per-path locks.
pub struct TreeStore {
    snapshot: Option<Arc<FileEntry>>,
    locks: LockTable,
}

/// The view of a snapshot that may be absent.
pub open spec fn snapshot_view(s: Option<Arc<FileEntry>>) -> Option<EntryView> {
    match s {
        Some(t) => Some((*t)@),
        None => None,
    }
}

impl TreeStore {
    /// The tree as of the last swap.
    pub closed spec fn tree(&self) -> Option<EntryView> {
        snapshot_view(self.snapshot)
    }

    /// The state of the lock table.
    pub closed spec fn lock_state(&self) -> LockState {
        self.locks@
    }

    /// A store that holds the tree of the first scan, and no locks.
    pub fn new(initial: Option<FileEntry>) -> (r: TreeStore)
        ensures
            r.tree() == entry_view(initial),
            r.lock_state().queues == Map::<Seq<char>, Seq<u64>>::empty(),
            r.lock_state().next == 0,
    {
        let snapshot = match initial {
            Some(t) => Some(Arc::new(t)),
            None => None,
        };
        TreeStore { snapshot: snapshot, locks: LockTable::new() }
    }

    /// The current snapshot. Costs one step and touches no disk; the
    /// snapshot handed out stays whole whatever is swapped in later.
    pub fn current_snapshot(&self) -> (r: Option<Arc<FileEntry>>)
        ensures
            snapshot_view(r) == self.tree(),
    {
        match &self.snapshot {
            Some(t) => Some(share(t)),
            None => None,
        }
    }

    /// Puts a new tree in the place of the current one, as after a rescan.
    /// The locks stay as they are.
    pub fn replace_snapshot(&mut self, new_tree: Option<FileEntry>)
        ensures
            final(self).tree() == entry_view(new_tree),
            final(self).lock_state() == old(self).lock_state(),
    {
        self.snapshot = match new_tree {
            Some(t) => Some(Arc::new(t)),
            None => None,
        };
    }

    /// The entry at `path` in the current snapshot.
    pub fn find(&self, path: &str) -> (r: Option<&FileEntry>)
        ensures
            match r {
                Some(e) => find_in_tree(self.tree(), path@) == Some(e@),
                None => find_in_tree(self.tree(), path@) is None,
            },
    {
        match &self.snapshot {
            Some(t) => find_entry(&**t, path),
            None => None,
        }
    }

    /// Asks for the lock of `path`, which is to be held for as long as a
    /// file at that path is read, written or removed. The lock goes by the
    /// normal spelling of the path, so that `a//b` and `a/b` share one.
    pub fn lock_for(&mut self, path: &str) -> (r: Acquired)
        ensures
            final(self).tree() == old(self).tree(),
            final(self).lock_state() == after_acquire(old(self).lock_state(), normalized(path@)),
            r == acquire_answer(old(self).lock_state(), normalized(path@)),
    {
        let key = normalize(path);
        self.locks.acquire(key.as_str())
    }

    /// Gives the lock of `path` up for `ticket` and names the ticket that
    /// holds the path from now on, if one waited.
    pub fn unlock(&mut self, path: &str, ticket: u64) -> (r: Option<u64>)
        ensures
            final(self).tree() == old(self).tree(),
            final(self).lock_state() == after_release(
                old(self).lock_state(),
                normalized(path@),
                ticket,
            ),
            r == woken_by_release(old(self).lock_state(), normalized(path@), ticket),
    {
        let key = normalize(path);
        self.locks.release(key.as_str(), ticket)
    }

    /// The ticket that holds `path`, if any.
    pub fn holder(&self, path: &str) -> (r: Option<u64>)
        ensures
            r == holder_of(self.lock_state(), normalized(path@)),
    {
        let key = normalize(path);
        self.locks.holder(key.as_str())
    }

    /// Publishes a snapshot without the entry at `path`, as after its
    /// file was deleted.
    pub fn patch_removed(&mut self, path: &str)
        ensures
            final(self).tree() == match old(self).tree() {
                Some(t) => Some(without_path(t, path@)),
                None => None,
            },
            final(self).lock_state() == old(self).lock_state(),
    {
        let patched = match &self.snapshot {
            Some(t) => Some(Arc::new(remove_entry((**t).clone(), path))),
            None => None,
        };
        self.snapshot = patched;
    }

    /// Publishes a snapshot in which the file at `path` has the size and
    /// modification time that it has on disk now, as after it was replaced.
    pub fn patch_replaced(&mut self, path: &str, size: Option<u64>, modified: Option<Timestamp>)
        ensures
            final(self).tree() == match old(self).tree() {
                Some(t) => Some(with_metadata(t, path@, size, modified_text(modified))),
                None => None,
            },
            final(self).lock_state() == old(self).lock_state(),
    {
        let text = get_modified_time(modified);
        let patched = match &self.snapshot {
            Some(t) => Some(Arc::new(update_metadata((**t).clone(), path, size, &text))),
            None => None,
        };
        self.snapshot = patched;
    }
}

} // verus!
