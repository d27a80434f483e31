//! Emptying the store, in memory and on disk.

use vstd::prelude::*;

use crate::cache::EntryView;
use crate::disk::{all_removed, remove_all, Removal};
use crate::image::Image;
use crate::shm::{adds_clearing, Segment};
use crate::store::{keeps_buffers, Store, StoreView};
use crate::window::{by_deeds, lemma_no_deed};

verus! {

/// What a clear is to do next.
#[derive(Clone, Copy, Debug, PartialEq, Eq, Structural)]
pub enum ClearStep {
    /// Try to attach to the segment.
    Attach,
    /// Take the commit lock: a commit past its snapshot would write its files
    /// again after they were removed.
    LockCommit,
    /// Take the writer lock, and copy the segment.
    LockWriter,
    /// Make the stores, and remove every file.
    RemoveAll,
    /// Release the writer lock.
    UnlockWriter,
    /// Flush the filesystem.
    Flush,
    /// Release the commit lock.
    UnlockCommit,
    /// Nothing: the clear is over, and this is how it went.
    Finish(bool),
}

/// What came of a step of a clear.
#[derive(Debug)]
pub enum ClearEvent {
    /// Whether there is a segment now.
    Attached(bool),
    /// Whether the lock is held.
    Locked(bool),
    /// The lock was released.
    Unlocked,
    /// What came of removing each of the files, if the directory could be
    /// read.
    Removed(Option<Vec<Removal>>),
    /// Whether the step succeeded.
    Did(bool),
}

/// What came of a step of a clear.
pub enum ClearEventView {
    Attached(bool),
    Locked(bool),
    Unlocked,
    Removed(Option<Seq<Removal>>),
    Did(bool),
}

impl View for ClearEvent {
    type V = ClearEventView;

    open spec fn view(&self) -> ClearEventView {
        match self {
            ClearEvent::Attached(b) => ClearEventView::Attached(*b),
            ClearEvent::Locked(b) => ClearEventView::Locked(*b),
            ClearEvent::Unlocked => ClearEventView::Unlocked,
            ClearEvent::Removed(rs) => ClearEventView::Removed(
                match rs {
                    Some(rs) => Some(rs@),
                    None => None,
                },
            ),
            ClearEvent::Did(b) => ClearEventView::Did(*b),
        }
    }
}

/// A clear in progress.
#[derive(Debug)]
pub struct ClearOp {
    at: ClearStep,
    ok: bool,
}

/// The state of a clear.
#[verifier::ext_equal]
pub struct ClearView {
    pub at: ClearStep,
    /// Nothing failed so far.
    pub ok: bool,
}

impl View for ClearOp {
    type V = ClearView;

    closed spec fn view(&self) -> ClearView {
        ClearView { at: self.at, ok: self.ok }
    }
}

/// A clear that starts.
pub open spec fn clear_start(st: StoreView) -> ClearView {
    ClearView {
        at: if st.wants_attach() {
            ClearStep::Attach
        } else {
            ClearStep::LockCommit
        },
        ok: true,
    }
}

impl ClearView {
    /// The answer fits the step.
    pub open spec fn expects(self, ev: ClearEventView) -> bool {
        match self.at {
            ClearStep::Attach => ev is Attached,
            ClearStep::LockCommit => ev is Locked,
            ClearStep::LockWriter => ev is Locked,
            ClearStep::RemoveAll => ev is Removed,
            ClearStep::UnlockWriter => ev is Unlocked,
            ClearStep::Flush => ev is Did,
            ClearStep::UnlockCommit => ev is Unlocked,
            ClearStep::Finish(_) => false,
        }
    }

    /// The clear, the store and the segment after an answer.
    pub open spec fn next(self, st: StoreView, img: Image, ev: ClearEventView) -> (
        ClearView,
        StoreView,
        Image,
    ) {
        match (self.at, ev) {
            (ClearStep::Attach, ClearEventView::Attached(ok)) => (
                ClearView { at: ClearStep::LockCommit, ..self },
                st.tried(ok),
                img,
            ),
            (ClearStep::LockCommit, ClearEventView::Locked(ok)) => (
                ClearView {
                    at: if ok {
                        ClearStep::LockWriter
                    } else {
                        ClearStep::Finish(false)
                    },
                    ..self
                },
                st,
                img,
            ),
            (ClearStep::LockWriter, ClearEventView::Locked(ok)) => if ok {
                (
                    ClearView { at: ClearStep::RemoveAll, ..self },
                    st,
                    if st.attached {
                        img.cleared()
                    } else {
                        img
                    },
                )
            } else {
                (ClearView { at: ClearStep::UnlockCommit, ok: false }, st, img)
            },
            (ClearStep::RemoveAll, ClearEventView::Removed(rs)) => (
                ClearView { at: ClearStep::UnlockWriter, ok: all_removed(rs) },
                st,
                img,
            ),
            (ClearStep::UnlockWriter, ClearEventView::Unlocked) => (
                ClearView { at: ClearStep::Flush, ..self },
                StoreView {
                    cache: st.cache.map_values(|e: EntryView| e.invalidated()),
                    ..st
                },
                img,
            ),
            (ClearStep::Flush, ClearEventView::Did(ok)) => (
                ClearView { at: ClearStep::UnlockCommit, ok: self.ok && ok },
                st,
                img,
            ),
            (ClearStep::UnlockCommit, ClearEventView::Unlocked) => (
                ClearView { at: ClearStep::Finish(self.ok), ..self },
                st,
                img,
            ),
            _ => (self, st, img),
        }
    }
}

impl Store {
    /// Starts to empty the store, the segment as well as the files.
    pub fn clear(&mut self) -> (op: ClearOp)
        requires
            old(self).wf(),
        ensures
            final(self).wf(),
            final(self)@ == old(self)@.counted(),
            op@ == clear_start(old(self)@),
            keeps_buffers(*old(self), *final(self)),
    {
        let at = if self.reattach() {
            ClearStep::Attach
        } else {
            ClearStep::LockCommit
        };
        ClearOp { at, ok: true }
    }
}

impl ClearOp {
    /// What to do now.
    pub fn now(&self) -> (r: ClearStep)
        ensures
            r == self@.at,
    {
        self.at
    }

    /// Takes the answer to the current step, and says what to do next.
    pub fn step(&mut self, store: &mut Store, seg: &mut Segment, ev: ClearEvent) -> (r: ClearStep)
        requires
            old(self)@.expects(ev@),
            old(store).wf(),
            old(seg).wf(),
        ensures
            (final(self)@, final(store)@, final(seg)@) == old(self)@.next(
                old(store)@,
                old(seg)@,
                ev@,
            ),
            r == final(self)@.at,
            final(store).wf(),
            keeps_buffers(*old(store), *final(store)),
            final(seg).wf(),
            final(seg).base() == old(seg).base(),
            if old(self)@.at == ClearStep::LockWriter && ev@ == ClearEventView::Locked(true)
                && old(store)@.attached {
                adds_clearing(old(seg).log(), final(seg).log(), old(seg)@)
            } else {
                *final(seg) == *old(seg)
            },
            by_deeds(old(seg)@, old(seg).log(), final(seg).log()),
    {
        proof {
            lemma_no_deed(seg@, seg.log());
        }
        match (self.at, ev) {
            (ClearStep::Attach, ClearEvent::Attached(ok)) => {
                if ok {
                    store.adopt();
                }
                self.at = ClearStep::LockCommit;
            },
            (ClearStep::LockCommit, ClearEvent::Locked(ok)) => {
                self.at = if ok {
                    ClearStep::LockWriter
                } else {
                    ClearStep::Finish(false)
                };
            },
            (ClearStep::LockWriter, ClearEvent::Locked(ok)) => {
                if ok {
                    if !store.degraded() {
                        seg.clear();
                    }
                    self.at = ClearStep::RemoveAll;
                } else {
                    self.ok = false;
                    self.at = ClearStep::UnlockCommit;
                }
            },
            (ClearStep::RemoveAll, ClearEvent::Removed(rs)) => {
                self.ok = remove_all(&rs).is_ok();
                self.at = ClearStep::UnlockWriter;
            },
            (ClearStep::UnlockWriter, ClearEvent::Unlocked) => {
                store.forget();
                self.at = ClearStep::Flush;
            },
            (ClearStep::Flush, ClearEvent::Did(ok)) => {
                self.ok = self.ok && ok;
                self.at = ClearStep::UnlockCommit;
            },
            (ClearStep::UnlockCommit, ClearEvent::Unlocked) => {
                self.at = ClearStep::Finish(self.ok);
            },
            _ => {},
        }
        self.at
    }
}

} // verus!
