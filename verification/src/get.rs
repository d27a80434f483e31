//! Reading one variable.

use vstd::prelude::*;
use vstd::slice::slice_to_vec;

use crate::cache::entry_in;
use crate::consts::MAX_SEQ_RETRIES;
use crate::hash::{fnv, fnv1a};
use crate::image::{slot_for, Image, ReadView};
use crate::shm::{bytes_of, Read, Segment};
use crate::store::{keeps_buffers, Store, StoreView};
use crate::window::{by_deeds, lemma_no_deed};

verus! {

/// What a read is to do next.
#[derive(Clone, Copy, Debug, PartialEq, Eq, Structural)]
pub enum GetStep {
    /// Try to attach to the segment.
    Attach,
    /// Load the counter of the key's slot.
    LoadSlot,
    /// Load the counter of the key's slot, and look at the key (see `PeekOp`).
    Sample,
    /// Take the writer lock, and copy the segment.
    LockWriter,
    /// Make the stores, and release the writer lock.
    UnlockWriter,
    /// Read the key's file.
    ReadFile,
    /// Nothing: what was read is in the cache.
    Finish,
}

/// What came of a step of a read.
#[derive(Debug)]
pub enum GetEvent {
    /// Whether there is a segment now.
    Attached(bool),
    /// The counter of the key's slot.
    Slot(u64),
    /// The counter of the key's slot, and what a look at the key that started
    /// after that concluded.
    Sampled { before: u64, read: Read },
    /// Whether the writer lock is held.
    Locked(bool),
    /// The writer lock was released.
    Unlocked,
    /// The contents of the key's file, if it could be read.
    File(Option<Vec<u8>>),
}

/// What came of a step of a read.
pub enum GetEventView {
    Attached(bool),
    Slot(u64),
    Sampled { before: u64, read: ReadView },
    Locked(bool),
    Unlocked,
    File(Option<Seq<u8>>),
}

impl View for GetEvent {
    type V = GetEventView;

    open spec fn view(&self) -> GetEventView {
        match self {
            GetEvent::Attached(b) => GetEventView::Attached(*b),
            GetEvent::Slot(v) => GetEventView::Slot(*v),
            GetEvent::Sampled { before, read } => GetEventView::Sampled {
                before: *before,
                read: read@,
            },
            GetEvent::Locked(b) => GetEventView::Locked(*b),
            GetEvent::Unlocked => GetEventView::Unlocked,
            GetEvent::File(f) => GetEventView::File(bytes_of(*f)),
        }
    }
}

/// A read in progress.
#[derive(Debug)]
pub struct GetOp {
    key: Vec<u8>,
    at: GetStep,
    tries: u32,
    fresh: Option<Option<Vec<u8>>>,
    seen: u64,
}

/// The state of a read.
#[verifier::ext_equal]
pub struct GetView {
    pub key: Seq<u8>,
    pub at: GetStep,
    /// Torn reads so far.
    pub tries: u32,
    /// What was read under the writer lock, if anything settled was.
    pub fresh: Option<Option<Seq<u8>>>,
    /// The counter of the key's slot at that time.
    pub seen: u64,
}

impl View for GetOp {
    type V = GetView;

    closed spec fn view(&self) -> GetView {
        GetView {
            key: self.key@,
            at: self.at,
            tries: self.tries,
            fresh: match self.fresh {
                Some(v) => Some(bytes_of(v)),
                None => None,
            },
            seen: self.seen,
        }
    }
}

/// What a read gives: nothing yet, or the value if there is one.
pub open spec fn settled_read(r: ReadView) -> Option<Option<Seq<u8>>> {
    match r {
        ReadView::Value(v) => Some(Some(v)),
        ReadView::Absent => Some(None),
        ReadView::Torn => None,
    }
}

/// A read that starts.
pub open spec fn get_start(st: StoreView, key: Seq<u8>) -> GetView {
    GetView {
        key,
        at: if st.wants_attach() {
            GetStep::Attach
        } else if st.attached {
            GetStep::LoadSlot
        } else {
            GetStep::ReadFile
        },
        tries: 0,
        fresh: None,
        seen: 0,
    }
}

impl GetView {
    /// The answer fits the step.
    pub open spec fn expects(self, ev: GetEventView) -> bool {
        match self.at {
            GetStep::Attach => ev is Attached,
            GetStep::LoadSlot => ev is Slot,
            GetStep::Sample => ev is Sampled && self.tries < MAX_SEQ_RETRIES,
            GetStep::LockWriter => ev is Locked,
            GetStep::UnlockWriter => ev is Unlocked,
            GetStep::ReadFile => ev is File,
            GetStep::Finish => false,
        }
    }

    /// The read at another step.
    pub open spec fn to(self, at: GetStep) -> GetView {
        GetView { at, ..self }
    }

    /// The read, the store and the segment after an answer.
    ///
    /// A hit needs neither lock nor copy. A miss reads without a lock, and
    /// tries again when the read is torn. After too many of those it takes the
    /// writer lock, under which nothing can be writing, so that an odd counter
    /// is what a dead writer left behind and can be repaired. The files are
    /// read only if there is no segment or no lock: a key that was not
    /// committed has no file.
    pub open spec fn next(self, st: StoreView, img: Image, ev: GetEventView) -> (
        GetView,
        StoreView,
        Image,
    ) {
        let key = self.key;
        let hash = fnv(key);
        let slot = slot_for(hash);
        match (self.at, ev) {
            (GetStep::Attach, GetEventView::Attached(ok)) => (
                self.to(
                    if ok {
                        GetStep::LoadSlot
                    } else {
                        GetStep::ReadFile
                    },
                ),
                st.tried(ok),
                img,
            ),
            (GetStep::LoadSlot, GetEventView::Slot(counter)) => (
                self.to(
                    if entry_in(st.cache, key).current(counter) {
                        GetStep::Finish
                    } else {
                        GetStep::Sample
                    },
                ),
                st.with_entry(key, entry_in(st.cache, key)),
                img,
            ),
            (GetStep::Sample, GetEventView::Sampled { before, read }) => match settled_read(read) {
                Some(fresh) => (
                    self.to(GetStep::Finish),
                    st.installed(key, fresh, before),
                    img,
                ),
                None => (
                    GetView {
                        tries: (self.tries + 1) as u32,
                        at: if self.tries + 1 < MAX_SEQ_RETRIES {
                            GetStep::Sample
                        } else {
                            GetStep::LockWriter
                        },
                        ..self
                    },
                    st,
                    img,
                ),
            },
            (GetStep::LockWriter, GetEventView::Locked(ok)) => if ok {
                let now = img.repaired(slot);
                (
                    GetView {
                        at: GetStep::UnlockWriter,
                        fresh: settled_read(now.read(key, hash, now.slots[slot], now.arena_seq)),
                        seen: now.slots[slot],
                        ..self
                    },
                    st,
                    now,
                )
            } else {
                (self.to(GetStep::ReadFile), st, img)
            },
            (GetStep::UnlockWriter, GetEventView::Unlocked) => match self.fresh {
                Some(fresh) => (
                    GetView { at: GetStep::Finish, fresh: None, ..self },
                    st.installed(key, fresh, self.seen),
                    img,
                ),
                None => (self.to(GetStep::ReadFile), st, img),
            },
            (GetStep::ReadFile, GetEventView::File(contents)) => (
                self.to(GetStep::Finish),
                st.installed_uncached(key, contents),
                img,
            ),
            _ => (self, st, img),
        }
    }
}

impl Store {
    /// Starts to read a variable.
    pub fn get(&mut self, key: &[u8]) -> (op: GetOp)
        requires
            old(self).wf(),
        ensures
            final(self).wf(),
            final(self)@ == old(self)@.counted(),
            op@ == get_start(old(self)@, key@),
            keeps_buffers(*old(self), *final(self)),
    {
        let wants = self.reattach();
        let at = if wants {
            GetStep::Attach
        } else if !self.degraded() {
            GetStep::LoadSlot
        } else {
            GetStep::ReadFile
        };
        GetOp { key: slice_to_vec(key), at, tries: 0, fresh: None, seen: 0 }
    }
}

impl GetOp {
    /// The variable's name.
    pub fn key(&self) -> (r: &[u8])
        ensures
            r@ == self@.key,
    {
        self.key.as_slice()
    }

    /// What to do now.
    pub fn now(&self) -> (r: GetStep)
        ensures
            r == self@.at,
    {
        self.at
    }

    /// Takes the answer to the current step, and says what to do next.
    pub fn step(&mut self, store: &mut Store, seg: &mut Segment, ev: GetEvent) -> (r: GetStep)
        requires
            old(self)@.expects(ev@),
            old(store).wf(),
            old(seg).wf(),
        ensures
            (final(self)@, final(store)@, final(seg)@) == old(self)@.next(
                old(store)@,
                old(seg)@,
                ev@,
            ),
            r == final(self)@.at,
            final(store).wf(),
            keeps_buffers(*old(store), *final(store)),
            final(seg).wf(),
            final(seg).base() == old(seg).base(),
            if old(self)@.at == GetStep::LockWriter && ev@ == GetEventView::Locked(true) {
                final(seg).log() == old(seg).log() + old(seg)@.repair_writes(
                    slot_for(fnv(old(self)@.key)),
                )
            } else {
                *final(seg) == *old(seg)
            },
            by_deeds(old(seg)@, old(seg).log(), final(seg).log()),
    {
        proof {
            lemma_no_deed(seg@, seg.log());
        }
        let key = slice_to_vec(self.key.as_slice());
        let hash: u64 = fnv1a(key.as_slice());
        match ev {
            GetEvent::Attached(ok) => {
                if ok {
                    store.adopt();
                    self.at = GetStep::LoadSlot;
                } else {
                    self.at = GetStep::ReadFile;
                }
            },
            GetEvent::Slot(counter) => {
                if store.is_hit(key.as_slice(), counter) {
                    self.at = GetStep::Finish;
                } else {
                    self.at = GetStep::Sample;
                }
            },
            GetEvent::Sampled { before, read } => {
                match read {
                    Read::Value(v) => {
                        store.install(key.as_slice(), Some(v), before);
                        self.at = GetStep::Finish;
                    },
                    Read::Absent => {
                        store.install(key.as_slice(), None, before);
                        self.at = GetStep::Finish;
                    },
                    Read::Torn => {
                        self.tries = self.tries + 1;
                        self.at = if self.tries < MAX_SEQ_RETRIES {
                            GetStep::Sample
                        } else {
                            GetStep::LockWriter
                        };
                    },
                }
            },
            GetEvent::Locked(ok) => {
                if ok {
                    let slot: usize = seg.slot_of(hash);
                    seg.repair_seq(slot);
                    let seen: u64 = seg.slot_value(slot);
                    let arena: u64 = seg.arena_value();
                    self.fresh = match seg.read_value(key.as_slice(), hash, seen, arena) {
                        Read::Value(v) => Some(Some(v)),
                        Read::Absent => Some(None),
                        Read::Torn => None,
                    };
                    self.seen = seen;
                    self.at = GetStep::UnlockWriter;
                } else {
                    self.at = GetStep::ReadFile;
                }
            },
            GetEvent::Unlocked => {
                let mut fresh: Option<Option<Vec<u8>>> = None;
                std::mem::swap(&mut fresh, &mut self.fresh);
                match fresh {
                    Some(v) => {
                        store.install(key.as_slice(), v, self.seen);
                        self.at = GetStep::Finish;
                    },
                    None => {
                        self.at = GetStep::ReadFile;
                    },
                }
            },
            GetEvent::File(contents) => {
                store.install_uncached(key.as_slice(), contents);
                self.at = GetStep::Finish;
            },
        }
        self.at
    }
}

} // verus!
