//! Setting and deleting one variable.

use vstd::prelude::*;
use vstd::slice::slice_to_vec;

use crate::cache::entry_in;
use crate::disk::{key_ok, valid_key};
use crate::hash::{fnv, fnv1a};
use crate::image::{slot_for, Image};
use crate::shm::{adds_put, adds_removal, bytes_of, Segment};
use crate::store::{keeps_buffers, Store, StoreView};
use crate::window::{by_deeds, lemma_no_deed};

verus! {

/// What a change is to do next.
#[derive(Clone, Copy, Debug, PartialEq, Eq, Structural)]
pub enum EditStep {
    /// Try to attach to the segment.
    Attach,
    /// Load the counter of the key's slot.
    LoadSlot,
    /// Take the writer lock, and copy the segment.
    LockWriter,
    /// Make the stores, and release the writer lock.
    UnlockWriter,
    /// Write the key's file through a temporary one.
    WriteFile,
    /// Remove the key's file.
    RemoveFile,
    /// Nothing: the change is over, and this is how it went.
    Finish(bool),
}

/// What came of a step of a change.
#[derive(Clone, Copy, Debug, PartialEq, Eq, Structural)]
pub enum EditEvent {
    /// Whether there is a segment now.
    Attached(bool),
    /// The counter of the key's slot.
    Slot(u64),
    /// Whether the writer lock is held.
    Locked(bool),
    /// The writer lock was released.
    Unlocked,
    /// Whether the file was written, or removed.
    Filed(bool),
}

/// A change in progress.
#[derive(Debug)]
pub struct EditOp {
    key: Vec<u8>,
    val: Option<Vec<u8>>,
    at: EditStep,
    stored: bool,
    seen: u64,
}

/// The state of a change.
#[verifier::ext_equal]
pub struct EditView {
    pub key: Seq<u8>,
    /// The value to set, or nothing if the variable is to be deleted.
    pub val: Option<Seq<u8>>,
    pub at: EditStep,
    /// The segment took the change.
    pub stored: bool,
    /// The counter of the key's slot after that.
    pub seen: u64,
}

impl View for EditOp {
    type V = EditView;

    closed spec fn view(&self) -> EditView {
        EditView {
            key: self.key@,
            val: bytes_of(self.val),
            at: self.at,
            stored: self.stored,
            seen: self.seen,
        }
    }
}

/// What a change does once it is known whether there is a segment.
pub open spec fn edit_route(attached: bool, val: Option<Seq<u8>>) -> EditStep {
    match (attached, val) {
        (true, Some(_)) => EditStep::LoadSlot,
        (true, None) => EditStep::LockWriter,
        (false, Some(_)) => EditStep::WriteFile,
        (false, None) => EditStep::RemoveFile,
    }
}

/// A change that starts. One of a key that the disk could never hold is
/// refused at the door.
pub open spec fn edit_start(st: StoreView, key: Seq<u8>, val: Option<Seq<u8>>) -> EditView {
    EditView {
        key,
        val,
        at: if !key_ok(key) {
            EditStep::Finish(false)
        } else if st.wants_attach() {
            EditStep::Attach
        } else {
            edit_route(st.attached, val)
        },
        stored: false,
        seen: 0,
    }
}

/// The segment after a change was made to it, and whether it took the change.
pub open spec fn edited(img: Image, key: Seq<u8>, val: Option<Seq<u8>>) -> (Image, bool) {
    match val {
        Some(v) => img.put(key, v, true),
        None => (img.removed(key, true).0, true),
    }
}

impl EditView {
    /// The answer fits the step.
    pub open spec fn expects(self, ev: EditEvent) -> bool {
        match self.at {
            EditStep::Attach => ev is Attached,
            EditStep::LoadSlot => ev is Slot && self.val is Some,
            EditStep::LockWriter => ev is Locked,
            EditStep::UnlockWriter => ev is Unlocked,
            EditStep::WriteFile => ev is Filed,
            EditStep::RemoveFile => ev is Filed,
            EditStep::Finish(_) => false,
        }
    }

    /// The change at another step.
    pub open spec fn to(self, at: EditStep) -> EditView {
        EditView { at, ..self }
    }

    /// The change, the store and the segment after an answer.
    ///
    /// Setting a variable to the value that the cache has, and has from the
    /// segment as it is, is over at once. Without a segment the change goes
    /// straight to the file.
    pub open spec fn next(self, st: StoreView, img: Image, ev: EditEvent) -> (
        EditView,
        StoreView,
        Image,
    ) {
        let key = self.key;
        match (self.at, ev) {
            (EditStep::Attach, EditEvent::Attached(ok)) => (
                self.to(edit_route(ok, self.val)),
                st.tried(ok),
                img,
            ),
            (EditStep::LoadSlot, EditEvent::Slot(counter)) => {
                let e = entry_in(st.cache, key);
                (
                    self.to(
                        if e.current(counter) && e.value == Some((self.val->0).push(0)) {
                            EditStep::Finish(true)
                        } else {
                            EditStep::LockWriter
                        },
                    ),
                    st.with_entry(key, e),
                    img,
                )
            },
            (EditStep::LockWriter, EditEvent::Locked(ok)) => if ok {
                let (now, stored) = edited(img, key, self.val);
                (
                    EditView {
                        at: EditStep::UnlockWriter,
                        stored,
                        seen: now.slots[slot_for(fnv(key))],
                        ..self
                    },
                    st,
                    now,
                )
            } else {
                (self.to(EditStep::Finish(false)), st, img)
            },
            (EditStep::UnlockWriter, EditEvent::Unlocked) => if self.stored {
                (
                    self.to(EditStep::Finish(true)),
                    st.installed(key, self.val, self.seen),
                    img,
                )
            } else {
                (self.to(EditStep::Finish(false)), st, img)
            },
            (EditStep::WriteFile, EditEvent::Filed(ok)) | (
                EditStep::RemoveFile,
                EditEvent::Filed(ok),
            ) => (
                self.to(EditStep::Finish(ok)),
                if ok {
                    st.installed(key, self.val, 0)
                } else {
                    st
                },
                img,
            ),
            _ => (self, st, img),
        }
    }
}

/// What a change does once it is known whether there is a segment.
fn route(attached: bool, val: &Option<Vec<u8>>) -> (r: EditStep)
    ensures
        r == edit_route(attached, bytes_of(*val)),
{
    match (attached, val) {
        (true, Some(_)) => EditStep::LoadSlot,
        (true, None) => EditStep::LockWriter,
        (false, Some(_)) => EditStep::WriteFile,
        (false, None) => EditStep::RemoveFile,
    }
}

impl Store {
    /// Starts to set a variable. Nothing of the store changes for a key that
    /// cannot be stored.
    pub fn set(&mut self, key: &[u8], val: &[u8]) -> (op: EditOp)
        requires
            old(self).wf(),
        ensures
            final(self).wf(),
            final(self)@ == if key_ok(key@) {
                old(self)@.counted()
            } else {
                old(self)@
            },
            op@ == edit_start(old(self)@, key@, Some(val@)),
            keeps_buffers(*old(self), *final(self)),
    {
        self.start_edit(key, Some(slice_to_vec(val)))
    }

    /// Starts to delete a variable. Nothing of the store changes for a key that
    /// cannot be stored.
    pub fn unset(&mut self, key: &[u8]) -> (op: EditOp)
        requires
            old(self).wf(),
        ensures
            final(self).wf(),
            final(self)@ == if key_ok(key@) {
                old(self)@.counted()
            } else {
                old(self)@
            },
            op@ == edit_start(old(self)@, key@, None),
            keeps_buffers(*old(self), *final(self)),
    {
        self.start_edit(key, None)
    }

    fn start_edit(&mut self, key: &[u8], val: Option<Vec<u8>>) -> (op: EditOp)
        requires
            old(self).wf(),
        ensures
            final(self).wf(),
            final(self)@ == if key_ok(key@) {
                old(self)@.counted()
            } else {
                old(self)@
            },
            op@ == edit_start(old(self)@, key@, bytes_of(val)),
            keeps_buffers(*old(self), *final(self)),
    {
        let at = if !valid_key(key) {
            EditStep::Finish(false)
        } else if self.reattach() {
            EditStep::Attach
        } else {
            route(!self.degraded(), &val)
        };
        EditOp { key: slice_to_vec(key), val, at, stored: false, seen: 0 }
    }
}

impl EditOp {
    /// The variable's name.
    pub fn key(&self) -> (r: &[u8])
        ensures
            r@ == self@.key,
    {
        self.key.as_slice()
    }

    /// The value to set.
    pub fn val(&self) -> (r: Option<&[u8]>)
        ensures
            match r {
                Some(v) => self@.val == Some(v@),
                None => self@.val is None,
            },
    {
        match &self.val {
            Some(v) => Some(v.as_slice()),
            None => None,
        }
    }

    /// What to do now.
    pub fn now(&self) -> (r: EditStep)
        ensures
            r == self@.at,
    {
        self.at
    }

    /// Takes the answer to the current step, and says what to do next.
    pub fn step(&mut self, store: &mut Store, seg: &mut Segment, ev: EditEvent) -> (r: EditStep)
        requires
            old(self)@.expects(ev),
            old(store).wf(),
            old(seg).wf(),
        ensures
            (final(self)@, final(store)@, final(seg)@) == old(self)@.next(
                old(store)@,
                old(seg)@,
                ev,
            ),
            r == final(self)@.at,
            final(store).wf(),
            keeps_buffers(*old(store), *final(store)),
            final(seg).wf(),
            final(seg).base() == old(seg).base(),
            if old(self)@.at == EditStep::LockWriter && ev == EditEvent::Locked(true) {
                match old(self)@.val {
                    Some(val) => adds_put(
                        old(seg).log(),
                        final(seg).log(),
                        old(seg).base(),
                        old(seg)@,
                        old(self)@.key,
                        val,
                        true,
                    ),
                    None => adds_removal(
                        old(seg).log(),
                        final(seg).log(),
                        old(seg)@,
                        old(self)@.key,
                        true,
                    ),
                }
            } else {
                *final(seg) == *old(seg)
            },
            old(seg)@.sound() ==> by_deeds(old(seg)@, old(seg).log(), final(seg).log()),
    {
        proof {
            lemma_no_deed(seg@, seg.log());
        }
        match ev {
            EditEvent::Attached(ok) => {
                if ok {
                    store.adopt();
                }
                self.at = route(ok, &self.val);
            },
            EditEvent::Slot(counter) => {
                let same = match &self.val {
                    Some(v) => store.value_matches(self.key.as_slice(), v.as_slice(), counter),
                    None => false,
                };
                self.at = if same {
                    EditStep::Finish(true)
                } else {
                    EditStep::LockWriter
                };
            },
            EditEvent::Locked(ok) => {
                if ok {
                    self.stored = match &self.val {
                        Some(v) => seg.put(self.key.as_slice(), v.as_slice(), true).is_ok(),
                        None => {
                            seg.remove(self.key.as_slice(), true);
                            true
                        },
                    };
                    let slot: usize = seg.slot_of(fnv1a(self.key.as_slice()));
                    self.seen = seg.slot_value(slot);
                    self.at = EditStep::UnlockWriter;
                } else {
                    self.at = EditStep::Finish(false);
                }
            },
            EditEvent::Unlocked => {
                if self.stored {
                    let fresh = copy_value(&self.val);
                    store.install(self.key.as_slice(), fresh, self.seen);
                    self.at = EditStep::Finish(true);
                } else {
                    self.at = EditStep::Finish(false);
                }
            },
            EditEvent::Filed(ok) => {
                if ok {
                    let fresh = copy_value(&self.val);
                    store.install(self.key.as_slice(), fresh, 0);
                }
                self.at = EditStep::Finish(ok);
            },
        }
        self.at
    }
}

/// A copy of an optional value.
fn copy_value(v: &Option<Vec<u8>>) -> (r: Option<Vec<u8>>)
    ensures
        bytes_of(r) == bytes_of(*v),
{
    match v {
        Some(b) => Some(slice_to_vec(b.as_slice())),
        None => None,
    }
}

} // verus!
