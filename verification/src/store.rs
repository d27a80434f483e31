//! The store of one process: its cache, and its part in the shared segment.
//!
//! An operation of the store alternates between decisions and work that only
//! the process can do: loading counters, taking locks, reading and writing
//! files. Each operation is a value that says what is to be done next, and is
//! told what came of it. The segment that a step is handed is a copy taken for
//! that step, under the writer lock; only the steps that follow the lock use it.
//! The stores that a step makes into it have to be made into the shared object
//! before the lock is released.

use vstd::prelude::*;

use crate::cache::{cache_keeps, entry_in, Cache, EntryView};
use crate::consts::REATTACH_INTERVAL;
use crate::hash::{fnv, fnv1a};
use crate::image::slot_for;
use crate::shm::{bytes_of, Segment};

verus! {

/// The store of one process.
#[derive(Debug)]
pub struct Store {
    attached: bool,
    cache: Cache,
    detached_ops: u32,
}

/// The state of a process's store.
#[verifier::ext_equal]
pub struct StoreView {
    /// The process uses the shared segment. One that does not reads and writes
    /// the files directly.
    pub attached: bool,
    pub cache: Map<Seq<u8>, EntryView>,
    /// Operations made without a segment, to throttle attempts to attach.
    pub detached_ops: u32,
}

impl View for Store {
    type V = StoreView;

    closed spec fn view(&self) -> StoreView {
        StoreView {
            attached: self.attached,
            cache: self.cache@,
            detached_ops: self.detached_ops,
        }
    }
}

impl StoreView {
    /// The store of a process that has read nothing yet.
    pub open spec fn fresh(attached: bool) -> StoreView {
        StoreView { attached, cache: Map::empty(), detached_ops: 0 }
    }

    /// The operation that starts now is to try and attach first.
    pub open spec fn wants_attach(self) -> bool {
        !self.attached && self.detached_ops % REATTACH_INTERVAL == 0
    }

    /// The store once an operation has started.
    pub open spec fn counted(self) -> StoreView {
        if self.attached {
            self
        } else {
            StoreView { detached_ops: self.detached_ops.wrapping_add(1), ..self }
        }
    }

    /// The store after it was attached. What was cached before did not come
    /// from the segment.
    pub open spec fn adopted(self) -> StoreView {
        StoreView {
            attached: true,
            detached_ops: 0,
            cache: self.cache.map_values(|e: EntryView| e.invalidated()),
        }
    }

    /// The store after an attempt to attach.
    pub open spec fn tried(self, ok: bool) -> StoreView {
        if ok {
            self.adopted()
        } else {
            self
        }
    }

    /// The store with an entry for `key`.
    pub open spec fn with_entry(self, key: Seq<u8>, e: EntryView) -> StoreView {
        StoreView { cache: self.cache.insert(key, e), ..self }
    }

    /// The store after a value was installed for `key`.
    pub open spec fn installed(
        self,
        key: Seq<u8>,
        fresh: Option<Seq<u8>>,
        seen: u64,
    ) -> StoreView {
        self.with_entry(key, entry_in(self.cache, key).installed(fresh, seen))
    }

    /// The store after a value that did not come from the segment was installed
    /// for `key`. The value can be handed out, but never counts as current.
    pub open spec fn installed_uncached(self, key: Seq<u8>, fresh: Option<Seq<u8>>) -> StoreView {
        self.with_entry(
            key,
            EntryView { valid: false, ..entry_in(self.cache, key).installed(fresh, 0) },
        )
    }
}

/// What a step does to the buffers of a key that reads hand out: while the
/// value is the same the buffers are the very same; when another replaces it,
/// the buffer that was handed out last is kept back, as it is.
pub open spec fn keeps_buffer(was: Store, now: Store, key: Seq<u8>) -> bool {
    let a = entry_in(was@.cache, key).value;
    let b = entry_in(now@.cache, key).value;
    if b == a {
        now.buffer(key) == was.buffer(key) && now.retired_buffer(key) == was.retired_buffer(key)
    } else {
        now.retired_buffer(key) == if a is Some {
            was.buffer(key)
        } else {
            was.retired_buffer(key)
        }
    }
}

/// What a step does to all the buffers that reads hand out: see `keeps_buffer`.
pub open spec fn keeps_buffers(was: Store, now: Store) -> bool {
    forall|key: Seq<u8>| #[trigger] keeps_buffer(was, now, key)
}

impl Store {
    /// The buffer whose bytes reads of `key` hand out.
    pub closed spec fn buffer(self, key: Seq<u8>) -> Option<Vec<u8>> {
        self.cache.buffer(key)
    }

    /// The buffer whose bytes reads of `key` handed out before.
    pub closed spec fn retired_buffer(self, key: Seq<u8>) -> Option<Vec<u8>> {
        self.cache.retired_buffer(key)
    }

    /// The cache is in order.
    pub closed spec fn wf(self) -> bool {
        self.cache.wf()
    }

    /// The store of a process that has read nothing yet. It is attached if
    /// there was a segment to attach to; none is made here.
    pub fn new(attached: bool) -> (s: Store)
        ensures
            s.wf(),
            s@ == StoreView::fresh(attached),
    {
        Store { attached, cache: Cache::new(), detached_ops: 0 }
    }

    /// Whether this process has no segment, and reads through to the files.
    pub fn degraded(&self) -> (r: bool)
        ensures
            r == !self@.attached,
    {
        !self.attached
    }

    /// What a read of `key` handed out last: the value, terminated by a zero
    /// byte, or nothing if the key was absent.
    pub fn cached(&self, key: &[u8]) -> (r: Option<&Vec<u8>>)
        requires
            self.wf(),
        ensures
            match r {
                Some(b) => {
                    &&& entry_in(self@.cache, key@).value == Some(b@)
                    &&& self.buffer(key@) == Some(*b)
                },
                None => entry_in(self@.cache, key@).value is None && self.buffer(key@) is None,
            },
    {
        match self.cache.get(key) {
            Some(e) => e.as_ptr(),
            None => None,
        }
    }

    /// What reads of `key` handed out before that: still there for one more
    /// change of the key.
    pub fn retired(&self, key: &[u8]) -> (r: Option<&Vec<u8>>)
        requires
            self.wf(),
        ensures
            match r {
                Some(b) => {
                    &&& entry_in(self@.cache, key@).retired == Some(b@)
                    &&& self.retired_buffer(key@) == Some(*b)
                },
                None => {
                    &&& entry_in(self@.cache, key@).retired is None
                    &&& self.retired_buffer(key@) is None
                },
            },
    {
        match self.cache.get(key) {
            Some(e) => e.retired(),
            None => None,
        }
    }

    /// Switches this process from the files to the segment.
    pub(crate) fn adopt(&mut self)
        requires
            old(self).wf(),
        ensures
            final(self).wf(),
            final(self)@ == old(self)@.adopted(),
            keeps_buffers(*old(self), *final(self)),
    {
        self.attached = true;
        self.detached_ops = 0;
        self.cache.invalidate_all();
        assert forall|key: Seq<u8>| #[trigger] keeps_buffer(*old(self), *self, key) by {
            assert(cache_keeps(old(self).cache, self.cache, key));
        }
    }

    /// Counts an operation of a detached process, and says whether it is to
    /// try and pick up a segment made since the process started. Not every one
    /// does: a system without a segment should not pay for an attempt on every
    /// call.
    pub(crate) fn reattach(&mut self) -> (r: bool)
        requires
            old(self).wf(),
        ensures
            final(self).wf(),
            r == old(self)@.wants_attach(),
            final(self)@ == old(self)@.counted(),
            keeps_buffers(*old(self), *final(self)),
    {
        if self.attached {
            return false;
        }
        let n: u32 = self.detached_ops;
        self.detached_ops = n.wrapping_add(1);
        n % REATTACH_INTERVAL == 0
    }

    /// Whether the cached value of `key` is `val`, and was read when the
    /// counter of the key's slot was `counter`.
    pub(crate) fn value_matches(&mut self, key: &[u8], val: &[u8], counter: u64) -> (r: bool)
        requires
            old(self).wf(),
        ensures
            final(self).wf(),
            final(self)@ == old(self)@.with_entry(key@, entry_in(old(self)@.cache, key@)),
            r == {
                let e = entry_in(old(self)@.cache, key@);
                e.current(counter) && e.value == Some(val@.push(0))
            },
            keeps_buffers(*old(self), *final(self)),
    {
        let e = self.cache.entry(key);
        e.is_current(counter) && e.holds(val)
    }

    pub(crate) fn is_hit(&mut self, key: &[u8], counter: u64) -> (r: bool)
        requires
            old(self).wf(),
        ensures
            final(self).wf(),
            final(self)@ == old(self)@.with_entry(key@, entry_in(old(self)@.cache, key@)),
            r == entry_in(old(self)@.cache, key@).current(counter),
            keeps_buffers(*old(self), *final(self)),
    {
        let e = self.cache.entry(key);
        e.is_current(counter)
    }

    pub(crate) fn install(&mut self, key: &[u8], fresh: Option<Vec<u8>>, seen: u64)
        requires
            old(self).wf(),
        ensures
            final(self).wf(),
            final(self)@ == old(self)@.installed(key@, bytes_of(fresh), seen),
            keeps_buffers(*old(self), *final(self)),
    {
        let e = self.cache.entry(key);
        e.install(fresh, seen);
    }

    pub(crate) fn install_uncached(&mut self, key: &[u8], fresh: Option<Vec<u8>>)
        requires
            old(self).wf(),
        ensures
            final(self).wf(),
            final(self)@ == old(self)@.installed_uncached(key@, bytes_of(fresh)),
            keeps_buffers(*old(self), *final(self)),
    {
        let e = self.cache.entry(key);
        e.install(fresh, 0);
        e.expire();
    }

    /// Drops every cached value.
    pub(crate) fn forget(&mut self)
        requires
            old(self).wf(),
        ensures
            final(self).wf(),
            final(self)@ == (StoreView {
                cache: old(self)@.cache.map_values(|e: EntryView| e.invalidated()),
                ..old(self)@
            }),
            keeps_buffers(*old(self), *final(self)),
    {
        self.cache.invalidate_all();
        assert forall|key: Seq<u8>| #[trigger] keeps_buffer(*old(self), *self, key) by {
            assert(cache_keeps(old(self).cache, self.cache, key));
        }
    }
}

/// Leaves the counter of a key odd, the way a writer killed in mid-update
/// does; nothing for a process without a segment.
pub fn poison_slot(store: &Store, seg: &mut Segment, key: &[u8]) -> (r: bool)
    requires
        old(seg).wf(),
    ensures
        final(seg).wf(),
        r == store@.attached,
        !r ==> *final(seg) == *old(seg),
        r ==> final(seg)@ == old(seg)@.poisoned(slot_for(fnv(key@))),
{
    if store.attached {
        seg.poison_slot(fnv1a(key));
        true
    } else {
        false
    }
}

} // verus!
