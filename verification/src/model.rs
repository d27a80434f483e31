//! What each operation on the segment does to its contents.

use vstd::prelude::*;

use crate::consts::{
    ARENA_SIZE, COMPACT_GARBAGE_DIVISOR, INDEX_SLOTS, SHM_MAGIC, SHM_VERSION, SLOTS,
};
use crate::hash::fnv;
use crate::image::{
    empty_entry, is_clean_tomb, is_dirty, next_even, next_odd, slot_for, Image, IndexEntry,
    WriteView, FL_DIRTY, ST_EMPTY, ST_LIVE, ST_TOMB,
};

verus! {

/// What compaction carries over of one entry.
pub struct KeptView {
    /// The bucket it was in.
    pub at: int,
    pub key: Seq<u8>,
    /// The value, or nothing for a deletion.
    pub val: Option<Seq<u8>>,
    pub flags: u32,
}

/// One thing the disk owes.
pub struct PendingView {
    pub key: Seq<u8>,
    /// The value to write, or nothing if the key's file is to be unlinked.
    pub val: Option<Seq<u8>>,
    pub hash: u64,
    /// The key's seqlock counter when the snapshot was taken.
    pub seen: u64,
}

impl Image {
    // --------------------------------------------------- publication --

    /// A process may use the segment: it is published, has this layout, and
    /// describes the filesystem that the store is on, whose device number is
    /// `dev`.
    pub open spec fn usable(self, dev: Option<u64>) -> bool {
        &&& self.ready != 0
        &&& self.magic == SHM_MAGIC
        &&& self.version == SHM_VERSION
        &&& dev == Some(self.store_dev)
    }

    /// The image with a header for a store on the filesystem `dev`.
    pub open spec fn with_header(self, dev: u64) -> Image {
        Image {
            magic: SHM_MAGIC,
            version: SHM_VERSION,
            store_dev: dev,
            arena_used: 0,
            arena_garbage: 0,
            ..self
        }
    }

    // ------------------------------------------------------ counters --

    /// Opens a write to `slot`: its counter becomes odd.
    pub open spec fn slot_begin(self, slot: int) -> WriteView {
        WriteView::Slot(slot, next_odd(self.slots[slot]))
    }

    /// The arena's counter becomes odd.
    pub open spec fn arena_begun(self) -> Image {
        Image { arena_seq: next_odd(self.arena_seq), ..self }
    }

    /// The arena's counter becomes even.
    pub open spec fn arena_ended(self) -> Image {
        Image { arena_seq: next_even(self.arena_seq), ..self }
    }

    /// The slot's counter and the arena's counter, each made even if it was
    /// odd.
    pub open spec fn repaired(self, slot: int) -> Image {
        Image {
            slots: if self.slots[slot] % 2 == 1 {
                self.slots.update(slot, next_even(self.slots[slot]))
            } else {
                self.slots
            },
            arena_seq: if self.arena_seq % 2 == 1 {
                next_even(self.arena_seq)
            } else {
                self.arena_seq
            },
            ..self
        }
    }

    /// The stores that bring the counter of a slot and that of the arena back
    /// to even.
    pub open spec fn repair_writes(self, slot: int) -> Seq<WriteView> {
        let slots = if self.slots[slot] % 2 == 1 {
            Seq::<WriteView>::empty().push(WriteView::Slot(slot, next_even(self.slots[slot])))
        } else {
            Seq::<WriteView>::empty()
        };
        if self.arena_seq % 2 == 1 {
            slots.push(WriteView::ArenaSeq(next_even(self.arena_seq)))
        } else {
            slots
        }
    }

    /// The image with the counter of a slot left odd.
    pub open spec fn poisoned(self, slot: int) -> Image {
        let v = self.slots[slot];
        Image {
            slots: self.slots.update(
                slot,
                if v % 2 == 1 {
                    v
                } else {
                    (v + 1) as u64
                },
            ),
            ..self
        }
    }

    // --------------------------------------------------------- arena --

    /// `bytes` fit behind what the arena has handed out.
    pub open spec fn has_room(self, need: int) -> bool {
        self.arena_used + need <= ARENA_SIZE
    }

    /// The image after `bytes` were stored behind what the arena has handed
    /// out.
    pub open spec fn allocated(self, bytes: Seq<u8>) -> Image {
        self.apply(WriteView::Arena(self.arena_used as int, bytes)).apply(
            WriteView::ArenaUsed((self.arena_used + bytes.len()) as u64),
        )
    }

    // ----------------------------------------------------------- put --

    /// The index already holds `key` with the value `val`.
    pub open spec fn has_value(self, key: Seq<u8>, val: Seq<u8>) -> bool {
        match self.probe(key, fnv(key)) {
            Some((i, true)) => self.index[i].state == ST_LIVE && self.val_at(i) == Some(val),
            _ => false,
        }
    }

    /// The stores that give `key` the value `val` in bucket `i`, and whether
    /// they went through to the end. `found` says that the bucket holds the
    /// key already.
    pub open spec fn entry_writes(
        self,
        i: int,
        found: bool,
        key: Seq<u8>,
        val: Seq<u8>,
        hash: u64,
        dirty: bool,
    ) -> (Seq<WriteView>, bool) {
        let e = self.index[i];
        let used = self.arena_used;
        let key_off = used + val.len();
        let value_stored = Seq::<WriteView>::empty().push(
            WriteView::Arena(used as int, val),
        ).push(WriteView::ArenaUsed(key_off as u64));
        let key_stored = if found {
            if e.state == ST_LIVE {
                value_stored.push(
                    WriteView::ArenaGarbage(self.arena_garbage.wrapping_add(e.val_len as u64)),
                )
            } else {
                value_stored
            }
        } else {
            value_stored.push(WriteView::Arena(key_off, key)).push(
                WriteView::ArenaUsed((key_off + key.len()) as u64),
            ).push(WriteView::KeyOff(i, key_off as u32)).push(
                WriteView::KeyLen(i, key.len() as u32),
            ).push(WriteView::Hash(i, hash))
        };
        let val_set = key_stored.push(WriteView::ValLen(i, 0)).push(
            WriteView::ValOff(i, used as u32),
        ).push(WriteView::ValLen(i, val.len() as u32));
        let flagged = if dirty {
            val_set.push(WriteView::Flags(i, e.flags | FL_DIRTY))
        } else {
            val_set
        };
        if !self.has_room(val.len() as int) {
            (Seq::empty(), false)
        } else if !found && !self.has_room((val.len() + key.len()) as int) {
            (value_stored, false)
        } else {
            (flagged.push(WriteView::State(i, ST_LIVE)), true)
        }
    }

    /// Stores to a key of `slot`, between the two halves of a seqlock write.
    pub open spec fn bracket(self, slot: int, ws: Seq<WriteView>) -> Seq<WriteView> {
        let odd = next_odd(self.slots[slot]);
        (Seq::<WriteView>::empty().push(WriteView::Slot(slot, odd)) + ws).push(
            WriteView::Slot(slot, next_even(odd)),
        ).push(WriteView::GlobalGen(self.global_gen.wrapping_add(1)))
    }

    /// Making room for `need` bytes takes a compaction.
    pub open spec fn compacts(self, need: int) -> bool {
        !self.has_room(need) || self.arena_garbage > ARENA_SIZE / COMPACT_GARBAGE_DIVISOR
    }

    /// The image and the result of making room for `need` bytes.
    pub open spec fn ensured(self, need: int) -> (Image, bool) {
        if self.has_room(need) {
            (
                if self.arena_garbage > ARENA_SIZE / COMPACT_GARBAGE_DIVISOR {
                    self.compacted()
                } else {
                    self
                },
                true,
            )
        } else {
            (self.compacted(), self.compacted().has_room(need))
        }
    }

    /// All the stores that give `key` the value `val` in bucket `i`, and whether
    /// they went through to the end.
    pub open spec fn update_writes(
        self,
        i: int,
        found: bool,
        key: Seq<u8>,
        val: Seq<u8>,
        hash: u64,
        dirty: bool,
    ) -> (Seq<WriteView>, bool) {
        let (ws, done) = self.entry_writes(i, found, key, val, hash, dirty);
        (self.bracket(slot_for(hash), ws), done)
    }

    /// The image with room for a new value of `key`, the bucket for it, and
    /// whether the bucket holds the key already; nothing if the value is there
    /// already or cannot be stored.
    pub open spec fn put_bucket(self, key: Seq<u8>, val: Seq<u8>) -> Option<(Image, int, bool)> {
        let (roomy, ok) = self.ensured((key.len() + val.len()) as int);
        if self.has_value(key, val) || !ok {
            None
        } else {
            match roomy.probe(key, fnv(key)) {
                Some((i, found)) => Some((roomy, i, found)),
                None => None,
            }
        }
    }

    /// The image and the result of giving `key` the value `val`.
    #[verifier::opaque]
    pub open spec fn put(self, key: Seq<u8>, val: Seq<u8>, dirty: bool) -> (Image, bool) {
        if self.has_value(key, val) {
            (self, true)
        } else {
            match self.put_bucket(key, val) {
                None => (self.ensured((key.len() + val.len()) as int).0, false),
                Some((roomy, i, found)) => {
                    let (ws, done) = roomy.update_writes(i, found, key, val, fnv(key), dirty);
                    (roomy.replay(ws), done)
                },
            }
        }
    }

    // -------------------------------------------------------- remove --

    /// The stores that delete the key in bucket `i`.
    pub open spec fn tomb_writes(self, i: int, dirty: bool) -> Seq<WriteView> {
        let e = self.index[i];
        let counted = Seq::<WriteView>::empty().push(
            WriteView::ArenaGarbage(self.arena_garbage.wrapping_add(e.val_len as u64)),
        ).push(WriteView::ValLen(i, 0));
        let flagged = if dirty {
            counted.push(WriteView::Flags(i, e.flags | FL_DIRTY))
        } else {
            counted
        };
        flagged.push(WriteView::State(i, ST_TOMB))
    }

    /// The image and the result of deleting `key`.
    #[verifier::opaque]
    pub open spec fn removed(self, key: Seq<u8>, dirty: bool) -> (Image, bool) {
        match self.probe(key, fnv(key)) {
            Some((i, true)) if self.index[i].state == ST_LIVE => (
                self.replay(self.bracket(slot_for(fnv(key)), self.tomb_writes(i, dirty))),
                true,
            ),
            _ => (self, false),
        }
    }

    // ---------------------------------------------------- compaction --

    /// What compaction carries over of entry `i`.
    pub open spec fn kept_at(self, i: int) -> Option<KeptView> {
        let e = self.index[i];
        if e.state == ST_EMPTY || is_clean_tomb(e) {
            None
        } else {
            match self.key_at(i) {
                None => None,
                Some(key) => Some(
                    KeptView {
                        at: i,
                        key,
                        val: if e.state == ST_LIVE {
                            self.val_at(i)
                        } else {
                            None
                        },
                        flags: e.flags,
                    },
                ),
            }
        }
    }

    /// What compaction carries over of the first `n` entries, in order.
    pub open spec fn kept_upto(self, n: int) -> Seq<KeptView>
        decreases n,
    {
        if n <= 0 {
            Seq::empty()
        } else {
            match self.kept_at(n - 1) {
                Some(k) => self.kept_upto(n - 1).push(k),
                None => self.kept_upto(n - 1),
            }
        }
    }

    /// What compaction carries over.
    pub open spec fn kept(self) -> Seq<KeptView> {
        self.kept_upto(INDEX_SLOTS as int)
    }

    /// What compaction drops of entry `i`, if it is a deletion that the disk
    /// knows of.
    pub open spec fn gone_at(self, i: int) -> Option<KeptView> {
        let e = self.index[i];
        if is_clean_tomb(e) && self.key_at(i) is Some {
            Some(KeptView { at: i, key: self.key_at(i)->0, val: None, flags: e.flags })
        } else {
            None
        }
    }

    /// The deletions that the disk knows of among the first `n` entries, in
    /// order.
    pub open spec fn gone_upto(self, n: int) -> Seq<KeptView>
        decreases n,
    {
        if n <= 0 {
            Seq::empty()
        } else {
            match self.gone_at(n - 1) {
                Some(k) => self.gone_upto(n - 1).push(k),
                None => self.gone_upto(n - 1),
            }
        }
    }

    /// The deletions that the disk knows of.
    pub open spec fn gone(self) -> Seq<KeptView> {
        self.gone_upto(INDEX_SLOTS as int)
    }

    /// The image with an empty index, and nothing of the arena handed out.
    pub open spec fn wiped(self) -> Image {
        Image {
            index: Seq::new(INDEX_SLOTS as nat, |i: int| empty_entry()),
            arena_used: 0,
            arena_garbage: 0,
            ..self
        }
    }

    /// The image after an entry was carried over into bucket `i` of it.
    pub open spec fn seated(self, i: int, k: KeptView) -> Image {
        if !self.has_room(k.key.len() as int) {
            self
        } else {
            let keyed = self.allocated(k.key).with_entry(
                i,
                IndexEntry {
                    key_off: self.arena_used as u32,
                    key_len: k.key.len() as u32,
                    hash: fnv(k.key),
                    flags: k.flags,
                    ..self.index[i]
                },
            );
            match k.val {
                None => keyed.with_entry(
                    i,
                    IndexEntry { val_off: 0, val_len: 0, state: ST_TOMB, ..keyed.index[i] },
                ),
                Some(val) => if !keyed.has_room(val.len() as int) {
                    keyed
                } else {
                    keyed.allocated(val).with_entry(
                        i,
                        IndexEntry {
                            val_off: keyed.arena_used as u32,
                            val_len: val.len() as u32,
                            state: ST_LIVE,
                            ..keyed.index[i]
                        },
                    )
                },
            }
        }
    }

    /// The image after an entry was carried over into it, to where a search for
    /// its key gets.
    pub open spec fn placed(self, k: KeptView) -> Image {
        match self.probe(k.key, fnv(k.key)) {
            None => self,
            Some((i, _)) => self.seated(i, k),
        }
    }

    /// The image after the first `n` of `ks` were carried over into it.
    pub open spec fn placed_upto(self, ks: Seq<KeptView>, n: int) -> Image
        decreases n,
    {
        if n <= 0 {
            self
        } else {
            self.placed_upto(ks, n - 1).placed(ks[n - 1])
        }
    }

    /// The image after the first `n` of `ks` were carried over into it, each to
    /// the bucket it was in.
    pub open spec fn seated_upto(self, ks: Seq<KeptView>, n: int) -> Image
        decreases n,
    {
        if n <= 0 {
            self
        } else {
            self.seated_upto(ks, n - 1).seated(ks[n - 1].at, ks[n - 1])
        }
    }

    /// The image that a compaction carries entries over into.
    pub open spec fn emptied(self) -> Image {
        self.arena_begun().wiped()
    }

    /// The image after all that is worth it was carried over, as far as there
    /// was a bucket for it.
    pub open spec fn rebuilt(self) -> Image {
        self.emptied().placed_upto(self.kept(), self.kept().len() as int)
    }

    /// The image after everything was carried over, committed deletions too, to
    /// the bucket it was in.
    pub open spec fn reseated(self) -> Image {
        let all = self.kept() + self.gone();
        self.rebuilt().wiped().seated_upto(all, all.len() as int)
    }

    /// The image after a compaction: rebuilt without the committed deletions if
    /// there is a bucket for every entry then, and else with everything where
    /// it was.
    #[verifier::opaque]
    pub open spec fn compacted(self) -> Image {
        (if self.whole() {
            self.rebuilt()
        } else {
            self.reseated()
        }).arena_ended()
    }

    // --------------------------------------------------------- clear --

    /// The image after the store was emptied.
    pub open spec fn cleared(self) -> Image {
        Image {
            slots: Seq::new(SLOTS as nat, |s: int| next_even(self.slots[s])),
            global_gen: self.global_gen.wrapping_add(1),
            ..self.arena_begun().wiped().arena_ended()
        }
    }

    // --------------------------------------------------- enumeration --

    /// The key and the value of entry `i`, if it is live.
    pub open spec fn live_at(self, i: int) -> Option<(Seq<u8>, Seq<u8>)> {
        if self.index[i].state == ST_LIVE && self.key_at(i) is Some && self.val_at(i) is Some {
            Some((self.key_at(i)->0, self.val_at(i)->0))
        } else {
            None
        }
    }

    /// The live keys and values among the first `n` entries, in order.
    pub open spec fn live_upto(self, n: int) -> Seq<(Seq<u8>, Seq<u8>)>
        decreases n,
    {
        if n <= 0 {
            Seq::empty()
        } else {
            match self.live_at(n - 1) {
                Some(kv) => self.live_upto(n - 1).push(kv),
                None => self.live_upto(n - 1),
            }
        }
    }

    /// The live keys and values, in index order.
    pub open spec fn live(self) -> Seq<(Seq<u8>, Seq<u8>)> {
        self.live_upto(INDEX_SLOTS as int)
    }

    // -------------------------------------------------------- commit --

    /// Entry `i` is live and owes the disk nothing, so that its file has to be
    /// looked at: its key, and the length its file should have.
    pub open spec fn query_at(self, i: int) -> Option<(Seq<u8>, u32)> {
        let e = self.index[i];
        if e.state == ST_LIVE && !is_dirty(e) && self.key_at(i) is Some {
            Some((self.key_at(i)->0, e.val_len))
        } else {
            None
        }
    }

    /// The entries among the first `n` whose files have to be looked at.
    pub open spec fn queries_upto(self, n: int) -> Seq<(Seq<u8>, u32)>
        decreases n,
    {
        if n <= 0 {
            Seq::empty()
        } else {
            match self.query_at(n - 1) {
                Some(q) => self.queries_upto(n - 1).push(q),
                None => self.queries_upto(n - 1),
            }
        }
    }

    /// The entries whose files have to be looked at, in index order.
    pub open spec fn queries(self) -> Seq<(Seq<u8>, u32)> {
        self.queries_upto(INDEX_SLOTS as int)
    }

    /// What the disk owes entry `i`. `stale` says of a live entry that owes
    /// nothing whether its file is not what it should be.
    pub open spec fn pending_at(self, i: int, stale: bool) -> Option<PendingView> {
        let e = self.index[i];
        let wanted = if e.state == ST_LIVE {
            (is_dirty(e) || stale) && self.val_at(i) is Some
        } else {
            e.state != ST_EMPTY && !is_clean_tomb(e)
        };
        if wanted && self.key_at(i) is Some {
            let key = self.key_at(i)->0;
            Some(
                PendingView {
                    key,
                    val: if e.state == ST_LIVE {
                        self.val_at(i)
                    } else {
                        None
                    },
                    hash: fnv(key),
                    seen: self.slots[slot_for(fnv(key))],
                },
            )
        } else {
            None
        }
    }

    /// What the disk owes the first `n` entries. `stale` holds an answer for
    /// each of `queries`.
    pub open spec fn pending_upto(self, stale: Seq<bool>, n: int) -> Seq<PendingView>
        decreases n,
    {
        if n <= 0 {
            Seq::empty()
        } else {
            match self.pending_at(n - 1, stale[self.queries_upto(n - 1).len() as int]) {
                Some(p) => self.pending_upto(stale, n - 1).push(p),
                None => self.pending_upto(stale, n - 1),
            }
        }
    }

    /// What the disk owes, in index order.
    pub open spec fn pending(self, stale: Seq<bool>) -> Seq<PendingView> {
        self.pending_upto(stale, INDEX_SLOTS as int)
    }

    /// The image after the debt `p` was paid: its key's flag is cleared if the
    /// key's counter is what it was when the snapshot was taken.
    pub open spec fn retired(self, p: PendingView) -> Image {
        match self.probe(p.key, p.hash) {
            Some((i, true)) if self.slots[slot_for(p.hash)] == p.seen => self.apply(
                WriteView::Flags(i, self.index[i].flags & !FL_DIRTY),
            ),
            _ => self,
        }
    }

    /// The store that pays the debt `p`, if one does.
    pub open spec fn retire_writes(self, p: PendingView) -> Seq<WriteView> {
        match self.probe(p.key, p.hash) {
            Some((i, true)) if self.slots[slot_for(p.hash)] == p.seen => Seq::<
                WriteView,
            >::empty().push(WriteView::Flags(i, self.index[i].flags & !FL_DIRTY)),
            _ => Seq::empty(),
        }
    }

    /// The stores that pay the first `n` of `done`.
    pub open spec fn retire_writes_upto(self, done: Seq<PendingView>, n: int) -> Seq<WriteView>
        decreases n,
    {
        if n <= 0 {
            Seq::empty()
        } else {
            self.retire_writes_upto(done, n - 1) + self.retired_upto(done, n - 1).retire_writes(
                done[n - 1],
            )
        }
    }

    /// The image after the first `n` of `done` were paid.
    pub open spec fn retired_upto(self, done: Seq<PendingView>, n: int) -> Image
        decreases n,
    {
        if n <= 0 {
            self
        } else {
            self.retired_upto(done, n - 1).retired(done[n - 1])
        }
    }
}

} // verus!
