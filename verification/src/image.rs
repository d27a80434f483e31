//! The contents of the shared segment, and the stores that change them.
//!
//! The segment is one fixed-size object: a header with the seqlock counters,
//! an open-addressed index of keys, and an arena of key and value bytes. Every
//! function of the library that changes the segment does so by single stores,
//! and keeps them in the order in which it made them, so that the process that
//! has the object mapped can make the same stores in the same order.

use vstd::prelude::*;

use crate::consts::{ARENA_SIZE, INDEX_SLOTS, MAX_PROBES, SLOTS};

verus! {

/// State of an index entry that was never used.
pub const ST_EMPTY: u32 = 0;

/// State of an index entry that holds a key and its value.
pub const ST_LIVE: u32 = 1;

/// State of an index entry whose key was deleted.
pub const ST_TOMB: u32 = 2;

/// Flag of an index entry that owes the disk a write or an unlink.
pub const FL_DIRTY: u32 = 1;

/// One entry of the key index.
#[derive(Clone, Copy, Debug, PartialEq, Eq, Structural)]
pub struct IndexEntry {
    /// Hash of the key.
    pub hash: u64,
    /// Where the key starts in the arena.
    pub key_off: u32,
    /// Length of the key.
    pub key_len: u32,
    /// Where the value starts in the arena.
    pub val_off: u32,
    /// Length of the value.
    pub val_len: u32,
    /// `ST_EMPTY`, `ST_LIVE` or `ST_TOMB`.
    pub state: u32,
    /// `FL_DIRTY`, or nothing.
    pub flags: u32,
}

/// The header of the segment.
#[derive(Debug)]
pub struct Header {
    /// `SHM_MAGIC`.
    pub magic: u32,
    /// `SHM_VERSION`.
    pub version: u32,
    /// Zero while a process is still populating the segment from disk.
    pub ready: u32,
    /// Device number of the store root when the segment was populated.
    pub store_dev: u64,
    /// Odd while a compaction is moving the arena's contents.
    pub arena_seq: u64,
    /// Advanced by every mutation.
    pub global_gen: u64,
    /// Bytes of the arena handed out so far.
    pub arena_used: u64,
    /// Bytes of the arena orphaned by overwrites and deletions.
    pub arena_garbage: u64,
    /// The seqlock counters. Each is odd while a key of its slot is being
    /// written.
    pub slots: Vec<u64>,
}

/// One store into the segment.
#[derive(Debug)]
pub enum Write {
    /// `Header::magic`.
    Magic(u32),
    /// `Header::version`.
    Version(u32),
    /// `Header::ready`.
    Ready(u32),
    /// `Header::store_dev`.
    StoreDev(u64),
    /// `Header::arena_seq`.
    ArenaSeq(u64),
    /// `Header::global_gen`.
    GlobalGen(u64),
    /// `Header::arena_used`.
    ArenaUsed(u64),
    /// `Header::arena_garbage`.
    ArenaGarbage(u64),
    /// One of `Header::slots`.
    Slot(usize, u64),
    /// `IndexEntry::hash` of one entry.
    Hash(usize, u64),
    /// `IndexEntry::key_off` of one entry.
    KeyOff(usize, u32),
    /// `IndexEntry::key_len` of one entry.
    KeyLen(usize, u32),
    /// `IndexEntry::val_off` of one entry.
    ValOff(usize, u32),
    /// `IndexEntry::val_len` of one entry.
    ValLen(usize, u32),
    /// `IndexEntry::state` of one entry.
    State(usize, u32),
    /// `IndexEntry::flags` of one entry.
    Flags(usize, u32),
    /// Bytes into the arena, from an offset on.
    Arena(usize, Vec<u8>),
}

/// A store, with the arena bytes as a sequence.
pub enum WriteView {
    Magic(u32),
    Version(u32),
    Ready(u32),
    StoreDev(u64),
    ArenaSeq(u64),
    GlobalGen(u64),
    ArenaUsed(u64),
    ArenaGarbage(u64),
    Slot(int, u64),
    Hash(int, u64),
    KeyOff(int, u32),
    KeyLen(int, u32),
    ValOff(int, u32),
    ValLen(int, u32),
    State(int, u32),
    Flags(int, u32),
    Arena(int, Seq<u8>),
}

impl View for Write {
    type V = WriteView;

    open spec fn view(&self) -> WriteView {
        match self {
            Write::Magic(v) => WriteView::Magic(*v),
            Write::Version(v) => WriteView::Version(*v),
            Write::Ready(v) => WriteView::Ready(*v),
            Write::StoreDev(v) => WriteView::StoreDev(*v),
            Write::ArenaSeq(v) => WriteView::ArenaSeq(*v),
            Write::GlobalGen(v) => WriteView::GlobalGen(*v),
            Write::ArenaUsed(v) => WriteView::ArenaUsed(*v),
            Write::ArenaGarbage(v) => WriteView::ArenaGarbage(*v),
            Write::Slot(i, v) => WriteView::Slot(*i as int, *v),
            Write::Hash(i, v) => WriteView::Hash(*i as int, *v),
            Write::KeyOff(i, v) => WriteView::KeyOff(*i as int, *v),
            Write::KeyLen(i, v) => WriteView::KeyLen(*i as int, *v),
            Write::ValOff(i, v) => WriteView::ValOff(*i as int, *v),
            Write::ValLen(i, v) => WriteView::ValLen(*i as int, *v),
            Write::State(i, v) => WriteView::State(*i as int, *v),
            Write::Flags(i, v) => WriteView::Flags(*i as int, *v),
            Write::Arena(off, bytes) => WriteView::Arena(*off as int, bytes@),
        }
    }
}

impl WriteView {
    /// The store falls inside the segment.
    pub open spec fn fits(self) -> bool {
        match self {
            WriteView::Slot(i, _) => 0 <= i < SLOTS,
            WriteView::Hash(i, _) => 0 <= i < INDEX_SLOTS,
            WriteView::KeyOff(i, _) => 0 <= i < INDEX_SLOTS,
            WriteView::KeyLen(i, _) => 0 <= i < INDEX_SLOTS,
            WriteView::ValOff(i, _) => 0 <= i < INDEX_SLOTS,
            WriteView::ValLen(i, _) => 0 <= i < INDEX_SLOTS,
            WriteView::State(i, _) => 0 <= i < INDEX_SLOTS,
            WriteView::Flags(i, _) => 0 <= i < INDEX_SLOTS,
            WriteView::Arena(off, bytes) => 0 <= off && off + bytes.len() <= ARENA_SIZE,
            _ => true,
        }
    }
}

/// The contents of a segment.
#[verifier::ext_equal]
pub struct Image {
    pub magic: u32,
    pub version: u32,
    pub ready: u32,
    pub store_dev: u64,
    pub arena_seq: u64,
    pub global_gen: u64,
    pub arena_used: u64,
    pub arena_garbage: u64,
    pub slots: Seq<u64>,
    pub index: Seq<IndexEntry>,
    pub arena: Seq<u8>,
}

/// What a lock-free read finds.
pub enum ReadView {
    Value(Seq<u8>),
    Absent,
    Torn,
}

/// A fresh index entry.
pub open spec fn empty_entry() -> IndexEntry {
    IndexEntry {
        hash: 0,
        key_off: 0,
        key_len: 0,
        val_off: 0,
        val_len: 0,
        state: ST_EMPTY,
        flags: 0,
    }
}

/// The entry owes the disk a write or an unlink.
pub open spec fn is_dirty(e: IndexEntry) -> bool {
    e.flags & FL_DIRTY != 0
}

/// The entry is a deletion that the disk already knows of.
pub open spec fn is_clean_tomb(e: IndexEntry) -> bool {
    e.state == ST_TOMB && !is_dirty(e)
}

/// `arena` with `bytes` stored from `off` on.
pub open spec fn splice(arena: Seq<u8>, off: int, bytes: Seq<u8>) -> Seq<u8> {
    Seq::new(
        arena.len(),
        |p: int|
            if off <= p < off + bytes.len() {
                bytes[p - off]
            } else {
                arena[p]
            },
    )
}

/// The seqlock slot of a hash.
pub open spec fn slot_for(hash: u64) -> int {
    hash as int % SLOTS as int
}

/// The index bucket at which the search for a hash starts.
pub open spec fn home(hash: u64) -> int {
    hash as int % INDEX_SLOTS as int
}

/// The bucket that the search for a hash looks at in step `j`.
pub open spec fn bucket(hash: u64, j: int) -> int {
    (home(hash) + j) % INDEX_SLOTS as int
}

/// The least odd number above `v`, wrapping around at the end of the range.
pub open spec fn next_odd(v: u64) -> u64 {
    if v == u64::MAX {
        1
    } else if v % 2 == 0 {
        (v + 1) as u64
    } else {
        (v + 2) as u64
    }
}

/// The least even number above `v`, wrapping around at the end of the range.
pub open spec fn next_even(v: u64) -> u64 {
    if v >= u64::MAX - 1 {
        0
    } else if v % 2 == 0 {
        (v + 2) as u64
    } else {
        (v + 1) as u64
    }
}

impl Image {
    /// The parts have the sizes that the layout gives them.
    pub open spec fn sized(self) -> bool {
        &&& self.slots.len() == SLOTS
        &&& self.index.len() == INDEX_SLOTS
        &&& self.arena.len() == ARENA_SIZE
    }

    /// The image with entry `i` replaced.
    pub open spec fn with_entry(self, i: int, e: IndexEntry) -> Image {
        Image { index: self.index.update(i, e), ..self }
    }

    /// The image after one store.
    pub open spec fn apply(self, w: WriteView) -> Image {
        match w {
            WriteView::Magic(v) => Image { magic: v, ..self },
            WriteView::Version(v) => Image { version: v, ..self },
            WriteView::Ready(v) => Image { ready: v, ..self },
            WriteView::StoreDev(v) => Image { store_dev: v, ..self },
            WriteView::ArenaSeq(v) => Image { arena_seq: v, ..self },
            WriteView::GlobalGen(v) => Image { global_gen: v, ..self },
            WriteView::ArenaUsed(v) => Image { arena_used: v, ..self },
            WriteView::ArenaGarbage(v) => Image { arena_garbage: v, ..self },
            WriteView::Slot(i, v) => Image { slots: self.slots.update(i, v), ..self },
            WriteView::Hash(i, v) => self.with_entry(i, IndexEntry { hash: v, ..self.index[i] }),
            WriteView::KeyOff(i, v) => self.with_entry(
                i,
                IndexEntry { key_off: v, ..self.index[i] },
            ),
            WriteView::KeyLen(i, v) => self.with_entry(
                i,
                IndexEntry { key_len: v, ..self.index[i] },
            ),
            WriteView::ValOff(i, v) => self.with_entry(
                i,
                IndexEntry { val_off: v, ..self.index[i] },
            ),
            WriteView::ValLen(i, v) => self.with_entry(
                i,
                IndexEntry { val_len: v, ..self.index[i] },
            ),
            WriteView::State(i, v) => self.with_entry(i, IndexEntry { state: v, ..self.index[i] }),
            WriteView::Flags(i, v) => self.with_entry(i, IndexEntry { flags: v, ..self.index[i] }),
            WriteView::Arena(off, bytes) => Image { arena: splice(self.arena, off, bytes), ..self },
        }
    }

    /// The image after a series of stores.
    pub open spec fn replay(self, ws: Seq<WriteView>) -> Image
        decreases ws.len(),
    {
        if ws.len() == 0 {
            self
        } else {
            self.replay(ws.drop_last()).apply(ws.last())
        }
    }

    /// `len` arena bytes from `off` on, if they lie inside the arena.
    pub open spec fn slice(self, off: u32, len: u32) -> Option<Seq<u8>> {
        if off + len > ARENA_SIZE {
            None
        } else {
            Some(self.arena.subrange(off as int, off + len))
        }
    }

    /// The key of an entry, if it lies inside the arena.
    pub open spec fn key_at(self, i: int) -> Option<Seq<u8>> {
        self.slice(self.index[i].key_off, self.index[i].key_len)
    }

    /// The value of an entry, if it lies inside the arena.
    pub open spec fn val_at(self, i: int) -> Option<Seq<u8>> {
        self.slice(self.index[i].val_off, self.index[i].val_len)
    }

    /// Entry `i` is taken by `key`.
    pub open spec fn matches(self, i: int, key: Seq<u8>, hash: u64) -> bool {
        self.index[i].hash == hash && self.key_at(i) == Some(key)
    }

    /// The search for `key` from step `j` on, `free` being the first
    /// reclaimable bucket that the steps before passed.
    pub open spec fn probe_from(
        self,
        key: Seq<u8>,
        hash: u64,
        j: int,
        free: Option<int>,
    ) -> Option<(int, bool)>
        decreases MAX_PROBES - j,
    {
        let i = bucket(hash, j);
        if j >= MAX_PROBES {
            match free {
                Some(f) => Some((f, false)),
                None => None,
            }
        } else if self.index[i].state == ST_EMPTY {
            Some((if free is Some { free->0 } else { i }, false))
        } else if self.matches(i, key, hash) {
            Some((i, true))
        } else if free is None && is_clean_tomb(self.index[i]) {
            self.probe_from(key, hash, j + 1, Some(i))
        } else {
            self.probe_from(key, hash, j + 1, free)
        }
    }

    /// Where `key` is, or may be put: the bucket, and whether the bucket holds
    /// the key, live or deleted. A bucket that does not is empty, or holds a
    /// deletion that the disk already knows of.
    pub open spec fn probe(self, key: Seq<u8>, hash: u64) -> Option<(int, bool)> {
        self.probe_from(key, hash, 0, None)
    }

    /// What a reader of `key` concludes from this image, when the counters
    /// loaded after it was taken are `slot_after` and `arena_after`.
    pub open spec fn read(
        self,
        key: Seq<u8>,
        hash: u64,
        slot_after: u64,
        arena_after: u64,
    ) -> ReadView {
        let before = self.slots[slot_for(hash)];
        if before % 2 == 1 || self.arena_seq % 2 == 1 {
            ReadView::Torn
        } else {
            match self.probe(key, hash) {
                Some((i, true)) if self.index[i].state == ST_LIVE && self.val_at(i) is None =>
                    ReadView::Torn,
                found => if before != slot_after || self.arena_seq != arena_after {
                    ReadView::Torn
                } else {
                    match found {
                        Some((i, true)) if self.index[i].state == ST_LIVE => ReadView::Value(
                            self.val_at(i)->0,
                        ),
                        _ => ReadView::Absent,
                    }
                },
            }
        }
    }
}

/// A store after others.
pub broadcast proof fn lemma_replay_push(img: Image, ws: Seq<WriteView>, w: WriteView)
    ensures
        #[trigger] img.replay(ws.push(w)) == img.replay(ws).apply(w),
{
    assert(ws.push(w).drop_last() =~= ws);
}

/// A series of stores in two parts.
pub proof fn lemma_replay_concat(img: Image, a: Seq<WriteView>, b: Seq<WriteView>)
    ensures
        img.replay(a + b) == img.replay(a).replay(b),
    decreases b.len(),
{
    if b.len() == 0 {
        assert(a + b =~= a);
    } else {
        lemma_replay_concat(img, a, b.drop_last());
        assert((a + b).drop_last() =~= a + b.drop_last());
    }
}

} // verus!
