//! The authoritative live store: the contents of the shared segment.
//!
//! A `Segment` is a copy of the contents of the shared object, taken while the
//! writer lock was held. An operation works on the copy and lists the stores it
//! made; the process that has the object mapped makes the same stores there,
//! in the same order. Reading without the lock is in `peek`.

use vstd::prelude::*;
use vstd::slice::{slice_subrange, slice_to_vec};

use crate::consts::{
    ARENA_SIZE, COMPACT_GARBAGE_DIVISOR, INDEX_SLOTS, MAX_PROBES, SHM_MAGIC, SHM_VERSION, SLOTS,
};
use crate::hash::{fnv, fnv1a};
use crate::image::{
    bucket, empty_entry, home, lemma_replay_concat, lemma_replay_push, next_even, next_odd,
    slot_for, splice, Header, Image, IndexEntry, ReadView, Write, WriteView, FL_DIRTY, ST_EMPTY,
    ST_LIVE, ST_TOMB,
};
use crate::compaction::{law_compaction, lemma_emptied};
use crate::laws::{
    law_read, clear_said, compact_said, law_clear_said, law_compact_said, law_put_said,
    law_remove_said, put_said, remove_said,
};
use crate::model::{KeptView, PendingView};
use crate::sound::{finds, lemma_bucket_range, lemma_probe_from};
use crate::update::{lemma_probed, Update};
use crate::window::{
    by_deeds, lemma_enclosed_deed, lemma_no_deed, lemma_one_store, lemma_removal_deed,
    lemma_room_sound, lemma_update_deed,
};

verus! {

/// Bytes of the header: its fixed part and the seqlock counters.
pub const HEADER_SIZE: usize = 32840;

/// Bytes of one index entry.
pub const ENTRY_SIZE: usize = 32;

/// Bytes of the whole index.
pub const INDEX_SIZE: usize = 262144;

/// Bytes of the whole segment.
pub const SEGMENT_SIZE: usize = 1343560;

/// The layout: the fixed part of the header takes 72 bytes, each counter 8;
/// the index follows the header, the arena follows the index, and both start
/// on a multiple of 8.
pub proof fn law_layout()
    ensures
        HEADER_SIZE == 72 + SLOTS * 8,
        INDEX_SIZE == INDEX_SLOTS * ENTRY_SIZE,
        SEGMENT_SIZE == HEADER_SIZE + INDEX_SIZE + ARENA_SIZE,
        HEADER_SIZE % 8 == 0,
        (HEADER_SIZE + INDEX_SIZE) % 8 == 0,
{
}

/// Outcome of a lock-free read attempt.
#[derive(Debug)]
pub enum Read {
    /// The key is present.
    Value(Vec<u8>),
    /// The key is definitively absent.
    Absent,
    /// A writer was active or the data failed validation. The caller retries.
    Torn,
}

impl View for Read {
    type V = ReadView;

    open spec fn view(&self) -> ReadView {
        match self {
            Read::Value(v) => ReadView::Value(v@),
            Read::Absent => ReadView::Absent,
            Read::Torn => ReadView::Torn,
        }
    }
}

/// One thing the disk owes, as of the snapshot that produced it.
#[derive(Debug)]
pub struct Pending {
    pub key: Vec<u8>,
    /// `None` means the key was unset and its file needs unlinking.
    pub val: Option<Vec<u8>>,
    pub hash: u64,
    /// The key's seqlock counter when the snapshot was taken.
    pub seen: u64,
}

/// The bytes of an optional value.
pub open spec fn bytes_of(v: Option<Vec<u8>>) -> Option<Seq<u8>> {
    match v {
        Some(b) => Some(b@),
        None => None,
    }
}

impl View for Pending {
    type V = PendingView;

    open spec fn view(&self) -> PendingView {
        PendingView {
            key: self.key@,
            val: bytes_of(self.val),
            hash: self.hash,
            seen: self.seen,
        }
    }
}

/// What compaction carries over of one entry.
struct Keep {
    at: usize,
    key: Vec<u8>,
    val: Option<Vec<u8>>,
    flags: u32,
}

impl View for Keep {
    type V = KeptView;

    closed spec fn view(&self) -> KeptView {
        KeptView { at: self.at as int, key: self.key@, val: bytes_of(self.val), flags: self.flags }
    }
}

/// What a list of entries to carry over says.
spec fn kept_of(v: Seq<Keep>) -> Seq<KeptView> {
    v.map_values(|k: Keep| k@)
}

/// The contents of the shared segment, and the stores made into it.
pub struct Segment {
    header: Header,
    index: Vec<IndexEntry>,
    arena: Vec<u8>,
    writes: Vec<Write>,
    base: Ghost<Image>,
}

impl View for Segment {
    type V = Image;

    closed spec fn view(&self) -> Image {
        image_of(self.header, self.index@, self.arena@)
    }
}

/// The contents of a segment with the given parts.
pub open spec fn image_of(header: Header, index: Seq<IndexEntry>, arena: Seq<u8>) -> Image {
    Image {
        magic: header.magic,
        version: header.version,
        ready: header.ready,
        store_dev: header.store_dev,
        arena_seq: header.arena_seq,
        global_gen: header.global_gen,
        arena_used: header.arena_used,
        arena_garbage: header.arena_garbage,
        slots: header.slots@,
        index,
        arena,
    }
}

/// The stores that a list of `Write`s stands for.
pub open spec fn log_of(ws: Seq<Write>) -> Seq<WriteView> {
    ws.map_values(|w: Write| w@)
}

impl Segment {
    /// The contents when the list of stores was last emptied.
    pub closed spec fn base(self) -> Image {
        self.base@
    }

    /// The stores made since.
    pub closed spec fn log(self) -> Seq<WriteView> {
        log_of(self.writes@)
    }

    /// The parts have their sizes, and the stores made account for every
    /// change.
    pub open spec fn wf(self) -> bool {
        &&& self@.sized()
        &&& self@ == self.base().replay(self.log())
    }

    // ------------------------------------------------------ construction --

    /// The segment with the given parts, unless one of them does not have the
    /// size that the layout gives it.
    pub fn from_parts(header: Header, index: Vec<IndexEntry>, arena: Vec<u8>) -> (r: Option<
        Segment,
    >)
        ensures
            r is Some <==> image_of(header, index@, arena@).sized(),
            match r {
                Some(s) => {
                    &&& s.wf()
                    &&& s@ == image_of(header, index@, arena@)
                    &&& s.base() == s@
                    &&& s.log() == Seq::<WriteView>::empty()
                },
                None => true,
            },
    {
        if header.slots.len() != SLOTS || index.len() != INDEX_SLOTS || arena.len() != ARENA_SIZE {
            return None;
        }
        let base: Ghost<Image> = Ghost(image_of(header, index@, arena@));
        let s = Segment { header, index, arena, writes: Vec::new(), base };
        assert(s.log() =~= Seq::<WriteView>::empty());
        Some(s)
    }

    /// A segment that is all zeros, as a freshly sized object reads.
    pub fn zeroed() -> (s: Segment)
        ensures
            s.wf(),
            s@ == zeroed_image(),
            s@.sound(),
            s.base() == s@,
            s.log() == Seq::<WriteView>::empty(),
    {
        let header = Header {
            magic: 0,
            version: 0,
            ready: 0,
            store_dev: 0,
            arena_seq: 0,
            global_gen: 0,
            arena_used: 0,
            arena_garbage: 0,
            slots: vec![0u64; SLOTS],
        };
        let entry = IndexEntry {
            hash: 0,
            key_off: 0,
            key_len: 0,
            val_off: 0,
            val_len: 0,
            state: ST_EMPTY,
            flags: 0,
        };
        let mut index: Vec<IndexEntry> = Vec::new();
        while index.len() < INDEX_SLOTS
            invariant
                index.len() <= INDEX_SLOTS,
                entry == empty_entry(),
                forall|i: int| 0 <= i < index.len() ==> index[i] == empty_entry(),
            decreases INDEX_SLOTS - index.len(),
        {
            index.push(entry);
        }
        let arena: Vec<u8> = vec![0u8; ARENA_SIZE];
        let base: Ghost<Image> = Ghost(image_of(header, index@, arena@));
        let s = Segment { header, index, arena, writes: Vec::new(), base };
        assert(s.log() =~= Seq::<WriteView>::empty());
        assert(s@ =~= zeroed_image());
        proof {
            lemma_emptied(s@);
        }
        s
    }

    /// Hands over the stores made so far, in order, and starts a new list.
    pub fn take_writes(&mut self) -> (ws: Vec<Write>)
        requires
            old(self).wf(),
        ensures
            log_of(ws@) == old(self).log(),
            final(self)@ == old(self)@,
            final(self).wf(),
            final(self).base() == final(self)@,
            final(self).log() == Seq::<WriteView>::empty(),
    {
        let mut ws: Vec<Write> = Vec::new();
        std::mem::swap(&mut ws, &mut self.writes);
        self.base = Ghost(self@);
        assert(self.log() =~= Seq::<WriteView>::empty());
        ws
    }

    // --------------------------------------------------------- accessors --

    /// The header.
    pub fn header(&self) -> (h: &Header)
        ensures
            self@ == image_of(*h, self@.index, self@.arena),
    {
        &self.header
    }

    /// The index.
    pub fn index(&self) -> (r: &[IndexEntry])
        ensures
            r@ == self@.index,
    {
        self.index.as_slice()
    }

    /// The arena.
    pub fn arena(&self) -> (r: &[u8])
        ensures
            r@ == self@.arena,
    {
        self.arena.as_slice()
    }

    /// Makes one store.
    fn write(&mut self, w: Write)
        requires
            old(self).wf(),
            w@.fits(),
        ensures
            final(self).wf(),
            final(self)@ == old(self)@.apply(w@),
            final(self).log() == old(self).log().push(w@),
            final(self).base() == old(self).base(),
    {
        match &w {
            Write::Magic(v) => { self.header.magic = *v; },
            Write::Version(v) => { self.header.version = *v; },
            Write::Ready(v) => { self.header.ready = *v; },
            Write::StoreDev(v) => { self.header.store_dev = *v; },
            Write::ArenaSeq(v) => { self.header.arena_seq = *v; },
            Write::GlobalGen(v) => { self.header.global_gen = *v; },
            Write::ArenaUsed(v) => { self.header.arena_used = *v; },
            Write::ArenaGarbage(v) => { self.header.arena_garbage = *v; },
            Write::Slot(i, v) => { self.header.slots.set(*i, *v); },
            Write::Hash(i, v) => {
                let e = IndexEntry { hash: *v, ..self.index[*i] };
                self.index.set(*i, e);
            },
            Write::KeyOff(i, v) => {
                let e = IndexEntry { key_off: *v, ..self.index[*i] };
                self.index.set(*i, e);
            },
            Write::KeyLen(i, v) => {
                let e = IndexEntry { key_len: *v, ..self.index[*i] };
                self.index.set(*i, e);
            },
            Write::ValOff(i, v) => {
                let e = IndexEntry { val_off: *v, ..self.index[*i] };
                self.index.set(*i, e);
            },
            Write::ValLen(i, v) => {
                let e = IndexEntry { val_len: *v, ..self.index[*i] };
                self.index.set(*i, e);
            },
            Write::State(i, v) => {
                let e = IndexEntry { state: *v, ..self.index[*i] };
                self.index.set(*i, e);
            },
            Write::Flags(i, v) => {
                let e = IndexEntry { flags: *v, ..self.index[*i] };
                self.index.set(*i, e);
            },
            Write::Arena(off, bytes) => { store_bytes(&mut self.arena, *off, bytes); },
        }
        assert(self@ =~= old(self)@.apply(w@));
        let ghost stored = w@;
        self.writes.push(w);
        proof {
            assert(self.log() =~= old(self).log().push(stored));
            lemma_replay_push(self.base(), old(self).log(), stored);
        }
    }
}

impl Segment {
    /// The seqlock slot of a hash.
    pub fn slot_of(&self, hash: u64) -> (r: usize)
        ensures
            r == slot_for(hash),
            r < SLOTS,
    {
        assert(hash & 4095 == hash % 4096) by (bit_vector);
        (hash & (SLOTS as u64 - 1)) as usize
    }

    /// The counter of a seqlock slot.
    pub fn slot_value(&self, slot: usize) -> (r: u64)
        requires
            self.wf(),
            slot < SLOTS,
        ensures
            r == self@.slots[slot as int],
    {
        self.header.slots[slot]
    }

    /// The counter of the arena.
    pub fn arena_value(&self) -> (r: u64)
        ensures
            r == self@.arena_seq,
    {
        self.header.arena_seq
    }

    // ------------------------------------------------------ arena access --

    /// Copies `len` bytes at `off` out of the arena, refusing out-of-range
    /// requests. A torn read can produce nonsense offsets, so this is the
    /// bounds check that keeps a concurrent update from walking off the end.
    fn arena_slice(&self, off: u32, len: u32) -> (r: Option<Vec<u8>>)
        requires
            self.wf(),
        ensures
            bytes_of(r) == self@.slice(off, len),
    {
        let off: usize = off as usize;
        let len: usize = len as usize;
        if off > ARENA_SIZE || len > ARENA_SIZE || off + len > ARENA_SIZE {
            return None;
        }
        Some(slice_to_vec(slice_subrange(self.arena.as_slice(), off, off + len)))
    }

    /// Whether the `len` arena bytes at `off` are `want`.
    fn arena_eq(&self, off: u32, len: u32, want: &[u8]) -> (r: bool)
        requires
            self.wf(),
        ensures
            r == (self@.slice(off, len) == Some(want@)),
    {
        let off: usize = off as usize;
        let len: usize = len as usize;
        if len != want.len() || off > ARENA_SIZE || len > ARENA_SIZE || off + len > ARENA_SIZE {
            return false;
        }
        bytes_eq(slice_subrange(self.arena.as_slice(), off, off + len), want)
    }

    /// Stores `bytes` behind what the arena has handed out, and says where, if
    /// they fit. The caller must hold the writer lock.
    fn arena_alloc(&mut self, bytes: &[u8]) -> (r: Option<u32>)
        requires
            old(self).wf(),
        ensures
            final(self).wf(),
            final(self).base() == old(self).base(),
            r is Some <==> old(self)@.has_room(bytes@.len() as int),
            match r {
                Some(off) => {
                    &&& off == old(self)@.arena_used
                    &&& final(self)@ == old(self)@.allocated(bytes@)
                    &&& final(self).log() == old(self).log().push(
                        WriteView::Arena(old(self)@.arena_used as int, bytes@),
                    ).push(WriteView::ArenaUsed((old(self)@.arena_used + bytes@.len()) as u64))
                },
                None => *final(self) == *old(self),
            },
    {
        let used: u64 = self.header.arena_used;
        let need: usize = bytes.len();
        if used > ARENA_SIZE as u64 || need > ARENA_SIZE - used as usize {
            return None;
        }
        self.write(Write::Arena(used as usize, slice_to_vec(bytes)));
        self.write(Write::ArenaUsed(used + need as u64));
        Some(used as u32)
    }

    // ------------------------------------------------------- index probe --

    /// Locates `key`. Returns the bucket and whether the bucket holds this key
    /// (live or deleted). When it does not, the bucket is one that may be
    /// claimed, if there is one.
    pub fn probe(&self, key: &[u8], hash: u64) -> (r: Option<(usize, bool)>)
        requires
            self.wf(),
        ensures
            match r {
                Some((i, found)) => {
                    &&& i < INDEX_SLOTS
                    &&& self@.probe(key@, hash) == Some((i as int, found))
                },
                None => self@.probe(key@, hash) is None,
            },
    {
        let start: usize = (hash % (INDEX_SLOTS as u64)) as usize;
        let mut free: Option<usize> = None;
        let ghost mut gfree: Option<int> = None;
        let mut j: usize = 0;
        while j < MAX_PROBES
            invariant
                self.wf(),
                start == home(hash),
                j <= MAX_PROBES,
                gfree == match free {
                    Some(f) => Some(f as int),
                    None => None,
                },
                match free {
                    Some(f) => f < INDEX_SLOTS,
                    None => true,
                },
                self@.probe(key@, hash) == self@.probe_from(key@, hash, j as int, gfree),
            decreases MAX_PROBES - j,
        {
            let i: usize = (start + j) % INDEX_SLOTS;
            assert(i == bucket(hash, j as int));
            let e = self.index[i];
            assert(e == self@.index[i as int]);
            if e.state == ST_EMPTY {
                return match free {
                    Some(f) => Some((f, false)),
                    None => Some((i, false)),
                };
            }
            if e.hash == hash && self.arena_eq(e.key_off, e.key_len, key) {
                return Some((i, true));
            }
            // A deletion can be reclaimed, but only once its pending unlink has
            // been committed; otherwise the record of it would be lost.
            if e.state == ST_TOMB && free.is_none() && (e.flags & FL_DIRTY) == 0 {
                free = Some(i);
                proof {
                    gfree = Some(i as int);
                }
            }
            j += 1;
        }
        match free {
            Some(f) => Some((f, false)),
            None => None,
        }
    }

    // --------------------------------------------------------- read path --

    /// What a reader of `key` concludes from this segment. It was taken after
    /// its own counters were loaded; `slot_after` and `arena_after` are the
    /// counters of the key's slot and of the arena, loaded after it was taken.
    /// `Read::Torn` if a writer was active, in which case the caller retries.
    pub fn read_value(&self, key: &[u8], hash: u64, slot_after: u64, arena_after: u64) -> (r: Read)
        requires
            self.wf(),
        ensures
            r@ == self@.read(key@, hash, slot_after, arena_after),
            // What that says if nothing was written meanwhile.
            ({
                let before = self@.slots[slot_for(hash)];
                self@.sound() && hash == fnv(key@) && before % 2 == 0 && self@.arena_seq % 2 == 0
                    && slot_after == before && arena_after == self@.arena_seq ==> r@
                    == match self@.value(key@) {
                    Some(v) => ReadView::Value(v),
                    None => ReadView::Absent,
                }
            }),
    {
        proof {
            let before = self@.slots[slot_for(hash)];
            if self@.sound() && hash == fnv(key@) && before % 2 == 0 && self@.arena_seq % 2 == 0 {
                law_read(self@, key@);
            }
        }
        let slot: usize = self.slot_of(hash);
        let s1: u64 = self.header.slots[slot];
        let a1: u64 = self.header.arena_seq;
        if s1 % 2 == 1 || a1 % 2 == 1 {
            return Read::Torn;
        }
        let out = match self.probe(key, hash) {
            Some((i, true)) => {
                let e = self.index[i];
                assert(e == self@.index[i as int]);
                if e.state == ST_LIVE {
                    match self.arena_slice(e.val_off, e.val_len) {
                        Some(v) => Read::Value(v),
                        // Offsets out of range: this raced a writer.
                        None => {
                            return Read::Torn;
                        },
                    }
                } else {
                    Read::Absent
                }
            },
            _ => Read::Absent,
        };
        if s1 != slot_after || a1 != arena_after {
            return Read::Torn;
        }
        out
    }

    // --------------------------------------------------------- counters --

    /// The next odd value. Deriving the parity from the old value rather than
    /// incrementing it makes a counter repair itself after a writer that died
    /// between the two halves of an update.
    fn next_odd(v: u64) -> (r: u64)
        ensures
            r == next_odd(v),
            r % 2 == 1,
            v < u64::MAX ==> r > v,
    {
        if v == u64::MAX {
            1
        } else if v % 2 == 0 {
            v + 1
        } else {
            v + 2
        }
    }

    /// The next even value.
    fn next_even(v: u64) -> (r: u64)
        ensures
            r == next_even(v),
            r % 2 == 0,
            v < u64::MAX - 1 ==> r > v,
    {
        if v >= u64::MAX - 1 {
            0
        } else if v % 2 == 0 {
            v + 2
        } else {
            v + 1
        }
    }

    /// Begins a write to `slot`: makes the counter odd so readers back off.
    fn seq_begin(&mut self, slot: usize)
        requires
            old(self).wf(),
            slot < SLOTS,
        ensures
            final(self).wf(),
            final(self).base() == old(self).base(),
            final(self)@ == old(self)@.apply(old(self)@.slot_begin(slot as int)),
            final(self).log() == old(self).log().push(old(self)@.slot_begin(slot as int)),
    {
        let v: u64 = self.header.slots[slot];
        self.write(Write::Slot(slot, Self::next_odd(v)));
    }

    /// Ends a write: makes the counter even again and records the mutation.
    fn seq_end(&mut self, slot: usize)
        requires
            old(self).wf(),
            slot < SLOTS,
        ensures
            final(self).wf(),
            final(self).base() == old(self).base(),
            final(self).log() == old(self).log().push(
                WriteView::Slot(slot as int, next_even(old(self)@.slots[slot as int])),
            ).push(WriteView::GlobalGen(old(self)@.global_gen.wrapping_add(1))),
            final(self)@ == (Image {
                slots: old(self)@.slots.update(
                    slot as int,
                    next_even(old(self)@.slots[slot as int]),
                ),
                global_gen: old(self)@.global_gen.wrapping_add(1),
                ..old(self)@
            }),
    {
        let v: u64 = self.header.slots[slot];
        self.write(Write::Slot(slot, Self::next_even(v)));
        let g: u64 = self.header.global_gen;
        self.write(Write::GlobalGen(g.wrapping_add(1)));
    }

    /// Begins a compaction: the arena counter covers every slot at once.
    fn arena_begin(&mut self)
        requires
            old(self).wf(),
        ensures
            final(self).wf(),
            final(self).base() == old(self).base(),
            final(self)@ == old(self)@.arena_begun(),
            final(self).log() == old(self).log().push(
                WriteView::ArenaSeq(next_odd(old(self)@.arena_seq)),
            ),
    {
        let v: u64 = self.header.arena_seq;
        self.write(Write::ArenaSeq(Self::next_odd(v)));
    }

    /// Ends a compaction.
    fn arena_end(&mut self)
        requires
            old(self).wf(),
        ensures
            final(self).wf(),
            final(self).base() == old(self).base(),
            final(self)@ == old(self)@.arena_ended(),
            final(self).log() == old(self).log().push(
                WriteView::ArenaSeq(next_even(old(self)@.arena_seq)),
            ),
    {
        let v: u64 = self.header.arena_seq;
        self.write(Write::ArenaSeq(Self::next_even(v)));
    }

    /// Forces this slot's counter and the arena counter back to even, and says
    /// whether either needed it. The caller must hold the writer lock: nothing
    /// can be writing then, so an odd counter is what a writer that died
    /// mid-update left behind.
    pub fn repair_seq(&mut self, slot: usize) -> (repaired: bool)
        requires
            old(self).wf(),
            slot < SLOTS,
        ensures
            final(self).wf(),
            final(self).base() == old(self).base(),
            final(self)@ == old(self)@.repaired(slot as int),
            final(self).log() == old(self).log() + old(self)@.repair_writes(slot as int),
            by_deeds(old(self)@, old(self).log(), final(self).log()),
            repaired == (old(self)@.slots[slot as int] % 2 == 1 || old(self)@.arena_seq % 2 == 1),
    {
        let mut repaired: bool = false;
        let ghost log0 = self.log();
        let ghost start = self@;
        proof {
            lemma_no_deed(start, log0);
        }
        let v: u64 = self.header.slots[slot];
        if v % 2 == 1 {
            self.write(Write::Slot(slot, Self::next_even(v)));
            repaired = true;
            proof {
                lemma_one_store(
                    self.base(),
                    start,
                    log0,
                    log0,
                    WriteView::Slot(slot as int, next_even(v)),
                );
            }
        }
        let a: u64 = self.header.arena_seq;
        let ghost log1 = self.log();
        if a % 2 == 1 {
            self.write(Write::ArenaSeq(Self::next_even(a)));
            repaired = true;
            proof {
                lemma_one_store(
                    self.base(),
                    start,
                    log0,
                    log1,
                    WriteView::ArenaSeq(next_even(a)),
                );
            }
        }
        assert(self.log() =~= log0 + start.repair_writes(slot as int));
        repaired
    }

    /// Leaves a slot's counter odd, the way a writer killed in mid-update
    /// does.
    pub fn poison_slot(&mut self, hash: u64)
        requires
            old(self).wf(),
        ensures
            final(self).wf(),
            final(self).base() == old(self).base(),
            final(self)@ == old(self)@.poisoned(slot_for(hash)),
    {
        let slot: usize = self.slot_of(hash);
        let v: u64 = self.header.slots[slot];
        assert(v % 2 == 1 ==> v | 1 == v) by (bit_vector);
        assert(v % 2 == 0 ==> v | 1 == v + 1) by (bit_vector);
        self.write(Write::Slot(slot, v | 1));
    }
}

/// A store to the index, to the arena or to the arena's bookkeeping: none to a
/// counter, nor to what says whether the segment may be used.
pub open spec fn is_content(w: WriteView) -> bool {
    match w {
        WriteView::Hash(_, _)
        | WriteView::KeyOff(_, _)
        | WriteView::KeyLen(_, _)
        | WriteView::ValOff(_, _)
        | WriteView::ValLen(_, _)
        | WriteView::State(_, _)
        | WriteView::Flags(_, _)
        | WriteView::Arena(_, _)
        | WriteView::ArenaUsed(_)
        | WriteView::ArenaGarbage(_) => true,
        _ => false,
    }
}

/// `after` is `before` with stores added to the contents alone.
pub open spec fn adds_quietly(before: Seq<WriteView>, after: Seq<WriteView>) -> bool {
    &&& before.len() <= after.len()
    &&& after.subrange(0, before.len() as int) == before
    &&& forall|j: int| before.len() <= j < after.len() ==> is_content(#[trigger] after[j])
}

/// `after` is `before` with stores added, none of which touches the flag that
/// publishes the segment.
pub open spec fn adds_unpublished(before: Seq<WriteView>, after: Seq<WriteView>) -> bool {
    &&& before.len() <= after.len()
    &&& after.subrange(0, before.len() as int) == before
    &&& forall|j: int| before.len() <= j < after.len() ==> !(#[trigger] after[j] is Ready)
}

/// The stores `log`, made from `base` on, end with the stores `ws`, made from
/// `start` on.
pub open spec fn ends_with(
    log: Seq<WriteView>,
    base: Image,
    start: Image,
    ws: Seq<WriteView>,
) -> bool {
    let n = log.len() - ws.len();
    &&& 0 <= n
    &&& log == log.subrange(0, n) + ws
    &&& base.replay(log.subrange(0, n)) == start
}

/// `after` is `before` with stores added that are enclosed by two stores to
/// the arena's counter, of `odd` and of `even`, and go to the contents alone.
pub open spec fn adds_enclosed(
    before: Seq<WriteView>,
    after: Seq<WriteView>,
    odd: u64,
    even: u64,
) -> bool {
    &&& before.len() + 2 <= after.len()
    &&& after.subrange(0, before.len() as int) == before
    &&& after[before.len() as int] == WriteView::ArenaSeq(odd)
    &&& after.last() == WriteView::ArenaSeq(even)
    &&& forall|j: int|
        before.len() < j < after.len() - 1 ==> is_content(#[trigger] after[j])
}

/// `after` is `before` with the stores added that making room for `need`
/// bytes takes: those of one compaction, where there is one.
pub open spec fn adds_room(
    before: Seq<WriteView>,
    after: Seq<WriteView>,
    img: Image,
    need: int,
) -> bool {
    if img.compacts(need) {
        adds_enclosed(before, after, next_odd(img.arena_seq), next_even(next_odd(img.arena_seq)))
    } else {
        after == before
    }
}

/// `after` is `before` with the stores added that giving `key` the value `val`
/// takes: none if it is there already, else those of making room, and then
/// exactly the update's list.
pub open spec fn adds_put(
    before: Seq<WriteView>,
    after: Seq<WriteView>,
    base: Image,
    img: Image,
    key: Seq<u8>,
    val: Seq<u8>,
    dirty: bool,
) -> bool {
    let need = (key.len() + val.len()) as int;
    if img.has_value(key, val) {
        after == before
    } else {
        match img.put_bucket(key, val) {
            Some((roomy, i, found)) => {
                let ws = roomy.update_writes(i, found, key, val, fnv(key), dirty).0;
                &&& ends_with(after, base, roomy, ws)
                &&& adds_room(before, after.subrange(0, after.len() - ws.len()), img, need)
            },
            None => adds_room(before, after, img, need),
        }
    }
}

/// `after` is `before` with the stores added that deleting `key` takes: none if
/// it has no value.
pub open spec fn adds_removal(
    before: Seq<WriteView>,
    after: Seq<WriteView>,
    img: Image,
    key: Seq<u8>,
    dirty: bool,
) -> bool {
    match img.probe(key, fnv(key)) {
        Some((i, true)) if img.index[i].state == ST_LIVE => after == before + img.bracket(
            slot_for(fnv(key)),
            img.tomb_writes(i, dirty),
        ),
        _ => after == before,
    }
}

/// `after` is `before` with the stores added that emptying the store takes:
/// those that empty the contents, enclosed by the two to the arena's counter,
/// then one to the counter of every slot in turn, then the one that counts the
/// change.
pub open spec fn adds_clearing(
    before: Seq<WriteView>,
    after: Seq<WriteView>,
    img: Image,
) -> bool {
    let n = after.len() - SLOTS - 1;
    &&& before.len() <= n
    &&& adds_enclosed(
        before,
        after.subrange(0, n),
        next_odd(img.arena_seq),
        next_even(next_odd(img.arena_seq)),
    )
    &&& forall|s: int|
        0 <= s < SLOTS ==> #[trigger] after[n + s] == WriteView::Slot(s, next_even(img.slots[s]))
    &&& after.last() == WriteView::GlobalGen(img.global_gen.wrapping_add(1))
}

impl Segment {
    // -------------------------------------------------------- write path --

    /// Gives `key` the value `val` in bucket `i`. The caller has made the
    /// counter of the key's slot odd.
    fn put_locked(
        &mut self,
        i: usize,
        found: bool,
        key: &[u8],
        val: &[u8],
        hash: u64,
        dirty: bool,
    ) -> (r: Result<(), ()>)
        requires
            old(self).wf(),
            i < INDEX_SLOTS,
        ensures
            final(self).wf(),
            final(self).base() == old(self).base(),
            final(self).log() == old(self).log() + old(self)@.entry_writes(
                i as int,
                found,
                key@,
                val@,
                hash,
                dirty,
            ).0,
            final(self)@ == old(self)@.replay(
                old(self)@.entry_writes(i as int, found, key@, val@, hash, dirty).0,
            ),
            r is Ok <==> old(self)@.entry_writes(i as int, found, key@, val@, hash, dirty).1,
    {
        let ghost ws = self@.entry_writes(i as int, found, key@, val@, hash, dirty).0;
        let ghost log = self.log();
        let e = self.index[i];
        assert(e == self@.index[i as int]);
        let garbage: u64 = self.header.arena_garbage;
        let r = match self.arena_alloc(val) {
            None => Err(()),
            Some(val_off) => {
                let mut keyed: bool = true;
                if found {
                    // The key's bytes are in the arena already and never
                    // change; only the value moves, and the old one becomes
                    // garbage.
                    if e.state == ST_LIVE {
                        self.write(Write::ArenaGarbage(garbage.wrapping_add(e.val_len as u64)));
                    }
                } else {
                    match self.arena_alloc(key) {
                        Some(key_off) => {
                            self.write(Write::KeyOff(i, key_off));
                            self.write(Write::KeyLen(i, key.len() as u32));
                            self.write(Write::Hash(i, hash));
                        },
                        None => {
                            keyed = false;
                        },
                    }
                }
                if keyed {
                    // The length first, and zeroed: a writer killed between
                    // the stores of offset and length would otherwise leave a
                    // value assembled from two writes.
                    self.write(Write::ValLen(i, 0));
                    self.write(Write::ValOff(i, val_off));
                    self.write(Write::ValLen(i, val.len() as u32));
                    if dirty {
                        self.write(Write::Flags(i, e.flags | FL_DIRTY));
                    }
                    self.write(Write::State(i, ST_LIVE));
                    Ok(())
                } else {
                    Err(())
                }
            },
        };
        proof {
            assert(self.log() =~= log + ws);
            lemma_replay_concat(self.base(), log, ws);
        }
        r
    }

    /// Inserts or overwrites. The caller must hold the writer lock.
    ///
    /// `dirty` marks the key as owing the disk a write at the next commit;
    /// preload passes `false` because the value already matches the disk.
    ///
    /// A value that is there already is left alone: neither a counter nor the
    /// flag of the key moves, as nothing changed. That is decided by the
    /// segment and not by a process's cache, which knows only the keys that
    /// the process has read.
    pub fn put(&mut self, key: &[u8], val: &[u8], dirty: bool) -> (r: Result<(), ()>)
        requires
            old(self).wf(),
        ensures
            final(self).wf(),
            final(self).base() == old(self).base(),
            final(self)@ == old(self)@.put(key@, val@, dirty).0,
            r is Ok <==> old(self)@.put(key@, val@, dirty).1,
            old(self)@.has_value(key@, val@) ==> *final(self) == *old(self),
            adds_put(
                old(self).log(),
                final(self).log(),
                old(self).base(),
                old(self)@,
                key@,
                val@,
                dirty,
            ),
            adds_unpublished(old(self).log(), final(self).log()),
            old(self)@.sound() ==> by_deeds(old(self)@, old(self).log(), final(self).log()),
            old(self)@.sound() ==> put_said(old(self)@, key@, val@, final(self)@, r is Ok),
    {
        proof {
            if self@.sound() {
                law_put_said(self@, key@, val@, dirty);
            }
        }
        reveal(Image::put);
        let hash: u64 = fnv1a(key);
        let ghost log0 = self.log();
        assert(log0.subrange(0, log0.len() as int) =~= log0);
        proof {
            lemma_no_deed(self@, log0);
        }

        match self.probe(key, hash) {
            Some((i, true)) => {
                let e = self.index[i];
                assert(e == self@.index[i as int]);
                if e.state == ST_LIVE && self.arena_eq(e.val_off, e.val_len, val) {
                    return Ok(());
                }
            },
            _ => {},
        }
        assert(!self@.has_value(key@, val@));

        // Reserve space before disturbing readers. This may move everything,
        // so the probe below comes after it.
        let room = self.ensure_space(key.len(), val.len());
        let ghost log1 = self.log();
        proof {
            lemma_room_unpublished(log0, log1, old(self)@, (key@.len() + val@.len()) as int);
        }
        if room.is_err() {
            return Err(());
        }
        let ghost roomy = self@;
        match self.probe(key, hash) {
            None => Err(()),
            Some((i, found)) => {
                let res = self.update(i, found, key, val, hash, dirty);
                proof {
                    let ws = roomy.update_writes(i as int, found, key@, val@, hash, dirty).0;
                    if old(self)@.sound() {
                        let u = Update { i: i as int, found, key: key@, val: val@ };
                        lemma_room_sound(old(self)@, (key@.len() + val@.len()) as int);
                        lemma_update_deed(self.base(), old(self)@, log0, log1, u, dirty);
                    }
                    assert(self.log().subrange(0, log1.len() as int) =~= log1);
                    assert(self.log().subrange(0, self.log().len() - ws.len()) =~= log1);
                    assert(self.log().subrange(0, log0.len() as int) =~= log1.subrange(
                        0,
                        log0.len() as int,
                    ));
                    assert forall|j: int| log0.len() <= j < self.log().len() implies !(
                    #[trigger] self.log()[j] is Ready) by {
                        if j < log1.len() {
                            assert(!(log1[j] is Ready));
                        } else {
                            assert(!(ws[j - log1.len()] is Ready));
                        }
                    }
                }
                res
            },
        }
    }

    /// Gives `key` the value `val` in bucket `i`, between the two halves of a
    /// seqlock write.
    fn update(
        &mut self,
        i: usize,
        found: bool,
        key: &[u8],
        val: &[u8],
        hash: u64,
        dirty: bool,
    ) -> (r: Result<(), ()>)
        requires
            old(self).wf(),
            i < INDEX_SLOTS,
        ensures
            final(self).wf(),
            final(self).base() == old(self).base(),
            final(self).log() == old(self).log() + old(self)@.update_writes(
                i as int,
                found,
                key@,
                val@,
                hash,
                dirty,
            ).0,
            final(self)@ == old(self)@.replay(
                old(self)@.update_writes(i as int, found, key@, val@, hash, dirty).0,
            ),
            r is Ok <==> old(self)@.update_writes(i as int, found, key@, val@, hash, dirty).1,
    {
        let slot: usize = self.slot_of(hash);
        let ghost start = self@;
        let ghost log0 = self.log();
        let ghost ws = start.entry_writes(i as int, found, key@, val@, hash, dirty).0;
        self.seq_begin(slot);
        let ghost begun = self@;
        let ghost log1 = self.log();
        proof {
            assert(begun.entry_writes(i as int, found, key@, val@, hash, dirty)
                == start.entry_writes(i as int, found, key@, val@, hash, dirty));
        }
        let res = self.put_locked(i, found, key, val, hash, dirty);
        proof {
            lemma_plain_counters(begun, ws);
        }
        self.seq_end(slot);
        proof {
            let all = start.bracket(slot as int, ws);
            assert(self.log() =~= log0 + all);
            lemma_replay_concat(self.base(), log0, all);
        }
        res
    }

    /// Deletes a key, and says whether it was there. The caller must hold the
    /// writer lock.
    pub fn remove(&mut self, key: &[u8], dirty: bool) -> (r: bool)
        requires
            old(self).wf(),
        ensures
            final(self).wf(),
            final(self).base() == old(self).base(),
            final(self)@ == old(self)@.removed(key@, dirty).0,
            r == old(self)@.removed(key@, dirty).1,
            !r ==> *final(self) == *old(self),
            adds_removal(old(self).log(), final(self).log(), old(self)@, key@, dirty),
            old(self)@.sound() ==> by_deeds(old(self)@, old(self).log(), final(self).log()),
            old(self)@.sound() ==> remove_said(old(self)@, key@, final(self)@, r),
    {
        proof {
            if self@.sound() {
                law_remove_said(self@, key@, dirty);
            }
        }
        reveal(Image::removed);
        let hash: u64 = fnv1a(key);
        let slot: usize = self.slot_of(hash);
        let ghost start = self@;
        let ghost log0 = self.log();
        proof {
            lemma_no_deed(start, log0);
        }
        let (i, found) = match self.probe(key, hash) {
            Some(v) => v,
            None => {
                return false;
            },
        };
        if !found {
            return false;
        }
        let e = self.index[i];
        assert(e == self@.index[i as int]);
        if e.state != ST_LIVE {
            return false;
        }
        self.seq_begin(slot);
        let ghost begun = self@;
        let garbage: u64 = self.header.arena_garbage;
        self.write(Write::ArenaGarbage(garbage.wrapping_add(e.val_len as u64)));
        self.write(Write::ValLen(i, 0));
        if dirty {
            self.write(Write::Flags(i, e.flags | FL_DIRTY));
        }
        self.write(Write::State(i, ST_TOMB));
        self.seq_end(slot);
        proof {
            let all = start.bracket(slot as int, start.tomb_writes(i as int, dirty));
            assert(self.log() =~= log0 + all);
            lemma_replay_concat(self.base(), log0, all);
            if start.sound() {
                let u = Update { i: i as int, found: true, key: key@, val: Seq::empty() };
                lemma_probed(start, u);
                lemma_removal_deed(self.base(), start, log0, i as int, key@, dirty);
            }
        }
        true
    }

    // ------------------------------------------------------ housekeeping --

    /// Makes room for a key and a value in the arena, if there is any to be
    /// had.
    fn ensure_space(&mut self, key_len: usize, val_len: usize) -> (r: Result<(), ()>)
        requires
            old(self).wf(),
        ensures
            final(self).wf(),
            final(self).base() == old(self).base(),
            (final(self)@, r is Ok) == old(self)@.ensured(key_len + val_len),
            !old(self)@.compacts(key_len + val_len) ==> *final(self) == *old(self),
            adds_room(old(self).log(), final(self).log(), old(self)@, key_len + val_len),
            old(self)@.sound() ==> by_deeds(old(self)@, old(self).log(), final(self).log()),
    {
        proof {
            lemma_no_deed(self@, self.log());
        }
        if self.has_room(key_len, val_len) {
            // Compact opportunistically once the garbage is worth reclaiming.
            if self.header.arena_garbage > (ARENA_SIZE / COMPACT_GARBAGE_DIVISOR) as u64 {
                self.compact();
            }
            return Ok(());
        }
        self.compact();
        if !self.has_room(key_len, val_len) {
            return Err(());
        }
        Ok(())
    }

    /// Whether a key and a value fit behind what the arena has handed out.
    fn has_room(&self, key_len: usize, val_len: usize) -> (r: bool)
        ensures
            r == self@.has_room(key_len + val_len),
    {
        let used: u64 = self.header.arena_used;
        if used > ARENA_SIZE as u64 {
            return false;
        }
        let left: usize = ARENA_SIZE - used as usize;
        key_len <= left && val_len <= left - key_len
    }

    /// Empties the index, and takes back all of the arena.
    fn wipe(&mut self)
        requires
            old(self).wf(),
        ensures
            final(self).wf(),
            final(self).base() == old(self).base(),
            final(self)@ == old(self)@.wiped(),
            adds_quietly(old(self).log(), final(self).log()),
    {
        let ghost start = self@;
        let ghost log0 = self.log();
        assert(log0.subrange(0, log0.len() as int) =~= log0);
        let mut i: usize = 0;
        while i < INDEX_SLOTS
            invariant
                self.wf(),
                self.base() == old(self).base(),
                i <= INDEX_SLOTS,
                start.sized(),
                self@ == (Image { index: self@.index, ..start }),
                forall|k: int| 0 <= k < i ==> self@.index[k] == empty_entry(),
                log0 == old(self).log(),
                adds_quietly(log0, self.log()),
            decreases INDEX_SLOTS - i,
        {
            let ghost log1 = self.log();
            self.write(Write::State(i, ST_EMPTY));
            self.write(Write::Hash(i, 0));
            self.write(Write::Flags(i, 0));
            self.write(Write::KeyOff(i, 0));
            self.write(Write::KeyLen(i, 0));
            self.write(Write::ValOff(i, 0));
            self.write(Write::ValLen(i, 0));
            assert(self@.index[i as int] == empty_entry());
            assert(self.log().subrange(0, log0.len() as int) =~= log1.subrange(
                0,
                log0.len() as int,
            ));
            i += 1;
        }
        let ghost log1 = self.log();
        self.write(Write::ArenaUsed(0));
        self.write(Write::ArenaGarbage(0));
        assert(self.log().subrange(0, log0.len() as int) =~= log1.subrange(0, log0.len() as int));
        assert(self@ =~= start.wiped());
    }

    /// Collects the deletions that the disk knows of.
    fn gone(&self) -> (gone: Vec<Keep>)
        requires
            self.wf(),
        ensures
            kept_of(gone@) == self@.gone(),
            forall|n: int| 0 <= n < gone@.len() ==> 0 <= (#[trigger] gone@[n])@.at < INDEX_SLOTS,
    {
        let mut gone: Vec<Keep> = Vec::new();
        let mut i: usize = 0;
        assert(kept_of(gone@) =~= self@.gone_upto(0));
        while i < INDEX_SLOTS
            invariant
                self.wf(),
                i <= INDEX_SLOTS,
                kept_of(gone@) == self@.gone_upto(i as int),
                forall|n: int|
                    0 <= n < gone@.len() ==> 0 <= (#[trigger] gone@[n])@.at < INDEX_SLOTS,
            decreases INDEX_SLOTS - i,
        {
            let e = self.index[i];
            assert(e == self@.index[i as int]);
            i += 1;
            if e.state != ST_TOMB || (e.flags & FL_DIRTY) != 0 {
                continue;
            }
            let key = match self.arena_slice(e.key_off, e.key_len) {
                Some(k) => k,
                None => {
                    continue;
                },
            };
            let k = Keep { at: i - 1, key, val: None, flags: e.flags };
            assert(self@.gone_at(i - 1) == Some(k@));
            let ghost before = gone@;
            gone.push(k);
            assert(kept_of(gone@) =~= kept_of(before).push(k@));
        }
        gone
    }

    /// Collects what compaction carries over.
    fn keep(&self) -> (keep: Vec<Keep>)
        requires
            self.wf(),
        ensures
            kept_of(keep@) == self@.kept(),
            forall|n: int| 0 <= n < keep@.len() ==> 0 <= (#[trigger] keep@[n])@.at < INDEX_SLOTS,
    {
        let mut keep: Vec<Keep> = Vec::new();
        let mut i: usize = 0;
        assert(kept_of(keep@) =~= self@.kept_upto(0));
        while i < INDEX_SLOTS
            invariant
                self.wf(),
                i <= INDEX_SLOTS,
                kept_of(keep@) == self@.kept_upto(i as int),
                forall|n: int|
                    0 <= n < keep@.len() ==> 0 <= (#[trigger] keep@[n])@.at < INDEX_SLOTS,
            decreases INDEX_SLOTS - i,
        {
            let e = self.index[i];
            assert(e == self@.index[i as int]);
            let committed = e.state == ST_TOMB && (e.flags & FL_DIRTY) == 0;
            i += 1;
            if e.state == ST_EMPTY || committed {
                continue;
            }
            let key = match self.arena_slice(e.key_off, e.key_len) {
                Some(k) => k,
                None => {
                    continue;
                },
            };
            let val = if e.state == ST_LIVE {
                self.arena_slice(e.val_off, e.val_len)
            } else {
                None
            };
            let k = Keep { at: i - 1, key, val, flags: e.flags };
            assert(self@.kept_at(i - 1) == Some(k@));
            let ghost before = keep@;
            keep.push(k);
            assert(kept_of(keep@) =~= kept_of(before).push(k@));
        }
        keep
    }

    /// Carries one entry over into the emptied index, to where a search for its
    /// key gets, and says whether there is a bucket for it.
    fn place(&mut self, k: &Keep) -> (found: bool)
        requires
            old(self).wf(),
        ensures
            final(self).wf(),
            final(self).base() == old(self).base(),
            final(self)@ == old(self)@.placed(k@),
            found == (old(self)@.probe(k@.key, fnv(k@.key)) is Some),
            adds_quietly(old(self).log(), final(self).log()),
    {
        let hash: u64 = fnv1a(k.key.as_slice());
        match self.probe(k.key.as_slice(), hash) {
            Some((i, _)) => {
                self.seat(i, k);
                true
            },
            None => {
                assert(self.log().subrange(0, self.log().len() as int) =~= self.log());
                false
            },
        }
    }

    /// Carries one entry over into bucket `i`.
    fn seat(&mut self, i: usize, k: &Keep)
        requires
            old(self).wf(),
            i < INDEX_SLOTS,
        ensures
            final(self).wf(),
            final(self).base() == old(self).base(),
            final(self)@ == old(self)@.seated(i as int, k@),
            adds_quietly(old(self).log(), final(self).log()),
    {
        let ghost start = self@;
        let ghost log0 = self.log();
        assert(log0.subrange(0, log0.len() as int) =~= log0);
        let hash: u64 = fnv1a(k.key.as_slice());
        let key_off: u32 = match self.arena_alloc(k.key.as_slice()) {
            Some(o) => o,
            None => {
                return;
            },
        };
        self.write(Write::KeyOff(i, key_off));
        self.write(Write::KeyLen(i, k.key.len() as u32));
        self.write(Write::Hash(i, hash));
        self.write(Write::Flags(i, k.flags));
        assert(self.log().subrange(0, log0.len() as int) =~= log0);
        let ghost keyed = start.allocated(k.key@).with_entry(
            i as int,
            IndexEntry {
                key_off,
                key_len: k.key@.len() as u32,
                hash,
                flags: k.flags,
                ..start.index[i as int]
            },
        );
        assert(self@ =~= keyed);
        match &k.val {
            Some(v) => {
                let val_off: u32 = match self.arena_alloc(v.as_slice()) {
                    Some(o) => o,
                    None => {
                        return;
                    },
                };
                self.write(Write::ValOff(i, val_off));
                self.write(Write::ValLen(i, v.len() as u32));
                self.write(Write::State(i, ST_LIVE));
            },
            None => {
                self.write(Write::ValOff(i, 0));
                self.write(Write::ValLen(i, 0));
                self.write(Write::State(i, ST_TOMB));
            },
        }
        assert(self.log().subrange(0, log0.len() as int) =~= log0);
        assert(self@ =~= start.seated(i as int, k@));
    }

    /// Carries entries over, each to where a search for its key gets, and says
    /// whether there was a bucket for all of them.
    fn place_all(&mut self, keep: &Vec<Keep>) -> (all: bool)
        requires
            old(self).wf(),
        ensures
            final(self).wf(),
            final(self).base() == old(self).base(),
            final(self)@ == old(self)@.placed_upto(
                kept_of(keep@),
                keep@.len() as int,
            ),
            all <==> forall|m: int| 0 <= m < keep@.len() ==> #[trigger] finds_bucket(
                old(self)@,
                kept_of(keep@),
                m,
            ),
            adds_quietly(old(self).log(), final(self).log()),
    {
        let ghost kept = kept_of(keep@);
        let ghost log0 = self.log();
        assert(log0.subrange(0, log0.len() as int) =~= log0);
        let mut all = true;
        let mut n: usize = 0;
        while n < keep.len()
            invariant
                self.wf(),
                self.base() == old(self).base(),
                n <= keep.len(),
                kept == kept_of(keep@),
                log0 == old(self).log(),
                self@ == old(self)@.placed_upto(kept, n as int),
                all <==> forall|m: int| 0 <= m < n ==> #[trigger] finds_bucket(old(self)@, kept, m),
                adds_quietly(log0, self.log()),
            decreases keep.len() - n,
        {
            let ghost log1 = self.log();
            let ghost was = all;
            let found = self.place(&keep[n]);
            proof {
                lemma_quietly_on(log0, log1, self.log());
                assert(kept[n as int] == keep@[n as int]@);
                assert(found == finds_bucket(old(self)@, kept, n as int));
            }
            if !found {
                all = false;
            }
            n += 1;
        }
        all
    }

    /// Carries entries over, each to the bucket it was in.
    fn seat_all(&mut self, from: &Vec<Keep>)
        requires
            old(self).wf(),
            forall|n: int| 0 <= n < from@.len() ==> 0 <= (#[trigger] from@[n])@.at < INDEX_SLOTS,
        ensures
            final(self).wf(),
            final(self).base() == old(self).base(),
            final(self)@ == old(self)@.seated_upto(
                kept_of(from@),
                from@.len() as int,
            ),
            adds_quietly(old(self).log(), final(self).log()),
    {
        let ghost ks = kept_of(from@);
        let ghost log0 = self.log();
        assert(log0.subrange(0, log0.len() as int) =~= log0);
        let mut n: usize = 0;
        while n < from.len()
            invariant
                self.wf(),
                self.base() == old(self).base(),
                n <= from.len(),
                forall|m: int|
                    0 <= m < from@.len() ==> 0 <= (#[trigger] from@[m])@.at < INDEX_SLOTS,
                ks == kept_of(from@),
                log0 == old(self).log(),
                self@ == old(self)@.seated_upto(ks, n as int),
                adds_quietly(log0, self.log()),
            decreases from.len() - n,
        {
            let ghost log1 = self.log();
            assert(from@[n as int]@.at == from@[n as int].at);
            self.seat(from[n].at, &from[n]);
            proof {
                lemma_quietly_on(log0, log1, self.log());
                assert(ks[n as int] == from@[n as int]@);
            }
            n += 1;
        }
    }

    /// Empties the index and the arena, and carries over `keep`; if there is no
    /// bucket for all of it, carries over `keep` and `gone`, each entry to the
    /// bucket it was in.
    fn rebuild(&mut self, keep: &Vec<Keep>, gone: &Vec<Keep>)
        requires
            old(self).wf(),
            forall|n: int| 0 <= n < keep@.len() ==> 0 <= (#[trigger] keep@[n])@.at < INDEX_SLOTS,
            forall|n: int| 0 <= n < gone@.len() ==> 0 <= (#[trigger] gone@[n])@.at < INDEX_SLOTS,
        ensures
            final(self).wf(),
            final(self).base() == old(self).base(),
            final(self)@ == rebuilt_with(old(self)@, kept_of(keep@), kept_of(gone@)),
            final(self)@.arena_seq == old(self)@.arena_seq,
            adds_quietly(old(self).log(), final(self).log()),
    {
        let ghost begun = self.log();
        let ghost kept = kept_of(keep@);
        let ghost rest = kept_of(gone@);
        self.wipe();
        let ghost log1 = self.log();
        let all = self.place_all(keep);
        proof {
            lemma_quietly_on(begun, log1, self.log());
            lemma_placed_counters(old(self)@.wiped(), kept, kept.len() as int);
        }
        if !all {
            let ghost log2 = self.log();
            self.wipe();
            let ghost log3 = self.log();
            let ghost wiped = self@;
            self.seat_all(keep);
            let ghost log4 = self.log();
            self.seat_all(gone);
            proof {
                lemma_quietly_on(begun, log2, log3);
                lemma_quietly_on(begun, log3, log4);
                lemma_quietly_on(begun, log4, self.log());
                lemma_seated_concat(wiped, kept, rest, rest.len() as int);
                lemma_seated_counters(wiped, kept + rest, (kept + rest).len() as int);
            }
        }
    }

    /// Rebuilds the arena and the index, dropping garbage and committed
    /// deletions. No key is lost: should an entry find no bucket in the new
    /// index, everything goes back to the bucket it was in, committed deletions
    /// too, and only garbage is dropped.
    ///
    /// Safe with respect to pointers that callers hold, because none of them
    /// aims into the arena: callers get private copies.
    pub fn compact(&mut self)
        requires
            old(self).wf(),
        ensures
            final(self).wf(),
            final(self).base() == old(self).base(),
            final(self)@ == old(self)@.compacted(),
            adds_enclosed(
                old(self).log(),
                final(self).log(),
                next_odd(old(self)@.arena_seq),
                next_even(next_odd(old(self)@.arena_seq)),
            ),
            old(self)@.sound() ==> by_deeds(old(self)@, old(self).log(), final(self).log()),
            old(self)@.sound() ==> compact_said(old(self)@, final(self)@),
    {
        proof {
            if self@.sound() {
                law_compact_said(self@);
            }
        }
        // Copy everything there is before touching the arena.
        let keep = self.keep();
        let gone = self.gone();
        let ghost log0 = self.log();
        self.arena_begin();
        let ghost begun = self.log();
        self.rebuild(&keep, &gone);
        proof {
            lemma_whole(old(self)@);
        }
        let ghost log2 = self.log();
        self.arena_end();
        proof {
            assert(self@ == old(self)@.compacted()) by {
                reveal(Image::compacted);
            }
            assert(self.log().subrange(0, log0.len() as int) =~= log0) by {
                assert forall|j: int| 0 <= j < log0.len() implies #[trigger] self.log()[j]
                    == log0[j] by {
                    assert(log2.subrange(0, begun.len() as int)[j] == begun[j]);
                }
            }
            assert(log2.subrange(0, begun.len() as int)[log0.len() as int]
                == begun[log0.len() as int]);
            if old(self)@.sound() {
                law_compaction(old(self)@, Seq::empty());
                lemma_enclosed_deed(self.base(), old(self)@, log0, self.log());
            }
        }
    }

    /// Empties the store completely. The caller must hold the writer lock.
    pub fn clear(&mut self)
        requires
            old(self).wf(),
        ensures
            final(self).wf(),
            final(self).base() == old(self).base(),
            final(self)@ == old(self)@.cleared(),
            adds_clearing(old(self).log(), final(self).log(), old(self)@),
            by_deeds(old(self)@, old(self).log(), final(self).log()),
            clear_said(final(self)@),
    {
        proof {
            law_clear_said(self@);
        }
        let ghost start = self@;
        let ghost log0 = self.log();
        self.arena_begin();
        let ghost begun = self.log();
        self.wipe();
        let ghost log1 = self.log();
        self.arena_end();
        let ghost emptied = self@;
        let ghost log2 = self.log();
        proof {
            assert(log2.subrange(0, log0.len() as int) =~= log0) by {
                assert forall|j: int| 0 <= j < log0.len() implies #[trigger] log2[j]
                    == log0[j] by {
                    assert(log1.subrange(0, begun.len() as int)[j] == begun[j]);
                }
            }
            assert(log1.subrange(0, begun.len() as int)[log0.len() as int]
                == begun[log0.len() as int]);
            lemma_emptied(emptied);
            lemma_enclosed_deed(self.base(), start, log0, log2);
        }

        // Every value cached anywhere is now wrong. Deriving the parity here
        // rather than adding 2 also repairs any slot left odd by a writer that
        // died: nothing can be writing.
        let mut s: usize = 0;
        assert(log2.subrange(0, log2.len() as int) =~= log2);
        while s < SLOTS
            invariant
                self.wf(),
                self.base() == old(self).base(),
                s <= SLOTS,
                emptied.sized(),
                self@ == (Image { slots: self@.slots, ..emptied }),
                forall|k: int| 0 <= k < s ==> self@.slots[k] == next_even(emptied.slots[k]),
                forall|k: int| s <= k < SLOTS ==> self@.slots[k] == emptied.slots[k],
                self.log().len() == log2.len() + s,
                self.log().subrange(0, log2.len() as int) == log2,
                log0 == old(self).log(),
                start == old(self)@,
                self.base().replay(log0) == start,
                by_deeds(start, log0, self.log()),
                forall|k: int|
                    0 <= k < s ==> #[trigger] self.log()[log2.len() + k] == WriteView::Slot(
                        k,
                        next_even(emptied.slots[k]),
                    ),
            decreases SLOTS - s,
        {
            let ghost log3 = self.log();
            let v: u64 = self.header.slots[s];
            self.write(Write::Slot(s, Self::next_even(v)));
            proof {
                assert(self.log().subrange(0, log2.len() as int) =~= log3.subrange(
                    0,
                    log2.len() as int,
                ));
                lemma_one_store(
                    self.base(),
                    start,
                    log0,
                    log3,
                    WriteView::Slot(s as int, next_even(v)),
                );
            }
            s += 1;
        }
        let g: u64 = self.header.global_gen;
        let ghost log4 = self.log();
        self.write(Write::GlobalGen(g.wrapping_add(1)));
        proof {
            lemma_one_store(
                self.base(),
                start,
                log0,
                log4,
                WriteView::GlobalGen(g.wrapping_add(1)),
            );
        }
        assert(self.log().subrange(0, log2.len() as int) =~= log4.subrange(0, log2.len() as int));
        assert(self@ =~= start.cleared());
    }
}

/// The bytes of a key and of a value.
pub open spec fn pair_of(kv: (Vec<u8>, Vec<u8>)) -> (Seq<u8>, Seq<u8>) {
    (kv.0@, kv.1@)
}

/// The bytes of a list of keys and values.
pub open spec fn pairs_of(kvs: Seq<(Vec<u8>, Vec<u8>)>) -> Seq<(Seq<u8>, Seq<u8>)> {
    kvs.map_values(|kv: (Vec<u8>, Vec<u8>)| pair_of(kv))
}

/// The bytes of a list of keys, each with a length.
pub open spec fn lens_of(qs: Seq<(Vec<u8>, u32)>) -> Seq<(Seq<u8>, u32)> {
    qs.map_values(|q: (Vec<u8>, u32)| (q.0@, q.1))
}

/// What a list of `Pending`s stands for.
pub open spec fn pending_of(ps: Seq<Pending>) -> Seq<PendingView> {
    ps.map_values(|p: Pending| p@)
}

impl Segment {
    // ------------------------------------------------------- publication --

    /// Whether the segment has been published.
    pub fn is_ready(&self) -> (r: bool)
        ensures
            r == (self@.ready != 0),
    {
        self.header.ready != 0
    }

    /// Whether this process may use the segment: it is ready, has the layout
    /// of this library, and describes the filesystem that the store is on now,
    /// whose device number is `dev`. A segment built before the store was
    /// mounted describes a directory that the mount has since shadowed.
    pub fn validate(&self, dev: Option<u64>) -> (r: Result<(), ()>)
        ensures
            r is Ok <==> self@.usable(dev),
    {
        if self.header.ready == 0 {
            return Err(());
        }
        if self.header.magic != SHM_MAGIC || self.header.version != SHM_VERSION {
            return Err(());
        }
        match dev {
            Some(d) => if d == self.header.store_dev {
                Ok(())
            } else {
                Err(())
            },
            None => Err(()),
        }
    }

    /// Fills in the header of a zeroed segment that is going to be populated
    /// from the filesystem with device number `dev`.
    pub fn init_header(&mut self, dev: u64)
        requires
            old(self).wf(),
        ensures
            final(self).wf(),
            final(self).base() == old(self).base(),
            final(self)@ == old(self)@.with_header(dev),
            final(self).log() == old(self).log().push(WriteView::Magic(SHM_MAGIC)).push(
                WriteView::Version(SHM_VERSION),
            ).push(WriteView::StoreDev(dev)).push(WriteView::ArenaUsed(0)).push(
                WriteView::ArenaGarbage(0),
            ),
    {
        self.write(Write::Magic(SHM_MAGIC));
        self.write(Write::Version(SHM_VERSION));
        self.write(Write::StoreDev(dev));
        self.write(Write::ArenaUsed(0));
        self.write(Write::ArenaGarbage(0));
    }

    /// Publishes the segment: the last store of its creator.
    pub fn publish(&mut self)
        requires
            old(self).wf(),
        ensures
            final(self).wf(),
            final(self).base() == old(self).base(),
            final(self)@ == (Image { ready: 1, ..old(self)@ }),
            final(self).log() == old(self).log().push(WriteView::Ready(1)),
    {
        self.write(Write::Ready(1));
    }

    // ------------------------------------------------------- enumeration --

    /// Every live key and its value, in index order. The caller must hold the
    /// writer lock, which is what makes the list consistent.
    pub fn for_each_live(&self) -> (out: Vec<(Vec<u8>, Vec<u8>)>)
        requires
            self.wf(),
        ensures
            pairs_of(out@) == self@.live(),
    {
        let mut out: Vec<(Vec<u8>, Vec<u8>)> = Vec::new();
        let mut i: usize = 0;
        assert(pairs_of(out@) =~= self@.live_upto(0));
        while i < INDEX_SLOTS
            invariant
                self.wf(),
                i <= INDEX_SLOTS,
                pairs_of(out@) == self@.live_upto(i as int),
            decreases INDEX_SLOTS - i,
        {
            let e = self.index[i];
            assert(e == self@.index[i as int]);
            i += 1;
            if e.state != ST_LIVE {
                continue;
            }
            let key = match self.arena_slice(e.key_off, e.key_len) {
                Some(k) => k,
                None => {
                    continue;
                },
            };
            let val = match self.arena_slice(e.val_off, e.val_len) {
                Some(v) => v,
                None => {
                    continue;
                },
            };
            let ghost before = out@;
            let ghost kv = (key@, val@);
            assert(self@.live_at(i - 1) == Some(kv));
            out.push((key, val));
            assert(pairs_of(out@) =~= pairs_of(before).push(kv));
        }
        out
    }

    // ------------------------------------------------------------ commit --

    /// The keys whose files a commit has to look at, each with the length that
    /// its file should have: the live ones that owe the disk nothing. Looking
    /// is what lets a commit re-establish a store that something else changed.
    /// The caller must hold the writer lock.
    pub fn commit_queries(&self) -> (out: Vec<(Vec<u8>, u32)>)
        requires
            self.wf(),
        ensures
            lens_of(out@) == self@.queries(),
    {
        let mut out: Vec<(Vec<u8>, u32)> = Vec::new();
        let mut i: usize = 0;
        assert(lens_of(out@) =~= self@.queries_upto(0));
        while i < INDEX_SLOTS
            invariant
                self.wf(),
                i <= INDEX_SLOTS,
                lens_of(out@) == self@.queries_upto(i as int),
            decreases INDEX_SLOTS - i,
        {
            let e = self.index[i];
            assert(e == self@.index[i as int]);
            let dirty = (e.flags & FL_DIRTY) != 0;
            i += 1;
            if e.state != ST_LIVE || dirty {
                continue;
            }
            let key = match self.arena_slice(e.key_off, e.key_len) {
                Some(k) => k,
                None => {
                    continue;
                },
            };
            let ghost before = out@;
            let ghost q = (key@, e.val_len);
            assert(self@.query_at(i - 1) == Some(q));
            out.push((key, e.val_len));
            assert(lens_of(out@) =~= lens_of(before).push(q));
        }
        out
    }

    /// Collects everything the on-disk store owes. `stale` answers
    /// `commit_queries`: whether the file of that key is not what it should
    /// be. The caller must hold the writer lock.
    ///
    /// Only values that are going to be written are copied; in a steady state
    /// that is a handful rather than the whole store.
    pub fn commit_snapshot(&self, stale: &[bool]) -> (out: Vec<Pending>)
        requires
            self.wf(),
            stale@.len() == self@.queries().len(),
        ensures
            pending_of(out@) == self@.pending(stale@),
    {
        let mut out: Vec<Pending> = Vec::new();
        let mut asked: usize = 0;
        let mut i: usize = 0;
        assert(pending_of(out@) =~= self@.pending_upto(stale@, 0));
        while i < INDEX_SLOTS
            invariant
                self.wf(),
                i <= INDEX_SLOTS,
                stale@.len() == self@.queries().len(),
                asked == self@.queries_upto(i as int).len(),
                pending_of(out@) == self@.pending_upto(stale@, i as int),
            decreases INDEX_SLOTS - i,
        {
            let e = self.index[i];
            assert(e == self@.index[i as int]);
            let dirty = (e.flags & FL_DIRTY) != 0;
            let ghost answer = stale@[asked as int];
            proof {
                lemma_queries_grow(self@, i + 1, INDEX_SLOTS as int);
            }
            i += 1;
            if e.state == ST_EMPTY || (e.state == ST_TOMB && !dirty) {
                continue;
            }
            let key = match self.arena_slice(e.key_off, e.key_len) {
                Some(k) => k,
                None => {
                    continue;
                },
            };
            let hash: u64 = fnv1a(key.as_slice());
            let seen: u64 = self.slot_value(self.slot_of(hash));
            let val = if e.state == ST_LIVE {
                let mut wanted = dirty;
                if !dirty {
                    wanted = stale[asked];
                    asked += 1;
                }
                if !wanted {
                    continue;
                }
                match self.arena_slice(e.val_off, e.val_len) {
                    Some(v) => Some(v),
                    None => {
                        continue;
                    },
                }
            } else {
                None
            };
            let p = Pending { key, val, hash, seen };
            assert(self@.pending_at(i - 1, answer) == Some(p@));
            let ghost before = out@;
            out.push(p);
            assert(pending_of(out@) =~= pending_of(before).push(p@));
        }
        out
    }

    /// Clears the flag of every entry that has not changed since its snapshot
    /// was taken. The caller must hold the writer lock.
    ///
    /// The files are written without the writer lock, so a key can be set
    /// again while its old value is on its way to disk; clearing the flag
    /// regardless would strand the new value in memory. An unchanged counter
    /// says that no such write landed. Keys that share a counter make each
    /// other look changed, which costs a redundant write and never a lost one.
    pub fn commit_writeback(&mut self, done: &[Pending])
        requires
            old(self).wf(),
        ensures
            final(self).wf(),
            final(self).base() == old(self).base(),
            final(self)@ == old(self)@.retired_upto(pending_of(done@), done@.len() as int),
            final(self).log() == old(self).log() + old(self)@.retire_writes_upto(
                pending_of(done@),
                done@.len() as int,
            ),
            by_deeds(old(self)@, old(self).log(), final(self).log()),
    {
        assert(self.log() =~= self.log() + self@.retire_writes_upto(pending_of(done@), 0));
        proof {
            lemma_no_deed(self@, self.log());
        }
        let ghost ps = pending_of(done@);
        let mut n: usize = 0;
        while n < done.len()
            invariant
                self.wf(),
                self.base() == old(self).base(),
                n <= done.len(),
                ps == pending_of(done@),
                self@ == old(self)@.retired_upto(ps, n as int),
                self.log() == old(self).log() + old(self)@.retire_writes_upto(ps, n as int),
                by_deeds(old(self)@, old(self).log(), self.log()),
                self.base().replay(old(self).log()) == old(self)@,
            decreases done.len() - n,
        {
            let ghost log1 = self.log();
            let p = &done[n];
            let ghost paid = self@.retire_writes(p@);
            assert(ps[n as int] == p@);
            assert(log1 + paid =~= old(self).log() + old(self)@.retire_writes_upto(ps, n + 1));
            n += 1;
            if self.slot_value(self.slot_of(p.hash)) != p.seen {
                assert(log1 + paid =~= log1);
                continue;
            }
            // A compaction between the two phases moves entries about, and
            // carries their flags with them.
            match self.probe(p.key.as_slice(), p.hash) {
                Some((i, true)) => {
                    let flags: u32 = self.index[i].flags;
                    proof {
                        lemma_probe_from(self@, p.key@, p.hash, 0, None);
                        let d = choose|d: int| #[trigger]
                            finds(self@, p.key@, p.hash, 0, i as int, d);
                        lemma_bucket_range(p.hash, d);
                    }
                    self.write(Write::Flags(i, flags & !FL_DIRTY));
                    proof {
                        lemma_one_store(
                            self.base(),
                            old(self)@,
                            old(self).log(),
                            log1,
                            WriteView::Flags(i as int, flags & !FL_DIRTY),
                        );
                    }
                    assert(self.log() =~= log1 + paid);
                },
                _ => {
                    assert(log1 + paid =~= log1);
                },
            }
        }
    }
}

/// The list of files to look at grows with the entries looked at.
proof fn lemma_queries_grow(img: Image, n: int, m: int)
    requires
        0 <= n <= m,
    ensures
        img.queries_upto(n).len() <= img.queries_upto(m).len(),
    decreases m - n,
{
    if n < m {
        lemma_queries_grow(img, n, m - 1);
    }
}

/// Stores to an entry leave the counters alone.
proof fn lemma_plain_counters(img: Image, ws: Seq<WriteView>)
    requires
        forall|j: int|
            0 <= j < ws.len() ==> !(#[trigger] ws[j] is Slot) && !(ws[j] is GlobalGen),
    ensures
        img.replay(ws).slots == img.slots,
        img.replay(ws).global_gen == img.global_gen,
    decreases ws.len(),
{
    if ws.len() > 0 {
        assert forall|j: int| 0 <= j < ws.drop_last().len() implies !(
        #[trigger] ws.drop_last()[j] is Slot) && !(ws.drop_last()[j] is GlobalGen) by {
            assert(ws[j] == ws.drop_last()[j]);
        }
        lemma_plain_counters(img, ws.drop_last());
        assert(ws[ws.len() - 1] == ws.last());
    }
}

/// Making room does not touch the flag that publishes the segment.
proof fn lemma_room_unpublished(
    before: Seq<WriteView>,
    after: Seq<WriteView>,
    img: Image,
    need: int,
)
    requires
        adds_room(before, after, img, need),
    ensures
        adds_unpublished(before, after),
{
    assert(before.subrange(0, before.len() as int) =~= before);
    if img.compacts(need) {
        assert forall|j: int| before.len() <= j < after.len() implies !(
        #[trigger] after[j] is Ready) by {
            if before.len() < j < after.len() - 1 {
                assert(is_content(after[j]));
            }
        }
    }
}

/// Stores to the contents, and more of them.
proof fn lemma_quietly_on(a: Seq<WriteView>, b: Seq<WriteView>, c: Seq<WriteView>)
    requires
        adds_quietly(a, b),
        adds_quietly(b, c),
    ensures
        adds_quietly(a, c),
{
    assert(c.subrange(0, a.len() as int) =~= c.subrange(0, b.len() as int).subrange(
        0,
        a.len() as int,
    ));
    assert forall|j: int| a.len() <= j < c.len() implies is_content(#[trigger] c[j]) by {
        if j < b.len() {
            assert(c.subrange(0, b.len() as int)[j] == c[j]);
            assert(is_content(b[j]));
        }
    }
}

/// The image after `kept` was carried over into it, emptied, or `kept` and `gone`
/// to the buckets they were in if there is no bucket for all of `kept`.
spec fn rebuilt_with(img: Image, kept: Seq<KeptView>, gone: Seq<KeptView>) -> Image {
    let tried = img.wiped().placed_upto(kept, kept.len() as int);
    if forall|m: int| 0 <= m < kept.len() ==> #[trigger] finds_bucket(img.wiped(), kept, m) {
        tried
    } else {
        tried.wiped().seated_upto(kept + gone, (kept + gone).len() as int)
    }
}

/// There is a bucket for the `m`-th of `ks`, carried over into `img` in order.
spec fn finds_bucket(img: Image, ks: Seq<KeptView>, m: int) -> bool {
    img.placed_upto(ks, m).probe(ks[m].key, fnv(ks[m].key)) is Some
}

proof fn lemma_whole(img: Image)
    ensures
        img.whole() <==> forall|m: int|
            0 <= m < img.kept().len() ==> #[trigger] finds_bucket(img.emptied(), img.kept(), m),
{
    reveal(Image::fits_back);
    assert forall|m: int| #[trigger] img.fits_back(m) == finds_bucket(
        img.emptied(),
        img.kept(),
        m,
    ) by {}
    if img.whole() {
        assert forall|m: int| 0 <= m < img.kept().len() implies #[trigger] finds_bucket(
            img.emptied(),
            img.kept(),
            m,
        ) by {
            assert(img.fits_back(m));
        }
    }
}

proof fn lemma_seated_prefix(img: Image, a: Seq<KeptView>, b: Seq<KeptView>, n: int)
    requires
        n <= a.len(),
    ensures
        img.seated_upto(a + b, n) == img.seated_upto(a, n),
    decreases n,
{
    if n > 0 {
        lemma_seated_prefix(img, a, b, n - 1);
        assert((a + b)[n - 1] == a[n - 1]);
    }
}

proof fn lemma_seated_concat(img: Image, a: Seq<KeptView>, b: Seq<KeptView>, n: int)
    requires
        0 <= n <= b.len(),
    ensures
        img.seated_upto(a + b, a.len() + n) == img.seated_upto(a, a.len() as int).seated_upto(
            b,
            n,
        ),
    decreases n,
{
    if n > 0 {
        lemma_seated_concat(img, a, b, n - 1);
        assert((a + b)[a.len() + n - 1] == b[n - 1]);
    } else {
        lemma_seated_prefix(img, a, b, a.len() as int);
    }
}

proof fn lemma_seated_counters(img: Image, ks: Seq<KeptView>, n: int)
    ensures
        img.seated_upto(ks, n).arena_seq == img.arena_seq,
    decreases n,
{
    if n > 0 {
        lemma_seated_counters(img, ks, n - 1);
    }
}

/// Carrying entries over leaves the arena's counter alone.
proof fn lemma_placed_counters(img: Image, ks: Seq<KeptView>, n: int)
    ensures
        img.placed_upto(ks, n).arena_seq == img.arena_seq,
    decreases n,
{
    if n > 0 {
        lemma_placed_counters(img, ks, n - 1);
    }
}

/// Whether two byte strings are the same.
pub fn bytes_eq(a: &[u8], b: &[u8]) -> (r: bool)
    ensures
        r == (a@ == b@),
{
    if a.len() != b.len() {
        return false;
    }
    let mut k: usize = 0;
    while k < a.len()
        invariant
            k <= a.len(),
            a.len() == b.len(),
            forall|m: int| 0 <= m < k ==> a[m] == b[m],
        decreases a.len() - k,
    {
        if a[k] != b[k] {
            assert(a@[k as int] != b@[k as int]);
            return false;
        }
        k += 1;
    }
    assert(a@ =~= b@);
    true
}

/// The contents of a segment that is all zeros.
pub open spec fn zeroed_image() -> Image {
    Image {
        magic: 0,
        version: 0,
        ready: 0,
        store_dev: 0,
        arena_seq: 0,
        global_gen: 0,
        arena_used: 0,
        arena_garbage: 0,
        slots: Seq::new(SLOTS as nat, |i: int| 0u64),
        index: Seq::new(INDEX_SLOTS as nat, |i: int| empty_entry()),
        arena: Seq::new(ARENA_SIZE as nat, |i: int| 0u8),
    }
}

/// Stores `bytes` into `arena` from `off` on.
fn store_bytes(arena: &mut Vec<u8>, off: usize, bytes: &Vec<u8>)
    requires
        off + bytes.len() <= old(arena).len(),
    ensures
        final(arena)@ == splice(old(arena)@, off as int, bytes@),
{
    let mut k: usize = 0;
    while k < bytes.len()
        invariant
            k <= bytes.len(),
            off + bytes.len() <= arena.len(),
            arena@ == splice(old(arena)@, off as int, bytes@.subrange(0, k as int)),
        decreases bytes.len() - k,
    {
        arena.set(off + k, bytes[k]);
        k += 1;
        assert(arena@ =~= splice(old(arena)@, off as int, bytes@.subrange(0, k as int)));
    }
    assert(bytes@.subrange(0, k as int) =~= bytes@);
}

} // verus!
