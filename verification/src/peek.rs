//! Reading a key of the shared segment without a lock.
//!
//! A look loads the counters, goes through the entries that a search for the key
//! gets to, loads the bytes of those that carry its hash, and loads the counters
//! again. It loads no more of the segment than that.

use vstd::prelude::*;
use vstd::slice::slice_to_vec;

use crate::consts::{ARENA_SIZE, INDEX_SLOTS, MAX_PROBES, SLOTS};
use crate::hash::{fnv, fnv1a};
use crate::image::{bucket, empty_entry, slot_for, Image, IndexEntry, ReadView, ST_EMPTY, ST_LIVE};
use crate::shm::{bytes_eq, bytes_of, Read};
use crate::sound::lemma_bucket_range;

verus! {

/// What a look is to load next.
#[derive(Clone, Copy, Debug, PartialEq, Eq, Structural)]
pub enum PeekStep {
    /// The counter of the key's slot, and that of the arena.
    Counters,
    /// An entry of the index.
    Entry(usize),
    /// Bytes of the arena that may be the key.
    Key { off: usize, len: usize },
    /// Bytes of the arena that are the value.
    Value { off: usize, len: usize },
    /// The counters again.
    Recheck,
    /// Nothing: the look is over.
    Finish,
}

/// What a look loaded.
#[derive(Debug)]
pub enum PeekEvent {
    /// The counter of the key's slot, and that of the arena.
    Counters(u64, u64),
    /// The entry.
    Entry(IndexEntry),
    /// The bytes.
    Bytes(Vec<u8>),
}

/// What a look loaded.
pub enum PeekEventView {
    Counters(u64, u64),
    Entry(IndexEntry),
    Bytes(Seq<u8>),
}

impl View for PeekEvent {
    type V = PeekEventView;

    open spec fn view(&self) -> PeekEventView {
        match self {
            PeekEvent::Counters(s, a) => PeekEventView::Counters(*s, *a),
            PeekEvent::Entry(e) => PeekEventView::Entry(*e),
            PeekEvent::Bytes(b) => PeekEventView::Bytes(b@),
        }
    }
}

/// A look in progress.
#[derive(Debug)]
pub struct PeekOp {
    key: Vec<u8>,
    hash: u64,
    before: u64,
    arena: u64,
    probe: usize,
    entry: IndexEntry,
    value: Option<Vec<u8>>,
    torn: bool,
    at: PeekStep,
}

/// The state of a look.
#[verifier::ext_equal]
pub struct PeekView {
    pub key: Seq<u8>,
    /// The counters loaded first.
    pub before: u64,
    pub arena: u64,
    /// How many buckets were passed.
    pub probe: int,
    /// The entry loaded last.
    pub entry: IndexEntry,
    /// The value, if one was found.
    pub value: Option<Seq<u8>>,
    /// A writer was active, or what was loaded cannot be right.
    pub torn: bool,
    pub at: PeekStep,
}

impl View for PeekOp {
    type V = PeekView;

    closed spec fn view(&self) -> PeekView {
        PeekView {
            key: self.key@,
            before: self.before,
            arena: self.arena,
            probe: self.probe as int,
            entry: self.entry,
            value: bytes_of(self.value),
            torn: self.torn,
            at: self.at,
        }
    }
}

/// Whether bytes from `off` on, `len` of them, lie inside the arena.
pub open spec fn inside(off: u32, len: u32) -> bool {
    off + len <= ARENA_SIZE
}

impl PeekView {
    /// What the look concludes.
    pub open spec fn result(self) -> ReadView {
        if self.torn {
            ReadView::Torn
        } else {
            match self.value {
                Some(v) => ReadView::Value(v),
                None => ReadView::Absent,
            }
        }
    }

    /// What was loaded fits the step.
    pub open spec fn expects(self, ev: PeekEventView) -> bool {
        match self.at {
            PeekStep::Counters => ev is Counters,
            PeekStep::Entry(_) => ev is Entry && self.probe < MAX_PROBES,
            PeekStep::Key { off, len } => ev is Bytes && self.probe < MAX_PROBES,
            PeekStep::Value { off, len } => ev is Bytes,
            PeekStep::Recheck => ev is Counters,
            PeekStep::Finish => false,
        }
    }

    /// The look at another step.
    pub open spec fn to(self, at: PeekStep) -> PeekView {
        PeekView { at, ..self }
    }

    /// The look on its way to bucket `probe` of the search.
    pub open spec fn probing(self, probe: int) -> PeekView {
        PeekView {
            probe,
            at: if probe < MAX_PROBES {
                PeekStep::Entry(bucket(fnv(self.key), probe) as usize)
            } else {
                PeekStep::Recheck
            },
            ..self
        }
    }

    /// The look after something was loaded.
    pub open spec fn next(self, ev: PeekEventView) -> PeekView {
        match (self.at, ev) {
            (PeekStep::Counters, PeekEventView::Counters(s, a)) => if s % 2 == 1 || a % 2 == 1 {
                PeekView { torn: true, ..self.to(PeekStep::Finish) }
            } else {
                (PeekView { before: s, arena: a, ..self }).probing(0)
            },
            (PeekStep::Entry(_), PeekEventView::Entry(e)) => {
                let seen = PeekView { entry: e, ..self };
                if e.state == ST_EMPTY {
                    seen.to(PeekStep::Recheck)
                } else if e.hash == fnv(self.key) && inside(e.key_off, e.key_len) {
                    seen.to(PeekStep::Key { off: e.key_off as usize, len: e.key_len as usize })
                } else {
                    seen.probing(self.probe + 1)
                }
            },
            (PeekStep::Key { off, len }, PeekEventView::Bytes(b)) => {
                let e = self.entry;
                if b != self.key {
                    self.probing(self.probe + 1)
                } else if e.state != ST_LIVE {
                    self.to(PeekStep::Recheck)
                } else if inside(e.val_off, e.val_len) {
                    self.to(PeekStep::Value { off: e.val_off as usize, len: e.val_len as usize })
                } else {
                    PeekView { torn: true, ..self.to(PeekStep::Finish) }
                }
            },
            (PeekStep::Value { off, len }, PeekEventView::Bytes(b)) => PeekView {
                value: Some(b),
                ..self.to(PeekStep::Recheck)
            },
            (PeekStep::Recheck, PeekEventView::Counters(s, a)) => PeekView {
                torn: s != self.before || a != self.arena,
                ..self.to(PeekStep::Finish)
            },
            _ => self,
        }
    }
}

/// A look that starts.
pub open spec fn peek_start(key: Seq<u8>) -> PeekView {
    PeekView {
        key,
        before: 0,
        arena: 0,
        probe: 0,
        entry: empty_entry(),
        value: None,
        torn: false,
        at: PeekStep::Counters,
    }
}

impl PeekOp {
    /// The hash is that of the key.
    pub closed spec fn wf(self) -> bool {
        self.hash == fnv(self.key@)
    }

    /// Starts a look at `key`.
    pub fn new(key: &[u8]) -> (op: PeekOp)
        ensures
            op.wf(),
            op@ == peek_start(key@),
    {
        PeekOp {
            key: slice_to_vec(key),
            hash: fnv1a(key),
            before: 0,
            arena: 0,
            probe: 0,
            entry: IndexEntry {
                hash: 0,
                key_off: 0,
                key_len: 0,
                val_off: 0,
                val_len: 0,
                state: ST_EMPTY,
                flags: 0,
            },
            value: None,
            torn: false,
            at: PeekStep::Counters,
        }
    }

    /// What to load now.
    pub fn now(&self) -> (r: PeekStep)
        ensures
            r == self@.at,
    {
        self.at
    }

    /// The slot of the key.
    pub fn slot(&self) -> (r: usize)
        requires
            self.wf(),
        ensures
            r == slot_for(fnv(self@.key)),
            r < SLOTS,
    {
        (self.hash % SLOTS as u64) as usize
    }

    /// What the look concludes.
    pub fn read(self) -> (r: Read)
        ensures
            r@ == self@.result(),
    {
        if self.torn {
            Read::Torn
        } else {
            match self.value {
                Some(v) => Read::Value(v),
                None => Read::Absent,
            }
        }
    }

    fn probe(&mut self, probe: usize)
        requires
            old(self).wf(),
            probe <= MAX_PROBES,
        ensures
            final(self).wf(),
            final(self)@ == old(self)@.probing(probe as int),
    {
        self.probe = probe;
        self.at = if probe < MAX_PROBES {
            let home: usize = (self.hash % INDEX_SLOTS as u64) as usize;
            PeekStep::Entry((home + probe) % INDEX_SLOTS)
        } else {
            PeekStep::Recheck
        };
    }

    /// Takes what was loaded, and says what to load next.
    pub fn step(&mut self, ev: PeekEvent) -> (r: PeekStep)
        requires
            old(self).wf(),
            old(self)@.expects(ev@),
        ensures
            final(self).wf(),
            final(self)@ == old(self)@.next(ev@),
            r == final(self)@.at,
            match r {
                PeekStep::Entry(i) => i < INDEX_SLOTS,
                PeekStep::Key { off, len } => off + len <= ARENA_SIZE,
                PeekStep::Value { off, len } => off + len <= ARENA_SIZE,
                _ => true,
            },
    {
        match ev {
            PeekEvent::Counters(s, a) => {
                if let PeekStep::Recheck = self.at {
                    self.torn = s != self.before || a != self.arena;
                    self.at = PeekStep::Finish;
                } else if s % 2 == 1 || a % 2 == 1 {
                    self.torn = true;
                    self.at = PeekStep::Finish;
                } else {
                    self.before = s;
                    self.arena = a;
                    self.probe(0);
                }
            },
            PeekEvent::Entry(e) => {
                self.entry = e;
                if e.state == ST_EMPTY {
                    self.at = PeekStep::Recheck;
                } else if e.hash == self.hash && e.key_off as usize <= ARENA_SIZE
                    && e.key_len as usize <= ARENA_SIZE - e.key_off as usize {
                    self.at = PeekStep::Key { off: e.key_off as usize, len: e.key_len as usize };
                } else {
                    self.probe(self.probe + 1);
                }
            },
            PeekEvent::Bytes(b) => {
                if let PeekStep::Key { off, len } = self.at {
                    let e = self.entry;
                    if !bytes_eq(b.as_slice(), self.key.as_slice()) {
                        self.probe(self.probe + 1);
                    } else if e.state != ST_LIVE {
                        self.at = PeekStep::Recheck;
                    } else if e.val_off as usize <= ARENA_SIZE && e.val_len as usize <= ARENA_SIZE
                        - e.val_off as usize {
                        self.at = PeekStep::Value {
                            off: e.val_off as usize,
                            len: e.val_len as usize,
                        };
                    } else {
                        self.torn = true;
                        self.at = PeekStep::Finish;
                    }
                } else {
                    self.value = Some(b);
                    self.at = PeekStep::Recheck;
                }
            },
        }
        self.at
    }
}

// -------------------------------------------------------------------- laws --

/// What a look is answered that sees the segment as `seen`, and finds the
/// counters `slot_after` and `arena_after` when it loads them again.
pub open spec fn peek_answer(
    op: PeekView,
    seen: Image,
    slot_after: u64,
    arena_after: u64,
) -> PeekEventView {
    match op.at {
        PeekStep::Counters => PeekEventView::Counters(
            seen.slots[slot_for(fnv(op.key))],
            seen.arena_seq,
        ),
        PeekStep::Entry(i) => PeekEventView::Entry(seen.index[i as int]),
        PeekStep::Key { off, len } => PeekEventView::Bytes(
            seen.arena.subrange(off as int, off + len),
        ),
        PeekStep::Value { off, len } => PeekEventView::Bytes(
            seen.arena.subrange(off as int, off + len),
        ),
        _ => PeekEventView::Counters(slot_after, arena_after),
    }
}

/// A look after `n` such answers.
pub open spec fn peeked(
    key: Seq<u8>,
    seen: Image,
    slot_after: u64,
    arena_after: u64,
    n: nat,
) -> PeekView
    decreases n,
{
    if n == 0 {
        peek_start(key)
    } else {
        let op = peeked(key, seen, slot_after, arena_after, (n - 1) as nat);
        op.next(peek_answer(op, seen, slot_after, arena_after))
    }
}

/// The bucket that holds `key`, by a search from step `j` on.
pub open spec fn found_from(img: Image, key: Seq<u8>, j: int) -> Option<int>
    decreases MAX_PROBES - j,
{
    let i = bucket(fnv(key), j);
    if j >= MAX_PROBES || img.index[i].state == ST_EMPTY {
        None
    } else if img.matches(i, key, fnv(key)) {
        Some(i)
    } else {
        found_from(img, key, j + 1)
    }
}

proof fn lemma_found_from(img: Image, key: Seq<u8>, j: int, free: Option<int>)
    requires
        0 <= j <= MAX_PROBES,
    ensures
        match found_from(img, key, j) {
            Some(i) => img.probe_from(key, fnv(key), j, free) == Some((i, true)),
            None => !(img.probe_from(key, fnv(key), j, free) matches Some((_, true))),
        },
    decreases MAX_PROBES - j,
{
    let i = bucket(fnv(key), j);
    if j < MAX_PROBES && img.index[i].state != ST_EMPTY && !img.matches(i, key, fnv(key)) {
        lemma_found_from(img, key, j + 1, free);
        lemma_found_from(img, key, j + 1, Some(i));
    }
}

/// How many more answers a look takes at most.
pub open spec fn peek_left(op: PeekView) -> int {
    match op.at {
        PeekStep::Counters => 2 * MAX_PROBES + 3,
        PeekStep::Entry(_) => 2 * (MAX_PROBES - op.probe) + 2,
        PeekStep::Key { off, len } => 2 * (MAX_PROBES - op.probe) + 1,
        PeekStep::Value { off, len } => 2,
        PeekStep::Recheck => 1,
        PeekStep::Finish => 0,
    }
}

/// Where a look is on its way through `seen`.
pub open spec fn peeking(op: PeekView, seen: Image, slot_after: u64, arena_after: u64) -> bool {
    let hash = fnv(op.key);
    let found = found_from(seen, op.key, 0);
    let settled = {
        &&& op.before == seen.slots[slot_for(hash)]
        &&& op.arena == seen.arena_seq
        &&& op.before % 2 == 0
        &&& op.arena % 2 == 0
        &&& !op.torn
    };
    match op.at {
        PeekStep::Counters => op == peek_start(op.key),
        PeekStep::Entry(i) => {
            &&& settled
            &&& op.value is None
            &&& 0 <= op.probe < MAX_PROBES
            &&& i == bucket(hash, op.probe)
            &&& found == found_from(seen, op.key, op.probe)
        },
        PeekStep::Key { off, len } => {
            &&& settled
            &&& op.value is None
            &&& 0 <= op.probe < MAX_PROBES
            &&& op.entry == seen.index[bucket(hash, op.probe)]
            &&& op.entry.state != ST_EMPTY
            &&& op.entry.hash == hash
            &&& off == op.entry.key_off
            &&& len == op.entry.key_len
            &&& inside(op.entry.key_off, op.entry.key_len)
            &&& found == found_from(seen, op.key, op.probe)
        },
        PeekStep::Value { off, len } => {
            &&& settled
            &&& op.value is None
            &&& found matches Some(i) && op.entry == seen.index[i] && op.entry.state == ST_LIVE
            &&& off == op.entry.val_off
            &&& len == op.entry.val_len
            &&& inside(op.entry.val_off, op.entry.val_len)
        },
        PeekStep::Recheck => {
            &&& settled
            &&& match op.value {
                Some(v) => found matches Some(i) && seen.index[i].state == ST_LIVE && seen.val_at(i)
                    == Some(v),
                None => found matches Some(i) ==> seen.index[i].state != ST_LIVE,
            }
        },
        PeekStep::Finish => op.result() == seen.read(op.key, hash, slot_after, arena_after),
    }
}

proof fn lemma_peek_step(op: PeekView, seen: Image, slot_after: u64, arena_after: u64)
    requires
        peeking(op, seen, slot_after, arena_after),
        op.at != PeekStep::Finish,
    ensures
        op.expects(peek_answer(op, seen, slot_after, arena_after)),
        ({
            let op2 = op.next(peek_answer(op, seen, slot_after, arena_after));
            &&& op2.key == op.key
            &&& peeking(op2, seen, slot_after, arena_after)
            &&& peek_left(op2) < peek_left(op)
        }),
{
    let hash = fnv(op.key);
    lemma_found_from(seen, op.key, 0, None);
    lemma_bucket_range(hash, op.probe);
    if op.probe + 1 < MAX_PROBES {
        lemma_bucket_range(hash, op.probe + 1);
    }
    lemma_bucket_range(hash, 0);
}

/// A look that sees the segment as `seen` comes to the conclusion that `seen`
/// gives, after a bounded number of loads, each of them inside the segment.
pub proof fn law_peek(key: Seq<u8>, seen: Image, slot_after: u64, arena_after: u64, n: nat)
    ensures
        ({
            let op = peeked(key, seen, slot_after, arena_after, n);
            &&& op.key == key
            &&& op.at != PeekStep::Finish ==> op.expects(
                peek_answer(op, seen, slot_after, arena_after),
            ) && n < 2 * MAX_PROBES + 3
            &&& op.at == PeekStep::Finish ==> op.result() == seen.read(
                key,
                fnv(key),
                slot_after,
                arena_after,
            )
        }),
    decreases n,
{
    lemma_peeked(key, seen, slot_after, arena_after, n);
    let op = peeked(key, seen, slot_after, arena_after, n);
    if op.at != PeekStep::Finish {
        lemma_peek_step(op, seen, slot_after, arena_after);
    }
}

proof fn lemma_peeked(key: Seq<u8>, seen: Image, slot_after: u64, arena_after: u64, n: nat)
    ensures
        ({
            let op = peeked(key, seen, slot_after, arena_after, n);
            &&& op.key == key
            &&& peeking(op, seen, slot_after, arena_after)
            &&& op.at == PeekStep::Finish || peek_left(op) + n <= 2 * MAX_PROBES + 3
        }),
    decreases n,
{
    if n > 0 {
        lemma_peeked(key, seen, slot_after, arena_after, (n - 1) as nat);
        let op = peeked(key, seen, slot_after, arena_after, (n - 1) as nat);
        if op.at != PeekStep::Finish {
            lemma_peek_step(op, seen, slot_after, arena_after);
        }
    }
}

} // verus!
