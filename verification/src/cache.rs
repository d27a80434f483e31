//! This process's private copies of values.
//!
//! They exist for one reason: the bytes that a caller holds must stay where
//! they are. A pointer into the shared arena would rot the moment another
//! process triggered a compaction; a private copy does not. Only keys that
//! this process reads get one.

use vstd::prelude::*;
use vstd::slice::slice_to_vec;

use crate::hash::{fnv, fnv1a};
use crate::shm::{bytes_eq, bytes_of};

verus! {

/// One cached key.
///
/// Callers hold the bytes of `value`, so they are never changed in place. A
/// value that is replaced moves to `retired`, and is released one refresh
/// later.
#[derive(Debug)]
pub struct Entry {
    /// The value with a terminating zero byte, or nothing if the key is absent.
    value: Option<Vec<u8>>,
    /// The value before it.
    retired: Option<Vec<u8>>,
    /// The counter of the key's slot when the value was read.
    slot_seen: u64,
    /// False until the entry has been resolved against the segment.
    valid: bool,
}

/// What a cached key holds.
pub struct EntryView {
    pub value: Option<Seq<u8>>,
    pub retired: Option<Seq<u8>>,
    pub slot_seen: u64,
    pub valid: bool,
}

impl View for Entry {
    type V = EntryView;

    closed spec fn view(&self) -> EntryView {
        EntryView {
            value: bytes_of(self.value),
            retired: bytes_of(self.retired),
            slot_seen: self.slot_seen,
            valid: self.valid,
        }
    }
}

/// A value as callers see it: with a terminating zero byte.
pub open spec fn terminated(v: Option<Seq<u8>>) -> Option<Seq<u8>> {
    match v {
        Some(b) => Some(b.push(0)),
        None => None,
    }
}

impl EntryView {
    /// An entry that has not been resolved.
    pub open spec fn fresh() -> EntryView {
        EntryView { value: None, retired: None, slot_seen: 0, valid: false }
    }

    /// What is kept back when the value is replaced: the value, if there is
    /// one, and else what was kept back already.
    pub open spec fn last_handed_out(self) -> Option<Seq<u8>> {
        if self.value is Some {
            self.value
        } else {
            self.retired
        }
    }

    /// The entry with a value installed: a value that is the same stays where
    /// it is; any other replaces it, and what was handed out last is kept back.
    pub open spec fn installed(self, fresh: Option<Seq<u8>>, slot_seen: u64) -> EntryView {
        if self.value == terminated(fresh) {
            EntryView { slot_seen, valid: true, ..self }
        } else {
            EntryView {
                value: terminated(fresh),
                retired: self.last_handed_out(),
                slot_seen,
                valid: true,
            }
        }
    }

    /// The entry was resolved against the segment when the counter of its slot
    /// was `counter`.
    pub open spec fn current(self, counter: u64) -> bool {
        self.valid && self.slot_seen == counter
    }

    /// The entry after the whole cache was invalidated.
    pub open spec fn invalidated(self) -> EntryView {
        EntryView { value: None, retired: self.last_handed_out(), slot_seen: 0, valid: false }
    }
}

/// The buffers of an entry before and after a step: while the value is the same
/// the buffers are the very same; when another replaces it, the buffer that was
/// handed out last is kept back, as it is.
pub open spec fn keeps(was: Entry, now: Entry) -> bool {
    if now@.value == was@.value {
        now.buffer() == was.buffer() && now.retired_buffer() == was.retired_buffer()
    } else {
        now.retired_buffer() == if was@.value is Some {
            was.buffer()
        } else {
            was.retired_buffer()
        }
    }
}

impl Entry {
    /// An entry that has not been resolved.
    fn new() -> (e: Entry)
        ensures
            e@ == EntryView::fresh(),
            e.buffer() is None,
            e.retired_buffer() is None,
    {
        Entry { value: None, retired: None, slot_seen: 0, valid: false }
    }

    /// The buffer whose bytes callers hold.
    pub closed spec fn buffer(self) -> Option<Vec<u8>> {
        self.value
    }

    /// The buffer whose bytes callers were handed before.
    pub closed spec fn retired_buffer(self) -> Option<Vec<u8>> {
        self.retired
    }

    /// The buffers hold what the entry says.
    pub proof fn law_buffers(self)
        ensures
            self@.value == bytes_of(self.buffer()),
            self@.retired == bytes_of(self.retired_buffer()),
    {
    }

    /// The bytes handed to callers: terminated by a zero byte, or nothing when
    /// the key is absent.
    pub fn as_ptr(&self) -> (r: Option<&Vec<u8>>)
        ensures
            match r {
                Some(b) => self@.value == Some(b@) && self.buffer() == Some(*b),
                None => self@.value is None && self.buffer() is None,
            },
    {
        match &self.value {
            Some(v) => Some(v),
            None => None,
        }
    }

    /// The bytes handed out before those of `as_ptr`: still there, so that a
    /// caller can go on using them for a while.
    pub fn retired(&self) -> (r: Option<&Vec<u8>>)
        ensures
            match r {
                Some(b) => self@.retired == Some(b@) && self.retired_buffer() == Some(*b),
                None => self@.retired is None && self.retired_buffer() is None,
            },
    {
        match &self.retired {
            Some(v) => Some(v),
            None => None,
        }
    }

    /// Whether the entry was resolved against the segment when the counter of
    /// its slot was `counter`.
    pub fn is_current(&self, counter: u64) -> (r: bool)
        ensures
            r == self@.current(counter),
    {
        self.valid && self.slot_seen == counter
    }

    /// Makes the entry useless as a cache hit. Its value stays where it is.
    pub fn expire(&mut self)
        ensures
            final(self)@ == (EntryView { valid: false, ..old(self)@ }),
            keeps(*old(self), *final(self)),
    {
        self.valid = false;
    }

    /// Whether the entry holds exactly `val`.
    pub fn holds(&self, val: &[u8]) -> (r: bool)
        ensures
            r == (self@.value == Some(val@.push(0))),
    {
        match &self.value {
            Some(cur) => is_terminated(cur.as_slice(), val),
            None => false,
        }
    }

    /// Installs a freshly read value, keeping the bytes where they are when
    /// they are unchanged.
    pub fn install(&mut self, fresh: Option<Vec<u8>>, slot_seen: u64)
        ensures
            final(self)@ == old(self)@.installed(bytes_of(fresh), slot_seen),
            keeps(*old(self), *final(self)),
    {
        let unchanged = match (&self.value, &fresh) {
            (Some(cur), Some(new)) => is_terminated(cur.as_slice(), new.as_slice()),
            (None, None) => true,
            _ => false,
        };
        if !unchanged {
            let mut was: Option<Vec<u8>> = None;
            std::mem::swap(&mut was, &mut self.value);
            if was.is_some() {
                self.retired = was;
            }
            self.value = match fresh {
                Some(v) => {
                    let mut v = v;
                    v.push(0);
                    Some(v)
                },
                None => None,
            };
        }
        self.slot_seen = slot_seen;
        self.valid = true;
    }

    fn invalidate(&mut self)
        ensures
            final(self)@ == old(self)@.invalidated(),
            keeps(*old(self), *final(self)),
    {
        let mut was: Option<Vec<u8>> = None;
        std::mem::swap(&mut was, &mut self.value);
        if was.is_some() {
            self.retired = was;
        }
        self.valid = false;
        self.slot_seen = 0;
    }
}

/// Whether `cur` is `val` with a terminating zero byte.
fn is_terminated(cur: &[u8], val: &[u8]) -> (r: bool)
    ensures
        r == (cur@ == val@.push(0)),
{
    if cur.len() == 0 || cur.len() - 1 != val.len() || cur[cur.len() - 1] != 0 {
        proof {
            if cur@ == val@.push(0) {
                assert(cur@[cur@.len() - 1] == 0);
            }
        }
        return false;
    }
    let n: usize = val.len();
    let same = bytes_eq(vstd::slice::slice_subrange(cur, 0, n), val);
    proof {
        if same {
            assert(cur@ =~= val@.push(0)) by {
                assert forall|k: int| 0 <= k < cur@.len() implies cur@[k] == val@.push(0)[k] by {
                    if k < n {
                        assert(cur@.subrange(0, n as int)[k] == val@[k]);
                    }
                }
            }
        } else if cur@ == val@.push(0) {
            assert(cur@.subrange(0, n as int) =~= val@);
        }
    }
    same
}

/// Buckets that the cache spreads its keys over.
pub const CACHE_BUCKETS: usize = 1024;

/// A key and its entry.
#[derive(Debug)]
struct Cached {
    key: Vec<u8>,
    entry: Entry,
}

/// The cached keys of this process.
#[derive(Debug)]
pub struct Cache {
    buckets: Vec<Vec<Cached>>,
}

/// The bucket of a key.
spec fn spread(key: Seq<u8>) -> int {
    fnv(key) as int % CACHE_BUCKETS as int
}

/// Where `key` is in a bucket; its length if it is not there.
spec fn place(b: Seq<Cached>, key: Seq<u8>, from: int) -> int
    decreases b.len() - from,
{
    if from >= b.len() {
        b.len() as int
    } else if b[from].key@ == key {
        from
    } else {
        place(b, key, from + 1)
    }
}

proof fn lemma_place(b: Seq<Cached>, key: Seq<u8>, from: int, at: int)
    requires
        0 <= from <= at <= b.len(),
        forall|k: int| from <= k < at ==> (#[trigger] b[k]).key@ != key,
        at < b.len() ==> b[at].key@ == key,
    ensures
        place(b, key, from) == at,
    decreases at - from,
{
    if from < at {
        lemma_place(b, key, from + 1, at);
    }
}

proof fn lemma_place_range(b: Seq<Cached>, key: Seq<u8>, from: int)
    requires
        0 <= from <= b.len(),
    ensures
        from <= place(b, key, from) <= b.len(),
        place(b, key, from) < b.len() ==> b[place(b, key, from)].key@ == key,
        forall|k: int| from <= k < place(b, key, from) ==> (#[trigger] b[k]).key@ != key,
    decreases b.len() - from,
{
    if from < b.len() && b[from].key@ != key {
        lemma_place_range(b, key, from + 1);
    }
}

/// The entries in a list of buckets, by key.
spec fn held(buckets: Seq<Vec<Cached>>) -> Map<Seq<u8>, Entry> {
    Map::new(
        |key: Seq<u8>| place(buckets[spread(key)]@, key, 0) < buckets[spread(key)].len(),
        |key: Seq<u8>| buckets[spread(key)]@[place(buckets[spread(key)]@, key, 0)].entry,
    )
}

/// What the entries in a list of buckets hold, by key.
spec fn entries(buckets: Seq<Vec<Cached>>) -> Map<Seq<u8>, EntryView> {
    Map::new(
        |key: Seq<u8>| place(buckets[spread(key)]@, key, 0) < buckets[spread(key)].len(),
        |key: Seq<u8>| buckets[spread(key)]@[place(buckets[spread(key)]@, key, 0)].entry@,
    )
}

impl View for Cache {
    type V = Map<Seq<u8>, EntryView>;

    closed spec fn view(&self) -> Map<Seq<u8>, EntryView> {
        entries(self.buckets@)
    }
}

/// The entry of `key` in a cache: one that has not been resolved if there is
/// none.
pub open spec fn entry_in(cache: Map<Seq<u8>, EntryView>, key: Seq<u8>) -> EntryView {
    if cache.contains_key(key) {
        cache[key]
    } else {
        EntryView::fresh()
    }
}

/// What a step does to the buffers of a key: see `keeps`.
pub open spec fn cache_keeps(was: Cache, now: Cache, key: Seq<u8>) -> bool {
    let a = entry_in(was@, key).value;
    let b = entry_in(now@, key).value;
    if b == a {
        now.buffer(key) == was.buffer(key) && now.retired_buffer(key) == was.retired_buffer(key)
    } else {
        now.retired_buffer(key) == if a is Some {
            was.buffer(key)
        } else {
            was.retired_buffer(key)
        }
    }
}

impl Cache {
    /// The buffer whose bytes reads of `key` hand out.
    pub closed spec fn buffer(self, key: Seq<u8>) -> Option<Vec<u8>> {
        if held(self.buckets@).contains_key(key) {
            held(self.buckets@)[key].buffer()
        } else {
            None
        }
    }

    /// The buffer whose bytes reads of `key` handed out before.
    pub closed spec fn retired_buffer(self, key: Seq<u8>) -> Option<Vec<u8>> {
        if held(self.buckets@).contains_key(key) {
            held(self.buckets@)[key].retired_buffer()
        } else {
            None
        }
    }

    /// There are as many buckets as there should be.
    pub closed spec fn wf(self) -> bool {
        self.buckets.len() == CACHE_BUCKETS
    }

    /// A cache without entries.
    pub fn new() -> (c: Cache)
        ensures
            c.wf(),
            c@ == Map::<Seq<u8>, EntryView>::empty(),
    {
        let mut buckets: Vec<Vec<Cached>> = Vec::new();
        while buckets.len() < CACHE_BUCKETS
            invariant
                buckets.len() <= CACHE_BUCKETS,
                forall|b: int| 0 <= b < buckets.len() ==> (#[trigger] buckets[b]).len() == 0,
            decreases CACHE_BUCKETS - buckets.len(),
        {
            buckets.push(Vec::new());
        }
        let c = Cache { buckets };
        assert forall|key: Seq<u8>| !#[trigger] c@.contains_key(key) by {
            assert(c.buckets@[spread(key)].len() == 0);
        }
        assert(c@ =~= Map::<Seq<u8>, EntryView>::empty());
        c
    }

    /// Where `key` is: its bucket, and its place in the bucket if it has one.
    fn find(&self, key: &[u8]) -> (r: (usize, Option<usize>))
        requires
            self.wf(),
        ensures
            r.0 == spread(key@),
            r.0 < self.buckets.len(),
            match r.1 {
                Some(n) => n < self.buckets@[r.0 as int].len() && n == place(
                    self.buckets@[r.0 as int]@,
                    key@,
                    0,
                ),
                None => place(self.buckets@[r.0 as int]@, key@, 0)
                    == self.buckets@[r.0 as int].len(),
            },
    {
        let b: usize = (fnv1a(key) % (CACHE_BUCKETS as u64)) as usize;
        let bucket = &self.buckets[b];
        let mut n: usize = 0;
        while n < bucket.len()
            invariant
                self.wf(),
                b == spread(key@),
                b < self.buckets.len(),
                bucket == self.buckets@[b as int],
                n <= bucket.len(),
                forall|k: int| 0 <= k < n ==> (#[trigger] bucket[k]).key@ != key@,
            decreases bucket.len() - n,
        {
            if bytes_eq(bucket[n].key.as_slice(), key) {
                proof {
                    lemma_place(bucket@, key@, 0, n as int);
                }
                return (b, Some(n));
            }
            n += 1;
        }
        proof {
            lemma_place(bucket@, key@, 0, n as int);
        }
        (b, None)
    }

    /// The entry of `key`, if there is one.
    pub fn get(&self, key: &[u8]) -> (r: Option<&Entry>)
        requires
            self.wf(),
        ensures
            match r {
                Some(e) => {
                    &&& self@.contains_key(key@)
                    &&& self@[key@] == e@
                    &&& self.buffer(key@) == e.buffer()
                    &&& self.retired_buffer(key@) == e.retired_buffer()
                },
                None => {
                    &&& !self@.contains_key(key@)
                    &&& self.buffer(key@) is None
                    &&& self.retired_buffer(key@) is None
                },
            },
    {
        match self.find(key) {
            (b, Some(n)) => Some(&self.buckets[b][n].entry),
            _ => None,
        }
    }

    /// The entry of `key`, which is made if there is none.
    pub fn entry(&mut self, key: &[u8]) -> (r: &mut Entry)
        requires
            old(self).wf(),
        ensures
            r@ == entry_in(old(self)@, key@),
            r.buffer() == old(self).buffer(key@),
            r.retired_buffer() == old(self).retired_buffer(key@),
            final(self).wf(),
            final(self)@ == old(self)@.insert(key@, final(r)@),
            final(self).buffer(key@) == final(r).buffer(),
            final(self).retired_buffer(key@) == final(r).retired_buffer(),
            forall|k: Seq<u8>| #![trigger final(self).buffer(k)]
                k != key@ ==> final(self).buffer(k) == old(self).buffer(k),
            forall|k: Seq<u8>| #![trigger final(self).retired_buffer(k)]
                k != key@ ==> final(self).retired_buffer(k) == old(self).retired_buffer(k),
    {
        let ghost before = self.buckets@;
        let (b, found) = self.find(key);
        let n: usize = match found {
            Some(n) => n,
            None => {
                let len: usize = self.buckets[b].len();
                let c = Cached { key: slice_to_vec(key), entry: Entry::new() };
                self.buckets[b].push(c);
                len
            },
        };
        let ghost mid = self.buckets@;
        proof {
            lemma_place_range(before[b as int]@, key@, 0);
            if found is None {
                assert(mid[b as int]@ =~= before[b as int]@.push(mid[b as int]@[n as int]));
            }
            assert forall|after: Seq<Vec<Cached>>|
                #![trigger entries(after)]
                #![trigger held(after)]
                one_changed(mid, after, b as int, n as int) implies entries(after)
                == entries(before).insert(key@, after[b as int]@[n as int].entry@) && held(after)
                == held(before).insert(key@, after[b as int]@[n as int].entry) by {
                lemma_one_changed(before, mid, after, b as int, n as int, key@);
            }
        }
        &mut self.buckets[b][n].entry
    }

    /// Drops every cached value. Bytes already handed out stay where they are
    /// until the next refresh of their key.
    pub fn invalidate_all(&mut self)
        requires
            old(self).wf(),
        ensures
            final(self).wf(),
            final(self)@ == old(self)@.map_values(|e: EntryView| e.invalidated()),
            forall|key: Seq<u8>| #[trigger] cache_keeps(*old(self), *final(self), key),
    {
        let ghost before = self.buckets@;
        let mut b: usize = 0;
        while b < CACHE_BUCKETS
            invariant
                self.wf(),
                b <= CACHE_BUCKETS,
                before.len() == CACHE_BUCKETS,
                forall|c: int|
                    0 <= c < b ==> all_invalidated(before[c]@, (#[trigger] self.buckets@[c])@),
                forall|c: int|
                    b <= c < CACHE_BUCKETS ==> #[trigger] self.buckets@[c] == before[c],
            decreases CACHE_BUCKETS - b,
        {
            let ghost was = self.buckets@;
            invalidate_bucket(&mut self.buckets[b]);
            assert(forall|c: int| 0 <= c < CACHE_BUCKETS && c != b ==> #[trigger] self.buckets@[c]
                == was[c]);
            b += 1;
        }
        proof {
            assert forall|key: Seq<u8>| #![trigger spread(key)] place(
                self.buckets@[spread(key)]@,
                key,
                0,
            ) == place(before[spread(key)]@, key, 0) by {
                lemma_invalidated_place(
                    before[spread(key)]@,
                    self.buckets@[spread(key)]@,
                    key,
                    0,
                );
            }
            assert forall|key: Seq<u8>| #[trigger]
                self@.contains_key(key) == entries(before).contains_key(key) && (self@.contains_key(
                key,
            ) ==> self@[key] == entries(before)[key].invalidated()) by {
                lemma_place_range(before[spread(key)]@, key, 0);
            }
            assert(self@ =~= entries(before).map_values(|e: EntryView| e.invalidated()));
            assert forall|key: Seq<u8>| #[trigger] cache_keeps(*old(self), *self, key) by {
                let s = spread(key);
                let at = place(before[s]@, key, 0);
                lemma_place_range(before[s]@, key, 0);
                assert(old(self)@.contains_key(key) == held(before).contains_key(key));
                assert(self@.contains_key(key) == held(self.buckets@).contains_key(key));
                if held(before).contains_key(key) {
                    assert(keeps(before[s]@[at].entry, self.buckets@[s]@[at].entry));
                }
            }
        }
    }
}

/// `after` is `mid` with another entry for the `n`-th key of bucket `b`.
spec fn one_changed(mid: Seq<Vec<Cached>>, after: Seq<Vec<Cached>>, b: int, n: int) -> bool {
    &&& after.len() == mid.len()
    &&& forall|c: int| 0 <= c < mid.len() && c != b ==> #[trigger] after[c] == mid[c]
    &&& after[b]@ == mid[b]@.update(n, after[b]@[n])
    &&& after[b]@[n].key == mid[b]@[n].key
}

proof fn lemma_one_changed(
    before: Seq<Vec<Cached>>,
    mid: Seq<Vec<Cached>>,
    after: Seq<Vec<Cached>>,
    b: int,
    n: int,
    key: Seq<u8>,
)
    requires
        before.len() == CACHE_BUCKETS,
        mid.len() == CACHE_BUCKETS,
        b == spread(key),
        forall|c: int| 0 <= c < before.len() && c != b ==> #[trigger] mid[c] == before[c],
        n == place(before[b]@, key, 0),
        n < before[b].len() ==> mid[b] == before[b],
        n == before[b].len() ==> mid[b]@ == before[b]@.push(mid[b]@[n]) && mid[b]@[n].key@ == key,
        one_changed(mid, after, b, n),
    ensures
        entries(after) == entries(before).insert(key, after[b]@[n].entry@),
        held(after) == held(before).insert(key, after[b]@[n].entry),
{
    lemma_place_range(before[b]@, key, 0);
    assert forall|k: Seq<u8>|
        {
            &&& #[trigger] entries(after).contains_key(k) == (k == key || entries(
                before,
            ).contains_key(k))
            &&& entries(after).contains_key(k) ==> held(after)[k] == if k == key {
                after[b]@[n].entry
            } else {
                held(before)[k]
            }
        } by {
        let s = spread(k);
        if s == b {
            let was = before[b]@;
            let now = after[b]@;
            lemma_place_range(was, k, 0);
            if k == key {
                lemma_place(now, k, 0, n);
            } else {
                let at = place(was, k, 0);
                if at < was.len() {
                    lemma_place(now, k, 0, at);
                } else {
                    assert forall|m: int| 0 <= m < now.len() implies (#[trigger] now[m]).key@
                        != k by {
                        if m < was.len() && m != n {
                            assert(now[m] == was[m]);
                        }
                    }
                    lemma_place(now, k, 0, now.len() as int);
                }
            }
        } else {
            assert(after[s] == mid[s]);
            assert(mid[s] == before[s]);
        }
    }
    assert forall|k: Seq<u8>| #[trigger] held(after).contains_key(k) implies entries(
        after,
    ).contains_key(k) && entries(after)[k] == held(after)[k]@ by {}
    assert forall|k: Seq<u8>| #[trigger] held(before).contains_key(k) implies entries(
        before,
    ).contains_key(k) && entries(before)[k] == held(before)[k]@ by {}
    assert(held(after) =~= held(before).insert(key, after[b]@[n].entry)) by {
        assert forall|k: Seq<u8>| #[trigger] held(after).contains_key(k) == (k == key || held(
            before,
        ).contains_key(k)) by {
            assert(entries(after).contains_key(k) == (k == key || entries(before).contains_key(k)));
        }
        assert forall|k: Seq<u8>| #[trigger] held(after).contains_key(k) implies held(after)[k]
            == held(before).insert(key, after[b]@[n].entry)[k] by {
            assert(entries(after).contains_key(k));
        }
    }
    assert(entries(after) =~= entries(before).insert(key, after[b]@[n].entry@)) by {
        assert forall|k: Seq<u8>| #[trigger] entries(after).contains_key(k) implies entries(
            after,
        )[k] == entries(before).insert(key, after[b]@[n].entry@)[k] by {
            assert(held(after).contains_key(k));
            if k != key {
                assert(held(before).contains_key(k));
            }
        }
    }
}

/// The entries of `now` are those of `was`, invalidated.
spec fn all_invalidated(was: Seq<Cached>, now: Seq<Cached>) -> bool {
    &&& now.len() == was.len()
    &&& forall|k: int|
        0 <= k < was.len() ==> (#[trigger] now[k]).key@ == was[k].key@ && now[k].entry@
            == was[k].entry@.invalidated() && keeps(was[k].entry, now[k].entry)
}

proof fn lemma_invalidated_place(was: Seq<Cached>, now: Seq<Cached>, key: Seq<u8>, from: int)
    requires
        all_invalidated(was, now),
        0 <= from <= was.len(),
    ensures
        place(now, key, from) == place(was, key, from),
    decreases was.len() - from,
{
    if from < was.len() {
        assert(now[from].key@ == was[from].key@);
        lemma_invalidated_place(was, now, key, from + 1);
    }
}

fn invalidate_bucket(bucket: &mut Vec<Cached>)
    ensures
        all_invalidated(old(bucket)@, final(bucket)@),
{
    let ghost was = bucket@;
    let mut n: usize = 0;
    while n < bucket.len()
        invariant
            n <= bucket.len(),
            bucket.len() == was.len(),
            forall|k: int|
                0 <= k < n ==> (#[trigger] bucket@[k]).key@ == was[k].key@ && bucket@[k].entry@
                    == was[k].entry@.invalidated() && keeps(was[k].entry, bucket@[k].entry),
            forall|k: int| n <= k < was.len() ==> #[trigger] bucket@[k] == was[k],
        decreases bucket.len() - n,
    {
        bucket[n].entry.invalidate();
        n += 1;
    }
}

/// What installing a value does to an entry: it then has that value, was read when
/// the counter was `seen`, and counts as current exactly while the counter is
/// that. What it had before is kept back if the value is another. Invalidating
/// takes the value away, and keeps it back.
pub proof fn law_entry(e: EntryView, fresh: Option<Seq<u8>>, seen: u64, counter: u64)
    ensures
        ({
            let now = e.installed(fresh, seen);
            &&& now.value is Some <==> fresh is Some
            &&& fresh is Some ==> now.value->0 == (fresh->0).push(0)
            &&& now.current(counter) <==> counter == seen
            &&& now.value != e.value && e.value is Some ==> now.retired == e.value
            &&& now.value == e.value ==> now.retired == e.retired
        }),
        ({
            let now = e.invalidated();
            &&& now.value is None
            &&& !now.current(counter)
            &&& e.value is Some ==> now.retired == e.value
        }),
        !EntryView::fresh().current(counter),
{
}

} // verus!
