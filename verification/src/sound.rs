//! What every operation on the segment keeps true of its contents, and what
//! the contents say of each key.

use vstd::prelude::*;

use crate::consts::{ARENA_SIZE, INDEX_SLOTS, MAX_PROBES};
use crate::hash::fnv;
use crate::image::{bucket, is_clean_tomb, is_dirty, Image, ST_EMPTY, ST_LIVE, ST_TOMB};

verus! {

impl Image {
    /// The first `d` buckets that a search for `hash` looks at are taken.
    pub open spec fn packed(self, hash: u64, d: int) -> bool {
        forall|c: int| 0 <= c < d ==> self.index[#[trigger] bucket(hash, c)].state != ST_EMPTY
    }

    /// A search for `hash` gets as far as bucket `i`.
    pub open spec fn reaches(self, hash: u64, i: int) -> bool {
        exists|d: int|
            0 <= d < MAX_PROBES && #[trigger] bucket(hash, d) == i && self.packed(hash, d)
    }

    /// Entry `i` is in order: if it is taken, its key and its value lie in the
    /// part of the arena that was handed out, it carries its key's hash, and a
    /// search for its key gets to it.
    pub open spec fn entry_ok(self, i: int) -> bool {
        let e = self.index[i];
        &&& e.state == ST_EMPTY || e.state == ST_LIVE || e.state == ST_TOMB
        &&& e.state != ST_EMPTY ==> {
            &&& e.key_off + e.key_len <= self.arena_used
            &&& e.hash == fnv(self.key_at(i)->0)
            &&& self.reaches(e.hash, i)
        }
        &&& e.state == ST_LIVE ==> e.val_off + e.val_len <= self.arena_used
    }

    /// Entry `i` is taken by `key`, live or deleted.
    pub open spec fn holds(self, i: int, key: Seq<u8>) -> bool {
        0 <= i < INDEX_SLOTS && self.index[i].state != ST_EMPTY && self.key_at(i) == Some(key)
    }

    /// Arena bytes that entry `i` accounts for.
    pub open spec fn weight(self, i: int) -> int {
        let e = self.index[i];
        (if e.state == ST_EMPTY {
            0
        } else {
            e.key_len as int
        }) + (if e.state == ST_LIVE {
            e.val_len as int
        } else {
            0
        })
    }

    /// Arena bytes that the first `n` entries account for.
    pub open spec fn weight_upto(self, n: int) -> int
        decreases n,
    {
        if n <= 0 {
            0
        } else {
            self.weight_upto(n - 1) + self.weight(n - 1)
        }
    }

    /// The contents are in order.
    pub open spec fn sound(self) -> bool {
        &&& self.sized()
        &&& self.arena_used <= ARENA_SIZE
        &&& forall|i: int| 0 <= i < INDEX_SLOTS ==> #[trigger] self.entry_ok(i)
        &&& forall|i: int, j: int, key: Seq<u8>| #[trigger]
            self.holds(i, key) && #[trigger] self.holds(j, key) ==> i == j
        &&& self.weight_upto(INDEX_SLOTS as int) <= self.arena_used
    }

    /// The value of `key`, if it has one.
    #[verifier::opaque]
    pub open spec fn value(self, key: Seq<u8>) -> Option<Seq<u8>> {
        match self.probe(key, fnv(key)) {
            Some((i, true)) if self.index[i].state == ST_LIVE => self.val_at(i),
            _ => None,
        }
    }

    /// The disk owes `key` a write or an unlink.
    #[verifier::opaque]
    pub open spec fn owed(self, key: Seq<u8>) -> bool {
        match self.probe(key, fnv(key)) {
            Some((i, true)) => is_dirty(self.index[i]),
            _ => false,
        }
    }
}

/// Two steps of one search look at two buckets.
pub proof fn lemma_bucket_injective(hash: u64, c: int, d: int)
    requires
        0 <= c < MAX_PROBES,
        0 <= d < MAX_PROBES,
        bucket(hash, c) == bucket(hash, d),
    ensures
        c == d,
{
}

/// A search looks at buckets of the index only.
pub proof fn lemma_bucket_range(hash: u64, d: int)
    ensures
        0 <= bucket(hash, d) < INDEX_SLOTS,
{
}

/// Steps `j` to `d` of a search pass taken buckets only.
pub open spec fn passes(img: Image, hash: u64, j: int, d: int) -> bool {
    forall|c: int| j <= c < d ==> img.index[#[trigger] bucket(hash, c)].state != ST_EMPTY
}

/// Step `d` of a search that got past the steps from `j` on is at bucket `i`,
/// which matches.
pub open spec fn finds(img: Image, key: Seq<u8>, hash: u64, j: int, i: int, d: int) -> bool {
    &&& j <= d < MAX_PROBES
    &&& bucket(hash, d) == i
    &&& img.index[i].state != ST_EMPTY
    &&& img.matches(i, key, hash)
    &&& passes(img, hash, j, d)
}

/// Step `d` of a search that got past the steps from `j` on is at bucket `i`,
/// which can be claimed.
pub open spec fn claims(img: Image, hash: u64, j: int, i: int, d: int) -> bool {
    &&& j <= d < MAX_PROBES
    &&& bucket(hash, d) == i
    &&& img.index[i].state == ST_EMPTY || is_clean_tomb(img.index[i])
    &&& passes(img, hash, j, d)
}

/// From step `j` on no bucket matches before an empty one.
pub open spec fn unmatched(img: Image, key: Seq<u8>, hash: u64, j: int) -> bool {
    forall|i: int, d: int| !#[trigger] finds(img, key, hash, j, i, d)
}

/// What a search returns: the first bucket that matches, if no empty one comes
/// before it; else one that can be claimed, if there is one.
pub open spec fn search_result(
    img: Image,
    key: Seq<u8>,
    hash: u64,
    j: int,
    free: Option<int>,
    r: Option<(int, bool)>,
) -> bool {
    match r {
        Some((i, true)) => exists|d: int| #[trigger] finds(img, key, hash, j, i, d),
        Some((i, false)) => {
            &&& free == Some(i) || exists|d: int| #[trigger] claims(img, hash, j, i, d)
            &&& unmatched(img, key, hash, j)
        },
        None => {
            &&& free is None
            &&& unmatched(img, key, hash, j)
            &&& forall|i: int, d: int| !#[trigger] claims(img, hash, j, i, d)
            &&& passes(img, hash, j, MAX_PROBES as int)
        },
    }
}

/// A search from step `j` on.
pub proof fn lemma_probe_from(img: Image, key: Seq<u8>, hash: u64, j: int, free: Option<int>)
    requires
        0 <= j <= MAX_PROBES,
    ensures
        search_result(img, key, hash, j, free, img.probe_from(key, hash, j, free)),
    decreases MAX_PROBES - j,
{
    let i = bucket(hash, j);
    if j >= MAX_PROBES {
    } else if img.index[i].state == ST_EMPTY {
        assert(claims(img, hash, j, i, j));
        assert forall|b: int, d: int| !#[trigger] finds(img, key, hash, j, b, d) by {
            if d > j && finds(img, key, hash, j, b, d) {
                assert(img.index[bucket(hash, j)].state != ST_EMPTY);
            }
        }
    } else if img.matches(i, key, hash) {
        assert(finds(img, key, hash, j, i, j));
        let r = img.probe_from(key, hash, j, free);
        assert(r == Some((i, true)));
        assert(finds(img, key, hash, j, (r->0).0, j));
    } else {
        let next = if free is None && is_clean_tomb(img.index[i]) {
            Some(i)
        } else {
            free
        };
        lemma_probe_from(img, key, hash, j + 1, next);
        assert forall|b: int, d: int| finds(img, key, hash, j, b, d) implies #[trigger] finds(
            img,
            key,
            hash,
            j + 1,
            b,
            d,
        ) by {}
        assert(unmatched(img, key, hash, j + 1) ==> unmatched(img, key, hash, j)) by {
            if unmatched(img, key, hash, j + 1) {
                assert forall|b: int, d: int| !#[trigger] finds(img, key, hash, j, b, d) by {
                    assert(!finds(img, key, hash, j + 1, b, d));
                }
            }
        }
        let r = img.probe_from(key, hash, j, free);
        assert(r == img.probe_from(key, hash, j + 1, next));
        match r {
            Some((b, true)) => {
                let d = choose|d: int| #[trigger] finds(img, key, hash, j + 1, b, d);
                assert(finds(img, key, hash, j, b, d));
                    },
            Some((b, false)) => {
                if next == Some(b) {
                    if free != Some(b) {
                        assert(claims(img, hash, j, b, j));
                    }
                } else {
                    let d = choose|d: int| #[trigger] claims(img, hash, j + 1, b, d);
                    assert(claims(img, hash, j, b, d));
                }
                    },
            None => {
                assert forall|b: int, d: int| !#[trigger] claims(img, hash, j, b, d) by {
                    assert(!claims(img, hash, j + 1, b, d));
                }
                assert(passes(img, hash, j, MAX_PROBES as int));
                    },
        }
    }
}

/// A search for a key that is there finds it.
pub proof fn lemma_probe_found(img: Image, i: int, key: Seq<u8>)
    requires
        img.sound(),
        img.holds(i, key),
    ensures
        img.probe(key, fnv(key)) == Some((i, true)),
{
    let hash = fnv(key);
    lemma_probe_from(img, key, hash, 0, None);
    assert(img.entry_ok(i));
    let d = choose|d: int|
        0 <= d < MAX_PROBES && #[trigger] bucket(hash, d) == i && img.packed(hash, d);
    assert(finds(img, key, hash, 0, i, d));
    match img.probe(key, hash) {
        Some((b, true)) => {
            let e = choose|e: int| #[trigger] finds(img, key, hash, 0, b, e);
            lemma_bucket_range(hash, e);
            assert(img.holds(b, key));
        },
        _ => {},
    }
}

/// A search for a key that is not there finds a bucket that can be claimed for
/// it, unless every bucket it looks at is taken.
pub proof fn lemma_probe_absent(img: Image, key: Seq<u8>)
    requires
        img.sound(),
        forall|i: int| !#[trigger] img.holds(i, key),
    ensures
        match img.probe(key, fnv(key)) {
            Some((i, found)) => {
                &&& !found
                &&& 0 <= i < INDEX_SLOTS
                &&& img.index[i].state == ST_EMPTY || is_clean_tomb(img.index[i])
                &&& img.reaches(fnv(key), i)
            },
            None => img.packed(fnv(key), MAX_PROBES as int),
        },
{
    let hash = fnv(key);
    lemma_probe_from(img, key, hash, 0, None);
    match img.probe(key, hash) {
        Some((b, true)) => {
            let e = choose|e: int| #[trigger] finds(img, key, hash, 0, b, e);
            lemma_bucket_range(hash, e);
            assert(img.holds(b, key));
        },
        Some((b, false)) => {
            let e = choose|e: int| #[trigger] claims(img, hash, 0, b, e);
            lemma_bucket_range(hash, e);
            assert(img.packed(hash, e));
            assert(bucket(hash, e) == b);
        },
        None => {},
    }
}

/// What the contents say of a key, by the entry that holds it.
pub proof fn lemma_value_held(img: Image, i: int, key: Seq<u8>)
    requires
        img.sound(),
        img.holds(i, key),
    ensures
        img.value(key) == (if img.index[i].state == ST_LIVE {
            img.val_at(i)
        } else {
            None
        }),
        img.index[i].state == ST_LIVE ==> img.val_at(i) is Some,
        img.owed(key) == is_dirty(img.index[i]),
{
    reveal(Image::value);
    reveal(Image::owed);
    lemma_probe_found(img, i, key);
    assert(img.entry_ok(i));
}

/// What the contents say of a key that no entry holds.
pub proof fn lemma_value_unheld(img: Image, key: Seq<u8>)
    requires
        img.sound(),
        forall|i: int| !#[trigger] img.holds(i, key),
    ensures
        img.value(key) is None,
        !img.owed(key),
{
    reveal(Image::value);
    reveal(Image::owed);
    lemma_probe_absent(img, key);
}

// ------------------------------------------------- changing one entry --

/// The arena bytes that entries account for, after a change of one entry.
pub proof fn lemma_weight_update(img: Image, img2: Image, i: int, n: int)
    requires
        0 <= i < img.index.len(),
        img2.index == img.index.update(i, img2.index[i]),
        n <= img.index.len(),
    ensures
        img2.weight_upto(n) == img.weight_upto(n) + (if i < n {
            img2.weight(i) - img.weight(i)
        } else {
            0
        }),
    decreases n,
{
    if n > 0 {
        lemma_weight_update(img, img2, i, n - 1);
    }
}

/// Bytes in the part of the arena that was handed out stay what they are when
/// more is stored behind it.
pub proof fn lemma_slice_stable(img: Image, img2: Image, off: u32, len: u32)
    requires
        img.sized(),
        img2.sized(),
        img.arena_used <= ARENA_SIZE,
        forall|p: int| 0 <= p < img.arena_used ==> img2.arena[p] == img.arena[p],
        off + len <= img.arena_used,
    ensures
        img2.slice(off, len) == img.slice(off, len),
        img.slice(off, len) is Some,
{
    assert(img2.arena.subrange(off as int, off + len) =~= img.arena.subrange(
        off as int,
        off + len,
    ));
}

/// `img2` differs from `img` in entry `i`, which now is one of `key`, and in
/// what is stored behind what the arena had handed out.
pub open spec fn one_entry(img: Image, img2: Image, i: int, key: Seq<u8>) -> bool {
    let e = img2.index[i];
    &&& 0 <= i < INDEX_SLOTS
    &&& img2.sized()
    &&& img2.index == img.index.update(i, e)
    &&& img.arena_used <= img2.arena_used <= ARENA_SIZE
    &&& forall|p: int| 0 <= p < img.arena_used ==> img2.arena[p] == img.arena[p]
    &&& e.state == ST_LIVE || e.state == ST_TOMB
    &&& e.hash == fnv(key)
    &&& e.key_off + e.key_len <= img2.arena_used
    &&& img2.key_at(i) == Some(key)
    &&& e.state == ST_LIVE ==> e.val_off + e.val_len <= img2.arena_used
    &&& img2.weight(i) - img.weight(i) <= img2.arena_used - img.arena_used
    &&& img.holds(i, key) || {
        &&& img.index[i].state == ST_EMPTY || is_clean_tomb(img.index[i])
        &&& forall|j: int| !#[trigger] img.holds(j, key)
        &&& img.reaches(fnv(key), i)
    }
}

/// Where a search gets, it still gets when more buckets are taken.
proof fn lemma_reaches_stable(img: Image, img2: Image, hash: u64, i: int)
    requires
        img.reaches(hash, i),
        forall|j: int|
            0 <= j < INDEX_SLOTS && img.index[j].state != ST_EMPTY
                ==> #[trigger] img2.index[j].state != ST_EMPTY,
    ensures
        img2.reaches(hash, i),
{
    let d = choose|d: int|
        0 <= d < MAX_PROBES && #[trigger] bucket(hash, d) == i && img.packed(hash, d);
    assert forall|c: int| 0 <= c < d implies img2.index[#[trigger] bucket(hash, c)].state
        != ST_EMPTY by {
        lemma_bucket_range(hash, c);
    }
    assert(img2.packed(hash, d));
    assert(bucket(hash, d) == i);
}

/// Changing one entry keeps the contents in order.
pub proof fn lemma_one_entry_sound(img: Image, img2: Image, i: int, key: Seq<u8>)
    requires
        img.sound(),
        one_entry(img, img2, i, key),
    ensures
        img2.sound(),
        img2.holds(i, key),
        forall|j: int, k: Seq<u8>| #[trigger]
            img2.holds(j, k) ==> if j == i {
                k == key
            } else {
                img.holds(j, k)
            },
        forall|j: int, k: Seq<u8>| j != i && #[trigger] img.holds(j, k) ==> img2.holds(j, k),
{
    assert forall|j: int|
        0 <= j < INDEX_SLOTS && img.index[j].state
            != ST_EMPTY implies #[trigger] img2.index[j].state != ST_EMPTY by {}
    assert forall|j: int| 0 <= j < INDEX_SLOTS implies #[trigger] img2.entry_ok(j) by {
        assert(img.entry_ok(j));
        if j == i {
            lemma_reaches_stable(img, img2, fnv(key), i);
        } else if img.index[j].state != ST_EMPTY {
            lemma_slice_stable(img, img2, img.index[j].key_off, img.index[j].key_len);
            lemma_reaches_stable(img, img2, img.index[j].hash, j);
        }
    }
    assert forall|j: int, k: Seq<u8>| #[trigger] img2.holds(j, k) implies if j == i {
        k == key
    } else {
        img.holds(j, k)
    } by {
        if j != i {
            assert(img.entry_ok(j));
            lemma_slice_stable(img, img2, img.index[j].key_off, img.index[j].key_len);
        }
    }
    assert forall|j: int, k: Seq<u8>| j != i && #[trigger] img.holds(j, k) implies img2.holds(
        j,
        k,
    ) by {
        assert(img.entry_ok(j));
        lemma_slice_stable(img, img2, img.index[j].key_off, img.index[j].key_len);
    }
    assert forall|a: int, b: int, k: Seq<u8>| #[trigger]
        img2.holds(a, k) && #[trigger] img2.holds(b, k) implies a == b by {
        if a != i && b != i {
            assert(img.holds(a, k) && img.holds(b, k));
        } else if a != b {
            let c = if a == i {
                b
            } else {
                a
            };
            assert(img.holds(c, key));
        }
    }
    lemma_weight_update(img, img2, i, INDEX_SLOTS as int);
}

/// Changing one entry says nothing new of any other key.
pub proof fn lemma_one_entry_others(img: Image, img2: Image, i: int, key: Seq<u8>, other: Seq<u8>)
    requires
        img.sound(),
        one_entry(img, img2, i, key),
        other != key,
    ensures
        img2.value(other) == img.value(other),
        img2.owed(other) == img.owed(other),
{
    lemma_one_entry_sound(img, img2, i, key);
    if exists|j: int| #[trigger] img.holds(j, other) {
        let j = choose|j: int| #[trigger] img.holds(j, other);
        lemma_value_held(img, j, other);
        if j == i {
            assert forall|k: int| !#[trigger] img2.holds(k, other) by {
                if img2.holds(k, other) {
                    assert(img.holds(k, other));
                }
            }
            lemma_value_unheld(img2, other);
        } else {
            assert(img2.holds(j, other));
            lemma_value_held(img2, j, other);
            assert(img.entry_ok(j));
            if img.index[j].state == ST_LIVE {
                lemma_slice_stable(img, img2, img.index[j].val_off, img.index[j].val_len);
            }
        }
    } else {
        assert forall|k: int| !#[trigger] img2.holds(k, other) by {
            if img2.holds(k, other) {
                assert(img.holds(k, other));
            }
        }
        lemma_value_unheld(img, other);
        lemma_value_unheld(img2, other);
    }
}

} // verus!
