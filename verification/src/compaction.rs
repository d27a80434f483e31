//! What a compaction keeps.

use vstd::prelude::*;

use crate::consts::{ARENA_SIZE, INDEX_SLOTS, MAX_PROBES};
use crate::hash::fnv;
use crate::image::{
    bucket, empty_entry, home, is_clean_tomb, splice, Image, IndexEntry, FL_DIRTY, ST_EMPTY,
    ST_LIVE, ST_TOMB,
};
use crate::model::KeptView;
use crate::sound::{
    lemma_bucket_injective, lemma_bucket_range, lemma_one_entry_others, lemma_one_entry_sound,
    lemma_probe_absent, lemma_slice_stable, lemma_value_held, lemma_value_unheld,
    lemma_weight_update, one_entry,
};

verus! {

impl KeptView {
    /// Arena bytes that the entry takes.
    pub open spec fn weight(self) -> int {
        self.key.len() + (match self.val {
            Some(v) => v.len() as int,
            None => 0,
        })
    }

    /// The entry owes the disk something.
    pub open spec fn dirty(self) -> bool {
        self.flags & FL_DIRTY != 0
    }
}

/// Arena bytes that the first `n` of `ks` take.
pub open spec fn kept_weight(ks: Seq<KeptView>, n: int) -> int
    decreases n,
{
    if n <= 0 {
        0
    } else {
        kept_weight(ks, n - 1) + ks[n - 1].weight()
    }
}

impl Image {
    /// There is a bucket for the `m`-th entry that a compaction carries over.
    #[verifier::opaque]
    pub open spec fn fits_back(self, m: int) -> bool {
        let k = self.kept()[m];
        self.emptied().placed_upto(self.kept(), m).probe(k.key, fnv(k.key)) is Some
    }

    /// There is a bucket for every entry that a compaction carries over.
    pub open spec fn whole(self) -> bool {
        forall|m: int| 0 <= m < self.kept().len() ==> #[trigger] self.fits_back(m)
    }
}

// ----------------------------------------------------- what is carried --

/// The entries carried over are those of the index that are worth it.
proof fn lemma_kept_entries(img: Image, n: int)
    requires
        img.sound(),
        0 <= n <= INDEX_SLOTS,
    ensures
        forall|m: int|
            0 <= m < img.kept_upto(n).len() ==> exists|i: int|
                0 <= i < n && #[trigger] img.kept_at(i) == Some(#[trigger] img.kept_upto(n)[m]),
        forall|i: int|
            0 <= i < n && #[trigger] img.kept_at(i) is Some ==> img.kept_upto(n).contains(
                img.kept_at(i)->0,
            ),
        forall|m: int, l: int|
            0 <= m < img.kept_upto(n).len() && 0 <= l < img.kept_upto(n).len()
                && #[trigger] img.kept_upto(n)[m].key == #[trigger] img.kept_upto(n)[l].key ==> m
                == l,
        kept_weight(img.kept_upto(n), img.kept_upto(n).len() as int) <= img.weight_upto(n),
    decreases n,
{
    if n > 0 {
        lemma_kept_entries(img, n - 1);
        let ks = img.kept_upto(n - 1);
        let all = img.kept_upto(n);
        assert(img.entry_ok(n - 1));
        match img.kept_at(n - 1) {
            Some(k) => {
                assert(all == ks.push(k));
                assert forall|m: int| 0 <= m < all.len() implies exists|i: int|
                    0 <= i < n && #[trigger] img.kept_at(i) == Some(#[trigger] all[m]) by {
                    if m < ks.len() {
                        assert(all[m] == ks[m]);
                        let i = choose|i: int|
                            0 <= i < n - 1 && #[trigger] img.kept_at(i) == Some(ks[m]);
                        assert(img.kept_at(i) == Some(all[m]));
                    } else {
                        assert(img.kept_at(n - 1) == Some(all[m]));
                    }
                }
                assert forall|i: int|
                    0 <= i < n && #[trigger] img.kept_at(i) is Some implies all.contains(
                    img.kept_at(i)->0,
                ) by {
                    if i < n - 1 {
                        let m = choose|m: int|
                            0 <= m < ks.len() && ks[m] == img.kept_at(i)->0;
                        assert(all[m] == ks[m]);
                    } else {
                        assert(all[all.len() - 1] == k);
                    }
                }
                assert forall|m: int| 0 <= m < ks.len() implies (#[trigger] all[m]).key
                    != k.key by {
                    assert(all[m] == ks[m]);
                    let i = choose|i: int|
                        0 <= i < n - 1 && #[trigger] img.kept_at(i) == Some(ks[m]);
                    if ks[m].key == k.key {
                        assert(img.holds(i, k.key));
                        assert(img.holds(n - 1, k.key));
                    }
                }
                lemma_kept_weight_push(ks, k, ks.len() as int);
                assert(k.weight() <= img.weight(n - 1)) by {
                    assert(img.key_at(n - 1) is Some);
                    assert(k.key.len() == img.index[n - 1].key_len);
                }
            },
            None => {},
        }
    }
}

proof fn lemma_kept_weight_push(ks: Seq<KeptView>, k: KeptView, n: int)
    requires
        0 <= n <= ks.len(),
    ensures
        kept_weight(ks.push(k), n) == kept_weight(ks, n),
        n == ks.len() ==> kept_weight(ks.push(k), n + 1) == kept_weight(ks, n) + k.weight(),
    decreases n,
{
    if n > 0 {
        lemma_kept_weight_push(ks, k, n - 1);
        assert(ks.push(k)[n - 1] == ks[n - 1]);
    }
    if n == ks.len() {
        assert(ks.push(k)[n] == k);
        assert(kept_weight(ks.push(k), n + 1) == kept_weight(ks.push(k), n) + ks.push(
            k,
        )[n].weight());
    }
}

proof fn lemma_kept_weight_grows(ks: Seq<KeptView>, n: int, m: int)
    requires
        0 <= n <= m,
    ensures
        0 <= kept_weight(ks, n) <= kept_weight(ks, m),
    decreases m,
{
    if n < m {
        lemma_kept_weight_grows(ks, n, m - 1);
    } else if n > 0 {
        lemma_kept_weight_grows(ks, n - 1, n - 1);
    }
}

// --------------------------------------------------- carrying one over --

/// Bytes stored behind what the arena has handed out can be read back, and
/// what it had handed out stays.
pub proof fn lemma_allocated(img: Image, bytes: Seq<u8>)
    requires
        img.sized(),
        img.has_room(bytes.len() as int),
    ensures
        img.allocated(bytes).slice(img.arena_used as u32, bytes.len() as u32) == Some(bytes),
        forall|p: int| 0 <= p < img.arena_used ==> img.allocated(bytes).arena[p] == img.arena[p],
        img.allocated(bytes).arena_used == img.arena_used + bytes.len(),
        img.allocated(bytes).sized(),
{
    let a = splice(img.arena, img.arena_used as int, bytes);
    assert(a.subrange(img.arena_used as int, img.arena_used + bytes.len()) =~= bytes);
}

/// Carrying over an entry whose key is not there yet.
pub proof fn lemma_placed(img: Image, k: KeptView)
    requires
        img.sound(),
        forall|i: int| !#[trigger] img.holds(i, k.key),
        img.has_room(k.weight()),
    ensures
        img.placed(k).sound(),
        img.placed(k).slots == img.slots,
        match img.probe(k.key, fnv(k.key)) {
            Some((i, found)) => {
                &&& !found
                &&& one_entry(img, img.placed(k), i, k.key)
                &&& img.placed(k).value(k.key) == k.val
                &&& img.placed(k).owed(k.key) == k.dirty()
                &&& img.placed(k).arena_used == img.arena_used + k.weight()
                &&& img.placed(k).index[i].state != ST_EMPTY
            },
            None => img.placed(k) == img,
        },
{
    lemma_probe_absent(img, k.key);
    match img.probe(k.key, fnv(k.key)) {
        Some((i, found)) => {
            lemma_allocated(img, k.key);
            let keyed = img.allocated(k.key).with_entry(
                i,
                IndexEntry {
                    key_off: img.arena_used as u32,
                    key_len: k.key.len() as u32,
                    hash: fnv(k.key),
                    flags: k.flags,
                    ..img.index[i]
                },
            );
            let img2 = img.placed(k);
            match k.val {
                Some(v) => {
                    assert(keyed.arena_used == img.arena_used + k.key.len());
                    lemma_allocated(keyed, v);
                    assert(img2.arena =~= keyed.allocated(v).arena);
                    assert(img2.val_at(i) == Some(v));
                    assert(img2.key_at(i) == Some(k.key)) by {
                        assert(img2.arena.subrange(
                            img.arena_used as int,
                            img.arena_used + k.key.len(),
                        ) =~= k.key) by {
                            let from = img.arena_used as int;
                            assert forall|p: int| 0 <= p < k.key.len() implies img2.arena[from + p]
                                == k.key[p] by {
                                assert(keyed.arena[img.arena_used + p] == k.key[p]);
                            }
                        }
                    }
                    assert forall|p: int| 0 <= p < img.arena_used implies img2.arena[p]
                        == img.arena[p] by {
                        assert(keyed.arena[p] == img.arena[p]);
                    }
                },
                None => {
                    assert(img2.key_at(i) == Some(k.key));
                },
            }
            assert(img2.index =~= img.index.update(i, img2.index[i]));
            assert(one_entry(img, img2, i, k.key));
            lemma_one_entry_sound(img, img2, i, k.key);
            lemma_value_held(img2, i, k.key);
        },
        None => {},
    }
}

// ----------------------------------------------------- carrying all over --

/// What holds of the contents once the first `n` entries were carried over.
pub open spec fn carried(img: Image, now: Image, n: int) -> bool {
    let ks = img.kept();
    &&& now.sound()
    &&& now.slots == img.slots
    &&& now.arena_used <= kept_weight(ks, n)
    &&& forall|m: int|
        0 <= m < n ==> {
            &&& now.value((#[trigger] ks[m]).key) == (if img.fits_back(m) {
                ks[m].val
            } else {
                None
            })
            &&& now.owed(ks[m].key) == (img.fits_back(m) && ks[m].dirty())
        }
    &&& forall|i: int, key: Seq<u8>| #[trigger]
        now.holds(i, key) ==> exists|m: int| 0 <= m < n && (#[trigger] ks[m]).key == key
}

proof fn lemma_empty_weight(img: Image, n: int)
    requires
        forall|i: int| 0 <= i < n ==> #[trigger] img.index[i] == empty_entry(),
    ensures
        img.weight_upto(n) == 0,
    decreases n,
{
    if n > 0 {
        lemma_empty_weight(img, n - 1);
        assert(img.index[n - 1] == empty_entry());
    }
}

/// An emptied segment is in order, and holds nothing.
pub proof fn lemma_emptied(img: Image)
    requires
        img.sized(),
        forall|i: int| 0 <= i < INDEX_SLOTS ==> #[trigger] img.index[i] == empty_entry(),
        img.arena_used == 0,
    ensures
        img.sound(),
        forall|i: int, key: Seq<u8>| !#[trigger] img.holds(i, key),
{
    lemma_empty_weight(img, INDEX_SLOTS as int);
    assert forall|i: int| 0 <= i < INDEX_SLOTS implies #[trigger] img.entry_ok(i) by {
        assert(img.index[i] == empty_entry());
    }
    assert forall|i: int, key: Seq<u8>| !#[trigger] img.holds(i, key) by {
        if 0 <= i < INDEX_SLOTS {
            assert(img.index[i] == empty_entry());
        }
    }
}

proof fn lemma_kept_fits(img: Image)
    requires
        img.sound(),
    ensures
        kept_weight(img.kept(), img.kept().len() as int) <= img.arena_used,
{
    lemma_kept_entries(img, INDEX_SLOTS as int);
}

proof fn lemma_kept_distinct(img: Image, m: int, l: int)
    requires
        img.sound(),
        0 <= m < img.kept().len(),
        0 <= l < img.kept().len(),
        img.kept()[m].key == img.kept()[l].key,
    ensures
        m == l,
{
    lemma_kept_entries(img, INDEX_SLOTS as int);
}

/// An entry's key is not there before the entry is carried over, and there is
/// room for it.
pub proof fn lemma_unheld_before(img: Image, m: int)
    requires
        img.sound(),
        0 <= m < img.kept().len(),
        carried(img, img.emptied().placed_upto(img.kept(), m), m),
    ensures
        img.emptied().placed_upto(img.kept(), m).sound(),
        img.emptied().placed_upto(img.kept(), m).has_room(img.kept()[m].weight()),
        forall|i: int|
            !#[trigger] img.emptied().placed_upto(img.kept(), m).holds(i, img.kept()[m].key),
{
    let ks = img.kept();
    let before = img.emptied().placed_upto(ks, m);
    lemma_kept_fits(img);
    lemma_kept_weight_grows(ks, m + 1, ks.len() as int);
    assert(kept_weight(ks, m + 1) == kept_weight(ks, m) + ks[m].weight());
    assert forall|i: int| !#[trigger] before.holds(i, ks[m].key) by {
        if before.holds(i, ks[m].key) {
            let l = choose|l: int| 0 <= l < m && (#[trigger] ks[l]).key == ks[m].key;
            lemma_kept_distinct(img, l, m);
        }
    }
}

/// Carrying entries over, one after the other.
pub proof fn lemma_carried(img: Image, n: int)
    requires
        img.sound(),
        0 <= n <= img.kept().len(),
    ensures
        carried(img, img.emptied().placed_upto(img.kept(), n), n),
    decreases n,
{
    let ks = img.kept();
    if n == 0 {
        lemma_emptied(img.emptied());
    } else {
        lemma_carried(img, n - 1);
        lemma_unheld_before(img, n - 1);
        lemma_carried_step(img, n);
    }
}

proof fn lemma_carried_step(img: Image, n: int)
    requires
        img.sound(),
        0 < n <= img.kept().len(),
        carried(img, img.emptied().placed_upto(img.kept(), n - 1), n - 1),
        img.emptied().placed_upto(img.kept(), n - 1).has_room(img.kept()[n - 1].weight()),
        forall|i: int|
            !#[trigger] img.emptied().placed_upto(img.kept(), n - 1).holds(
                i,
                img.kept()[n - 1].key,
            ),
    ensures
        carried(img, img.emptied().placed_upto(img.kept(), n), n),
{
    let ks = img.kept();
    let before = img.emptied().placed_upto(ks, n - 1);
    let now = img.emptied().placed_upto(ks, n);
    let k = ks[n - 1];
    assert(now == before.placed(k));
    assert(kept_weight(ks, n) == kept_weight(ks, n - 1) + k.weight());
    lemma_placed(before, k);
    lemma_value_unheld(before, k.key);
    assert(img.fits_back(n - 1) == (before.probe(k.key, fnv(k.key)) is Some)) by {
        reveal(Image::fits_back);
    }
    match before.probe(k.key, fnv(k.key)) {
        Some((b, _)) => {
            lemma_carried_add(img, before, now, n, b);
        },
        None => {
            lemma_carried_skip(img, before, n);
        },
    }
}

/// The `n`-th entry found a bucket.
proof fn lemma_carried_add(img: Image, before: Image, now: Image, n: int, b: int)
    requires
        img.sound(),
        0 < n <= img.kept().len(),
        carried(img, before, n - 1),
        one_entry(before, now, b, img.kept()[n - 1].key),
        now.slots == before.slots,
        now.arena_used <= kept_weight(img.kept(), n),
        img.fits_back(n - 1),
        now.value(img.kept()[n - 1].key) == img.kept()[n - 1].val,
        now.owed(img.kept()[n - 1].key) == img.kept()[n - 1].dirty(),
    ensures
        carried(img, now, n),
{
    let ks = img.kept();
    let k = ks[n - 1];
    lemma_one_entry_sound(before, now, b, k.key);
    assert forall|m: int| 0 <= m < n implies {
        &&& now.value((#[trigger] ks[m]).key) == (if img.fits_back(m) {
            ks[m].val
        } else {
            None
        })
        &&& now.owed(ks[m].key) == (img.fits_back(m) && ks[m].dirty())
    } by {
        if m < n - 1 {
            if ks[m].key == k.key {
                lemma_kept_distinct(img, m, n - 1);
            }
            lemma_one_entry_others(before, now, b, k.key, ks[m].key);
        }
    }
    assert forall|i: int, key: Seq<u8>| #[trigger] now.holds(i, key) implies exists|m: int|
        0 <= m < n && (#[trigger] ks[m]).key == key by {
        if i == b {
            assert(ks[n - 1].key == key);
        } else {
            assert(before.holds(i, key));
            let m = choose|m: int| 0 <= m < n - 1 && (#[trigger] ks[m]).key == key;
            assert(ks[m].key == key);
        }
    }
}

/// The `n`-th entry found no bucket.
proof fn lemma_carried_skip(img: Image, before: Image, n: int)
    requires
        0 < n <= img.kept().len(),
        carried(img, before, n - 1),
        kept_weight(img.kept(), n - 1) <= kept_weight(img.kept(), n),
        !img.fits_back(n - 1),
        before.value(img.kept()[n - 1].key) is None,
        !before.owed(img.kept()[n - 1].key),
    ensures
        carried(img, before, n),
{
    let ks = img.kept();
    assert forall|i: int, key: Seq<u8>| #[trigger] before.holds(i, key) implies exists|m: int|
        0 <= m < n && (#[trigger] ks[m]).key == key by {
        let m = choose|m: int| 0 <= m < n - 1 && (#[trigger] ks[m]).key == key;
        assert(ks[m].key == key);
    }
}

// ------------------------------------------- what the counters do not say --

/// A search depends on the index and the arena only.
proof fn lemma_probe_same(
    img: Image,
    img2: Image,
    key: Seq<u8>,
    hash: u64,
    j: int,
    free: Option<int>,
)
    requires
        img2.index == img.index,
        img2.arena == img.arena,
        0 <= j,
    ensures
        img2.probe_from(key, hash, j, free) == img.probe_from(key, hash, j, free),
    decreases MAX_PROBES - j,
{
    let i = bucket(hash, j);
    if j < MAX_PROBES {
        if free is None && is_clean_tomb(img.index[i]) {
            lemma_probe_same(img, img2, key, hash, j + 1, Some(i));
        } else {
            lemma_probe_same(img, img2, key, hash, j + 1, free);
        }
    }
}

proof fn lemma_weight_same(img: Image, img2: Image, n: int)
    requires
        img2.index == img.index,
    ensures
        img2.weight_upto(n) == img.weight_upto(n),
    decreases n,
{
    if n > 0 {
        lemma_weight_same(img, img2, n - 1);
    }
}

/// What the contents say of keys depends on the index, the arena, and how much
/// of the arena was handed out.
pub proof fn lemma_same_contents(img: Image, img2: Image)
    requires
        img2.index == img.index,
        img2.arena == img.arena,
        img2.arena_used == img.arena_used,
        img2.slots.len() == img.slots.len(),
    ensures
        img2.sound() == img.sound(),
        forall|key: Seq<u8>, hash: u64| #[trigger]
            img2.probe(key, hash) == img.probe(key, hash),
        forall|key: Seq<u8>| #[trigger] img2.value(key) == img.value(key),
        forall|key: Seq<u8>| #[trigger] img2.owed(key) == img.owed(key),
        forall|i: int, key: Seq<u8>| #[trigger] img2.holds(i, key) == img.holds(i, key),
{
    reveal(Image::value);
    reveal(Image::owed);
    assert forall|key: Seq<u8>, hash: u64| #[trigger]
        img2.probe(key, hash) == img.probe(key, hash) by {
        lemma_probe_same(img, img2, key, hash, 0, None);
    }
    assert forall|key: Seq<u8>| #[trigger] img2.value(key) == img.value(key) by {
        assert(img2.probe(key, fnv(key)) == img.probe(key, fnv(key)));
    }
    assert forall|key: Seq<u8>| #[trigger] img2.owed(key) == img.owed(key) by {
        assert(img2.probe(key, fnv(key)) == img.probe(key, fnv(key)));
    }
    lemma_weight_same(img, img2, INDEX_SLOTS as int);
    assert forall|i: int| #[trigger] img2.entry_ok(i) == img.entry_ok(i) by {
        let h = img.index[i].hash;
        assert forall|d: int| #[trigger] img2.packed(h, d) == img.packed(h, d) by {}
        if img.reaches(h, i) {
            let d = choose|d: int|
                0 <= d < MAX_PROBES && #[trigger] bucket(h, d) == i && img.packed(h, d);
            assert(bucket(h, d) == i && img2.packed(h, d));
        }
        if img2.reaches(h, i) {
            let d = choose|d: int|
                0 <= d < MAX_PROBES && #[trigger] bucket(h, d) == i && img2.packed(h, d);
            assert(bucket(h, d) == i && img.packed(h, d));
        }
    }
    assert forall|i: int, key: Seq<u8>| #[trigger]
        img2.holds(i, key) == img.holds(i, key) by {}
    if img.sound() {
        assert forall|i: int| 0 <= i < INDEX_SLOTS implies #[trigger] img2.entry_ok(i) by {
            assert(img.entry_ok(i));
        }
        assert(img2.sound());
    }
    if img2.sound() {
        assert forall|i: int| 0 <= i < INDEX_SLOTS implies #[trigger] img.entry_ok(i) by {
            assert(img2.entry_ok(i));
        }
        assert forall|i: int, j: int, key: Seq<u8>| #[trigger]
            img.holds(i, key) && #[trigger] img.holds(j, key) implies i == j by {
            assert(img2.holds(i, key) && img2.holds(j, key));
        }
        assert(img.sound());
    }
}

// ------------------------------------------------------------------ laws --

/// What a compaction makes of the contents: in order, no more of the arena
/// needed than before, no seqlock counter moved, and said of every key what was
/// said before.
pub open spec fn preserved(img: Image, now: Image, key: Seq<u8>) -> bool {
    &&& now.sound()
    &&& now.arena_used <= img.arena_used
    &&& now.slots == img.slots
    &&& now.value(key) == img.value(key)
    &&& now.owed(key) == img.owed(key)
}

/// A compaction keeps the contents in order, needs no more of the arena than
/// before, and says of every key what was said before. It moves no seqlock
/// counter, and leaves the arena's counter even.
pub proof fn law_compaction(img: Image, key: Seq<u8>)
    requires
        img.sound(),
    ensures
        img.compacted().sound(),
        img.compacted().arena_used <= img.arena_used,
        img.compacted().slots == img.slots,
        img.compacted().arena_seq % 2 == 0,
        img.compacted().value(key) == img.value(key),
        img.compacted().owed(key) == img.owed(key),
{
    reveal(Image::compacted);
    let last = if img.whole() {
        lemma_rebuilt(img, key);
        img.rebuilt()
    } else {
        lemma_reseated(img, key);
        img.reseated()
    };
    lemma_same_contents(last, last.arena_ended());
    assert(last.arena_ended().value(key) == last.value(key));
    assert(last.arena_ended().owed(key) == last.owed(key));
    lemma_ended(last);
}

/// A compaction drops all garbage: what it leaves in use of the arena is no more
/// than the keys and the values that there are.
pub proof fn law_compaction_packs(img: Image)
    requires
        img.sound(),
    ensures
        img.compacted().arena_used <= img.weight_upto(INDEX_SLOTS as int),
        img.compacted().arena_garbage == 0,
{
    reveal(Image::compacted);
    lemma_all_entries(img, INDEX_SLOTS as int);
    if img.whole() {
        let n = img.kept().len() as int;
        lemma_carried(img, n);
        lemma_kept_weight_grows(img.gone(), 0, img.gone().len() as int);
        lemma_placed_garbage(img.emptied(), img.kept(), n);
    } else {
        let ks = img.kept() + img.gone();
        let n = ks.len() as int;
        lemma_everything(img);
        lemma_carried(img, img.kept().len() as int);
        lemma_back(img, img.rebuilt().wiped(), ks, n);
        lemma_kept_weight_concat(img.kept(), img.gone(), img.gone().len() as int);
        lemma_seated_garbage(img.rebuilt().wiped(), ks, n);
    }
}

proof fn lemma_placed_garbage(img: Image, ks: Seq<KeptView>, n: int)
    ensures
        img.placed_upto(ks, n).arena_garbage == img.arena_garbage,
    decreases n,
{
    if n > 0 {
        lemma_placed_garbage(img, ks, n - 1);
    }
}

proof fn lemma_seated_garbage(img: Image, ks: Seq<KeptView>, n: int)
    ensures
        img.seated_upto(ks, n).arena_garbage == img.arena_garbage,
    decreases n,
{
    if n > 0 {
        lemma_seated_garbage(img, ks, n - 1);
    }
}

/// With a bucket for every entry, a compaction leaves no deletion that the disk
/// knows of: what is still there has a value, or is owed to the disk.
pub proof fn law_compaction_drops_committed(img: Image, i: int, key: Seq<u8>)
    requires
        img.sound(),
        img.whole(),
        img.compacted().holds(i, key),
    ensures
        img.value(key) is Some || img.owed(key),
{
    reveal(Image::compacted);
    let n = img.kept().len() as int;
    lemma_carried(img, n);
    lemma_same_contents(img.rebuilt(), img.rebuilt().arena_ended());
    assert(img.rebuilt().holds(i, key));
    let m = choose|m: int| 0 <= m < n && (#[trigger] img.kept()[m]).key == key;
    lemma_kept_said(img, m);
    lemma_kept_entries(img, INDEX_SLOTS as int);
    let b = choose|b: int| 0 <= b < INDEX_SLOTS && #[trigger] img.kept_at(b) == Some(img.kept()[m]);
    assert(img.entry_ok(b));
}

proof fn lemma_rebuilt(img: Image, key: Seq<u8>)
    requires
        img.sound(),
        img.whole(),
    ensures
        preserved(img, img.rebuilt(), key),
{
    let ks = img.kept();
    let n = ks.len() as int;
    let now = img.rebuilt();
    lemma_kept_fits(img);
    lemma_carried(img, n);
    if exists|m: int| 0 <= m < n && (#[trigger] ks[m]).key == key {
        let m = choose|m: int| 0 <= m < n && (#[trigger] ks[m]).key == key;
        lemma_kept_said(img, m);
        assert(img.fits_back(m));
    } else {
        assert forall|i: int| !#[trigger] now.holds(i, key) by {}
        lemma_value_unheld(now, key);
        lemma_unkept_said(img, key);
    }
}

proof fn lemma_ended(img: Image)
    ensures
        img.arena_ended().arena_seq % 2 == 0,
{
}

/// What the contents say of a key that a compaction carries over.
proof fn lemma_kept_said(img: Image, m: int)
    requires
        img.sound(),
        0 <= m < img.kept().len(),
    ensures
        img.value(img.kept()[m].key) == img.kept()[m].val,
        img.owed(img.kept()[m].key) == img.kept()[m].dirty(),
{
    let ks = img.kept();
    let key = ks[m].key;
    lemma_kept_entries(img, INDEX_SLOTS as int);
    let i = choose|i: int| 0 <= i < INDEX_SLOTS && #[trigger] img.kept_at(i) == Some(ks[m]);
    assert(img.holds(i, key));
    lemma_value_held(img, i, key);
    assert(img.entry_ok(i));
}

/// What the contents say of a key that a compaction does not carry over.
proof fn lemma_unkept_said(img: Image, key: Seq<u8>)
    requires
        img.sound(),
        forall|m: int| 0 <= m < img.kept().len() ==> (#[trigger] img.kept()[m]).key != key,
    ensures
        img.value(key) is None,
        !img.owed(key),
{
    let ks = img.kept();
    if exists|i: int| #[trigger] img.holds(i, key) {
        let i = choose|i: int| #[trigger] img.holds(i, key);
        lemma_value_held(img, i, key);
        assert(img.entry_ok(i));
        if img.kept_at(i) is Some {
            lemma_kept_entries(img, INDEX_SLOTS as int);
            let m = choose|m: int| 0 <= m < ks.len() && ks[m] == img.kept_at(i)->0;
            assert(ks[m].key == key);
        }
    } else {
        lemma_value_unheld(img, key);
    }
}

// ------------------------------------------------ everything where it was --

/// `k` is what entry `k.at` holds.
pub open spec fn stands_for(img: Image, k: KeptView) -> bool {
    let e = img.index[k.at];
    &&& img.holds(k.at, k.key)
    &&& e.flags == k.flags
    &&& e.hash == fnv(k.key)
    &&& k.weight() == img.weight(k.at)
    &&& match k.val {
        Some(v) => e.state == ST_LIVE && img.val_at(k.at) == Some(v),
        None => e.state == ST_TOMB,
    }
}

/// Everything that a compaction carries over or drops of the first `n` entries.
proof fn lemma_all_entries(img: Image, n: int)
    requires
        img.sound(),
        0 <= n <= INDEX_SLOTS,
    ensures
        forall|m: int|
            0 <= m < img.kept_upto(n).len() ==> stands_for(img, #[trigger] img.kept_upto(n)[m])
                && img.kept_upto(n)[m].at < n,
        forall|m: int|
            0 <= m < img.gone_upto(n).len() ==> stands_for(img, #[trigger] img.gone_upto(n)[m])
                && img.gone_upto(n)[m].at < n,
        forall|i: int|
            0 <= i < n && (#[trigger] img.index[i]).state != ST_EMPTY ==> listed_at(
                img.kept_upto(n),
                i,
            ) || listed_at(img.gone_upto(n), i),
        kept_weight(img.kept_upto(n), img.kept_upto(n).len() as int) + kept_weight(
            img.gone_upto(n),
            img.gone_upto(n).len() as int,
        ) == img.weight_upto(n),
        apart(img.kept_upto(n)),
        apart(img.gone_upto(n)),
        forall|m: int, l: int|
            0 <= m < img.kept_upto(n).len() && 0 <= l < img.gone_upto(n).len() ==> (
            #[trigger] img.kept_upto(n)[m]).at != (#[trigger] img.gone_upto(n)[l]).at,
    decreases n,
{
    if n > 0 {
        lemma_all_entries(img, n - 1);
        let i = n - 1;
        let ks = img.kept_upto(n - 1);
        let gs = img.gone_upto(n - 1);
        assert(img.entry_ok(i));
        let e = img.index[i];
        if e.state != ST_EMPTY {
            assert(img.key_at(i) is Some);
            let k = if is_clean_tomb(e) {
                img.gone_at(i)->0
            } else {
                img.kept_at(i)->0
            };
            assert(stands_for(img, k));
            if is_clean_tomb(e) {
                assert(img.gone_upto(n) == gs.push(k));
                lemma_kept_weight_push(gs, k, gs.len() as int);
                assert(img.gone_upto(n)[gs.len() as int].at == i);
            } else {
                assert(img.kept_upto(n) == ks.push(k));
                lemma_kept_weight_push(ks, k, ks.len() as int);
                assert(img.kept_upto(n)[ks.len() as int].at == i);
            }
        }
        assert forall|j: int|
            0 <= j < n && (#[trigger] img.index[j]).state != ST_EMPTY implies listed_at(
            img.kept_upto(n),
            j,
        ) || listed_at(img.gone_upto(n), j) by {
            if j < i {
                if listed_at(ks, j) {
                    let m = choose|m: int| 0 <= m < ks.len() && (#[trigger] ks[m]).at == j;
                    assert(img.kept_upto(n)[m].at == j);
                } else {
                    let m = choose|m: int| 0 <= m < gs.len() && (#[trigger] gs[m]).at == j;
                    assert(img.gone_upto(n)[m].at == j);
                }
            }
        }
    }
}

/// One of `ks` was in bucket `i`.
pub open spec fn listed_at(ks: Seq<KeptView>, i: int) -> bool {
    exists|m: int| 0 <= m < ks.len() && (#[trigger] ks[m]).at == i
}

/// No two of `ks` were in one bucket.
pub open spec fn apart(ks: Seq<KeptView>) -> bool {
    forall|m: int, l: int|
        0 <= m < l < ks.len() ==> (#[trigger] ks[m]).at != (#[trigger] ks[l]).at
}

proof fn lemma_kept_weight_concat(a: Seq<KeptView>, b: Seq<KeptView>, n: int)
    requires
        0 <= n <= b.len(),
    ensures
        kept_weight(a + b, a.len() + n) == kept_weight(a, a.len() as int) + kept_weight(b, n),
    decreases n,
{
    if n > 0 {
        lemma_kept_weight_concat(a, b, n - 1);
        assert((a + b)[a.len() + n - 1] == b[n - 1]);
    } else {
        lemma_kept_weight_prefix(a, b, a.len() as int);
    }
}

proof fn lemma_kept_weight_prefix(a: Seq<KeptView>, b: Seq<KeptView>, n: int)
    requires
        n <= a.len(),
    ensures
        kept_weight(a + b, n) == kept_weight(a, n),
    decreases n,
{
    if n > 0 {
        lemma_kept_weight_prefix(a, b, n - 1);
        assert((a + b)[n - 1] == a[n - 1]);
    }
}

/// Everything there is, carried over and dropped entries together.
proof fn lemma_everything(img: Image)
    requires
        img.sound(),
    ensures
        ({
            let all = img.kept() + img.gone();
            &&& forall|m: int| 0 <= m < all.len() ==> stands_for(img, #[trigger] all[m])
            &&& apart(all)
            &&& forall|i: int|
                0 <= i < INDEX_SLOTS && (#[trigger] img.index[i]).state != ST_EMPTY ==> listed_at(
                    all,
                    i,
                )
            &&& kept_weight(all, all.len() as int) <= img.arena_used
        }),
{
    let ks = img.kept();
    let gs = img.gone();
    let all = ks + gs;
    lemma_all_entries(img, INDEX_SLOTS as int);
    lemma_kept_weight_concat(ks, gs, gs.len() as int);
    assert forall|m: int| 0 <= m < all.len() implies stands_for(img, #[trigger] all[m]) by {
        if m < ks.len() {
            assert(all[m] == ks[m]);
        } else {
            assert(all[m] == gs[m - ks.len()]);
        }
    }
    assert forall|m: int, l: int| 0 <= m < l < all.len() implies (#[trigger] all[m]).at != (
    #[trigger] all[l]).at by {
        if l < ks.len() {
            assert(all[m] == ks[m] && all[l] == ks[l]);
        } else if m < ks.len() {
            assert(all[m] == ks[m] && all[l] == gs[l - ks.len()]);
        } else {
            assert(all[m] == gs[m - ks.len()] && all[l] == gs[l - ks.len()]);
        }
    }
    assert forall|i: int|
        0 <= i < INDEX_SLOTS && (#[trigger] img.index[i]).state != ST_EMPTY implies listed_at(
        all,
        i,
    ) by {
        if listed_at(ks, i) {
            let m = choose|m: int| 0 <= m < ks.len() && (#[trigger] ks[m]).at == i;
            assert(all[m].at == i);
        } else {
            let m = choose|m: int| 0 <= m < gs.len() && (#[trigger] gs[m]).at == i;
            assert(all[ks.len() + m].at == i);
        }
    }
}

/// Entry `k.at` of `now` is what `k` says.
pub open spec fn sits(now: Image, k: KeptView) -> bool {
    let e = now.index[k.at];
    &&& e.hash == fnv(k.key)
    &&& e.flags == k.flags
    &&& e.key_off + e.key_len <= now.arena_used
    &&& now.key_at(k.at) == Some(k.key)
    &&& now.weight(k.at) == k.weight()
    &&& match k.val {
        Some(v) => e.state == ST_LIVE && e.val_off + e.val_len <= now.arena_used && now.val_at(k.at)
            == Some(v),
        None => e.state == ST_TOMB,
    }
}

/// Carrying an entry over into an empty bucket.
proof fn lemma_seated(img: Image, k: KeptView)
    requires
        img.sized(),
        0 <= k.at < INDEX_SLOTS,
        img.has_room(k.weight()),
        img.index[k.at].state == ST_EMPTY,
    ensures
        ({
            let now = img.seated(k.at, k);
            &&& now.sized()
            &&& now.slots == img.slots
            &&& now.index == img.index.update(k.at, now.index[k.at])
            &&& now.arena_used == img.arena_used + k.weight()
            &&& forall|p: int| 0 <= p < img.arena_used ==> now.arena[p] == img.arena[p]
            &&& sits(now, k)
        }),
{
    let i = k.at;
    lemma_allocated(img, k.key);
    let keyed = img.allocated(k.key).with_entry(
        i,
        IndexEntry {
            key_off: img.arena_used as u32,
            key_len: k.key.len() as u32,
            hash: fnv(k.key),
            flags: k.flags,
            ..img.index[i]
        },
    );
    let now = img.seated(i, k);
    match k.val {
        Some(v) => {
            assert(keyed.arena_used == img.arena_used + k.key.len());
            lemma_allocated(keyed, v);
            assert(now.arena =~= keyed.allocated(v).arena);
            assert(now.val_at(i) == Some(v));
            assert(now.key_at(i) == Some(k.key)) by {
                let from = img.arena_used as int;
                assert(now.arena.subrange(from, from + k.key.len()) =~= k.key) by {
                    assert forall|p: int| 0 <= p < k.key.len() implies now.arena[from + p]
                        == k.key[p] by {
                        assert(keyed.arena[from + p] == k.key[p]);
                    }
                }
            }
            assert forall|p: int| 0 <= p < img.arena_used implies now.arena[p]
                == img.arena[p] by {
                assert(keyed.arena[p] == img.arena[p]);
            }
        },
        None => {
            assert(now.key_at(i) == Some(k.key));
        },
    }
    assert(now.index =~= img.index.update(i, now.index[i]));
}

/// What holds once the first `n` of `ks` are back where they were.
pub open spec fn back(now: Image, ks: Seq<KeptView>, n: int) -> bool {
    &&& now.sized()
    &&& now.arena_used == kept_weight(ks, n)
    &&& now.weight_upto(INDEX_SLOTS as int) == now.arena_used
    &&& forall|m: int| 0 <= m < n ==> sits(now, #[trigger] ks[m])
    &&& forall|i: int|
        0 <= i < INDEX_SLOTS && !listed_at(ks.subrange(0, n), i) ==> #[trigger] now.index[i]
            == empty_entry()
}

/// Bringing everything back, one entry after the other.
proof fn lemma_back(img: Image, start: Image, ks: Seq<KeptView>, n: int)
    requires
        start.sized(),
        start.arena_used == 0,
        forall|i: int| 0 <= i < INDEX_SLOTS ==> #[trigger] start.index[i] == empty_entry(),
        0 <= n <= ks.len(),
        apart(ks),
        forall|m: int| 0 <= m < ks.len() ==> stands_for(img, #[trigger] ks[m]),
        kept_weight(ks, ks.len() as int) <= ARENA_SIZE,
    ensures
        back(start.seated_upto(ks, n), ks, n),
        start.seated_upto(ks, n).slots == start.slots,
    decreases n,
{
    if n == 0 {
        lemma_empty_weight(start, INDEX_SLOTS as int);
    } else {
        lemma_back(img, start, ks, n - 1);
        lemma_back_step(img, start.seated_upto(ks, n - 1), ks, n);
    }
}

proof fn lemma_back_step(img: Image, was: Image, ks: Seq<KeptView>, n: int)
    requires
        0 < n <= ks.len(),
        apart(ks),
        forall|m: int| 0 <= m < ks.len() ==> stands_for(img, #[trigger] ks[m]),
        kept_weight(ks, ks.len() as int) <= ARENA_SIZE,
        back(was, ks, n - 1),
    ensures
        back(was.seated(ks[n - 1].at, ks[n - 1]), ks, n),
        was.seated(ks[n - 1].at, ks[n - 1]).slots == was.slots,
{
    let k = ks[n - 1];
    let now = was.seated(k.at, k);
    let before = ks.subrange(0, n - 1);
    let upto = ks.subrange(0, n);
    assert(stands_for(img, k));
    lemma_kept_weight_grows(ks, n, ks.len() as int);
    lemma_kept_weight_grows(ks, 0, n - 1);
    assert(!listed_at(before, k.at)) by {
        if listed_at(before, k.at) {
            let m = choose|m: int| 0 <= m < before.len() && (#[trigger] before[m]).at == k.at;
            assert(ks[m].at == k.at);
        }
    }
    assert(was.index[k.at] == empty_entry());
    lemma_seated(was, k);
    lemma_weight_update(was, now, k.at, INDEX_SLOTS as int);
    assert(was.weight(k.at) == 0);
    assert forall|m: int| 0 <= m < n implies sits(now, #[trigger] ks[m]) by {
        if m < n - 1 {
            let j = ks[m];
            assert(j.at != k.at);
            assert(sits(was, j));
            assert(stands_for(img, j));
            let e = was.index[j.at];
            lemma_slice_stable(was, now, e.key_off, e.key_len);
            if e.state == ST_LIVE {
                lemma_slice_stable(was, now, e.val_off, e.val_len);
            }
        }
    }
    assert forall|i: int|
        0 <= i < INDEX_SLOTS && !listed_at(upto, i) implies #[trigger] now.index[i]
        == empty_entry() by {
        if i == k.at {
            assert(upto[n - 1].at == i);
        }
        if listed_at(before, i) {
            let m = choose|m: int| 0 <= m < before.len() && (#[trigger] before[m]).at == i;
            assert(upto[m].at == i);
        }
        assert(was.index[i] == empty_entry());
    }
}

/// With everything back where it was, each bucket is taken by whom it was taken
/// by.
proof fn lemma_seat(img: Image, now: Image, ks: Seq<KeptView>, i: int)
    requires
        img.sound(),
        back(now, ks, ks.len() as int),
        forall|m: int| 0 <= m < ks.len() ==> stands_for(img, #[trigger] ks[m]),
        forall|j: int|
            0 <= j < INDEX_SLOTS && (#[trigger] img.index[j]).state != ST_EMPTY ==> listed_at(
                ks,
                j,
            ),
        0 <= i < INDEX_SLOTS,
    ensures
        now.index[i].state == img.index[i].state,
        img.index[i].state != ST_EMPTY ==> {
            &&& now.index[i].hash == img.index[i].hash
            &&& now.index[i].flags == img.index[i].flags
            &&& now.key_at(i) == img.key_at(i)
            &&& now.index[i].key_off + now.index[i].key_len <= now.arena_used
        },
        img.index[i].state == ST_LIVE ==> {
            &&& now.val_at(i) == img.val_at(i)
            &&& now.index[i].val_off + now.index[i].val_len <= now.arena_used
        },
{
    assert(ks.subrange(0, ks.len() as int) =~= ks);
    assert(img.entry_ok(i));
    if listed_at(ks, i) {
        let m = choose|m: int| 0 <= m < ks.len() && (#[trigger] ks[m]).at == i;
        assert(stands_for(img, ks[m]));
        assert(sits(now, ks[m]));
    } else {
        assert(now.index[i] == empty_entry());
    }
}

/// Everything back where it was says what was said before.
proof fn lemma_reseated(img: Image, key: Seq<u8>)
    requires
        img.sound(),
    ensures
        preserved(img, img.reseated(), key),
{
    let ks = img.kept() + img.gone();
    let n = ks.len() as int;
    let start = img.rebuilt().wiped();
    let now = img.reseated();
    lemma_everything(img);
    lemma_carried(img, img.kept().len() as int);
    lemma_back(img, start, ks, n);
    assert(now == start.seated_upto(ks, n));
    assert forall|i: int| 0 <= i < INDEX_SLOTS implies (#[trigger] now.index[i]).state
        == img.index[i].state by {
        lemma_seat(img, now, ks, i);
    }
    assert forall|i: int| 0 <= i < INDEX_SLOTS implies #[trigger] now.entry_ok(i) by {
        lemma_seat(img, now, ks, i);
        assert(img.entry_ok(i));
        if img.index[i].state != ST_EMPTY {
            let h = img.index[i].hash;
            let d = choose|d: int|
                0 <= d < MAX_PROBES && #[trigger] bucket(h, d) == i && img.packed(h, d);
            assert forall|c: int| 0 <= c < d implies now.index[#[trigger] bucket(h, c)].state
                != ST_EMPTY by {
                lemma_bucket_range(h, c);
            }
            assert(bucket(h, d) == i && now.packed(h, d));
        }
    }
    assert forall|i: int, k: Seq<u8>| #[trigger] now.holds(i, k) == img.holds(i, k) by {
        if 0 <= i < INDEX_SLOTS {
            lemma_seat(img, now, ks, i);
        }
    }
    assert forall|i: int, j: int, k: Seq<u8>| #[trigger]
        now.holds(i, k) && #[trigger] now.holds(j, k) implies i == j by {
        assert(img.holds(i, k) && img.holds(j, k));
    }
    assert(now.sound());
    if exists|i: int| #[trigger] img.holds(i, key) {
        let i = choose|i: int| #[trigger] img.holds(i, key);
        lemma_seat(img, now, ks, i);
        assert(now.holds(i, key));
        lemma_value_held(img, i, key);
        lemma_value_held(now, i, key);
    } else {
        assert forall|i: int| !#[trigger] now.holds(i, key) by {
            assert(now.holds(i, key) == img.holds(i, key));
        }
        lemma_value_unheld(img, key);
        lemma_value_unheld(now, key);
    }
}

/// With everything back where it was, a bucket that is free is empty.
pub proof fn lemma_reseated_empty(img: Image)
    requires
        img.sound(),
    ensures
        forall|i: int|
            0 <= i < INDEX_SLOTS && (#[trigger] img.reseated().index[i]).state == ST_EMPTY
                ==> img.reseated().index[i] == empty_entry(),
{
    let ks = img.kept() + img.gone();
    let n = ks.len() as int;
    let now = img.reseated();
    lemma_everything(img);
    lemma_carried(img, img.kept().len() as int);
    lemma_back(img, img.rebuilt().wiped(), ks, n);
    assert(ks.subrange(0, n) =~= ks);
    assert forall|i: int|
        0 <= i < INDEX_SLOTS && (#[trigger] now.index[i]).state == ST_EMPTY implies now.index[i]
        == empty_entry() by {
        if listed_at(ks, i) {
            let m = choose|m: int| 0 <= m < ks.len() && (#[trigger] ks[m]).at == i;
            assert(sits(now, ks[m]));
        }
    }
}

// -------------------------------------------- when there is a bucket for all --

impl Image {
    /// No entry worth carrying over lies before the bucket at which the search
    /// for it starts: none was pushed around the end of the index.
    pub open spec fn unwrapped(self) -> bool {
        forall|i: int|
            0 <= i < INDEX_SLOTS && #[trigger] self.kept_at(i) is Some ==> home(self.index[i].hash)
                <= i
    }
}

proof fn lemma_kept_prefix(img: Image, i: int, n: int)
    requires
        0 <= i <= n,
    ensures
        img.kept_upto(i).len() <= img.kept_upto(n).len(),
        forall|m: int|
            0 <= m < img.kept_upto(i).len() ==> img.kept_upto(n)[m] == #[trigger] img.kept_upto(
                i,
            )[m],
    decreases n,
{
    if i < n {
        lemma_kept_prefix(img, i, n - 1);
    }
}

/// A search that has an empty bucket within its reach stops there at the
/// latest.
proof fn lemma_claims_early(img: Image, key: Seq<u8>, d: int)
    requires
        img.sound(),
        forall|i: int| !#[trigger] img.holds(i, key),
        0 <= d < MAX_PROBES,
        img.index[bucket(fnv(key), d)].state == ST_EMPTY,
    ensures
        match img.probe(key, fnv(key)) {
            Some((b, _)) => exists|e: int| 0 <= e <= d && b == #[trigger] bucket(fnv(key), e),
            None => false,
        },
{
    let hash = fnv(key);
    lemma_probe_absent(img, key);
    match img.probe(key, hash) {
        Some((b, _)) => {
            let e = choose|e: int|
                0 <= e < MAX_PROBES && #[trigger] bucket(hash, e) == b && img.packed(hash, e);
            if e > d {
                assert(img.index[bucket(hash, d)].state != ST_EMPTY);
            }
            assert(bucket(hash, e) == b);
        },
        None => {
            assert(img.index[bucket(hash, d)].state != ST_EMPTY);
        },
    }
}

/// Buckets from `i` on are empty.
pub open spec fn empty_from(img: Image, i: int) -> bool {
    forall|b: int| i <= b < INDEX_SLOTS ==> (#[trigger] img.index[b]).state == ST_EMPTY
}

/// Carrying over what the first `i` entries hold fills buckets below `i` only,
/// and finds one for each.
proof fn lemma_unwrapped_below(img: Image, i: int)
    requires
        img.sound(),
        img.unwrapped(),
        0 <= i <= INDEX_SLOTS,
    ensures
        img.kept_upto(i).len() <= img.kept().len(),
        empty_from(
            img.emptied().placed_upto(img.kept(), img.kept_upto(i).len() as int),
            i,
        ),
        forall|m: int| 0 <= m < img.kept_upto(i).len() ==> #[trigger] img.fits_back(m),
    decreases i,
{
    lemma_kept_prefix(img, i, INDEX_SLOTS as int);
    if i > 0 {
        lemma_unwrapped_below(img, i - 1);
        match img.kept_at(i - 1) {
            None => {},
            Some(k) => {
                let n = img.kept_upto(i).len() as int;
                assert(img.kept_upto(i)[n - 1] == k);
                assert(img.kept()[n - 1] == k);
                lemma_unwrapped_step(img, i, n, k);
                assert forall|m: int| 0 <= m < n implies #[trigger] img.fits_back(m) by {}
            },
        }
    }
}

proof fn lemma_unwrapped_step(img: Image, i: int, n: int, k: KeptView)
    requires
        img.sound(),
        img.unwrapped(),
        0 < i <= INDEX_SLOTS,
        0 < n <= img.kept().len(),
        img.kept()[n - 1] == k,
        img.kept_at(i - 1) == Some(k),
        empty_from(img.emptied().placed_upto(img.kept(), n - 1), i - 1),
    ensures
        empty_from(img.emptied().placed_upto(img.kept(), n), i),
        img.fits_back(n - 1),
{
    let before = img.emptied().placed_upto(img.kept(), n - 1);
    let now = img.emptied().placed_upto(img.kept(), n);
    let hash = fnv(k.key);
    lemma_carried(img, n - 1);
    lemma_unheld_before(img, n - 1);
    lemma_placed(before, k);
    assert(now == before.placed(k));
    assert(img.entry_ok(i - 1));
    assert(img.index[i - 1].hash == hash);
    let d = choose|d: int|
        0 <= d < MAX_PROBES && #[trigger] bucket(hash, d) == i - 1 && img.packed(hash, d);
    assert(before.index[i - 1].state == ST_EMPTY);
    lemma_claims_early(before, k.key, d);
    match before.probe(k.key, hash) {
        Some((b, _)) => {
            let e = choose|e: int| 0 <= e <= d && b == #[trigger] bucket(hash, e);
            assert(img.fits_back(n - 1)) by {
                reveal(Image::fits_back);
            }
            assert(b <= i - 1);
            assert forall|c: int| i <= c < INDEX_SLOTS implies (#[trigger] now.index[c]).state
                == ST_EMPTY by {
                assert(now.index[c] == before.index[c]);
            }
        },
        None => {},
    }
}

/// There is a bucket for every entry as long as none was pushed around the end
/// of the index.
pub proof fn law_unwrapped_is_whole(img: Image)
    requires
        img.sound(),
        img.unwrapped(),
    ensures
        img.whole(),
{
    lemma_unwrapped_below(img, INDEX_SLOTS as int);
}

/// There is a bucket for every entry as long as there are no more of them to
/// carry over than a search looks at.
pub proof fn law_few_is_whole(img: Image)
    requires
        img.sound(),
        img.kept().len() <= MAX_PROBES,
    ensures
        img.whole(),
{
    assert forall|m: int| 0 <= m < img.kept().len() implies #[trigger] img.fits_back(m) by {
        let ks = img.kept();
        let key = ks[m].key;
        let hash = fnv(key);
        let before = img.emptied().placed_upto(ks, m);
        reveal(Image::fits_back);
        lemma_carried(img, m);
        lemma_unheld_before(img, m);
        lemma_probe_absent(before, key);
        if before.probe(key, hash) is None {
            // Each of the buckets looked at holds one of the `m` keys.
            let who = Seq::new(
                MAX_PROBES as nat,
                |c: int|
                    choose|l: int| 0 <= l < m && ks[l].key == before.key_at(bucket(hash, c))->0,
            );
            assert forall|c: int| 0 <= c < MAX_PROBES implies 0 <= #[trigger] who[c] < m
                && ks[who[c]].key == before.key_at(bucket(hash, c))->0 && before.holds(
                bucket(hash, c),
                ks[who[c]].key,
            ) by {
                let b = bucket(hash, c);
                lemma_bucket_range(hash, c);
                assert(before.index[b].state != ST_EMPTY);
                assert(before.entry_ok(b));
                assert(before.holds(b, before.key_at(b)->0));
                let l = choose|l: int|
                    0 <= l < m && (#[trigger] ks[l]).key == before.key_at(b)->0;
                assert(0 <= l < m && ks[l].key == before.key_at(b)->0);
            }
            assert(who.no_duplicates()) by {
                assert forall|c: int, e: int|
                    0 <= c < who.len() && 0 <= e < who.len() && c != e implies who[c]
                    != who[e] by {
                    if who[c] == who[e] {
                        assert(before.holds(bucket(hash, c), ks[who[c]].key));
                        assert(before.holds(bucket(hash, e), ks[who[c]].key));
                        lemma_bucket_injective(hash, c, e);
                    }
                }
            }
            who.unique_seq_to_set();
            vstd::set_lib::lemma_int_range(0, m);
            assert(who.to_set().subset_of(vstd::set_lib::set_int_range(0, m)));
            vstd::set_lib::lemma_len_subset(who.to_set(), vstd::set_lib::set_int_range(0, m));
        }
    }
}

} // verus!
