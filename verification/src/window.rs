//! What it says that the counters are unchanged.
//!
//! Everything that is stored into the segment under the writer lock is a series
//! of deeds: whole updates and deletions, each between two stores to the counter
//! of its key; compactions and the emptying of the store, enclosed by two stores
//! to the counter of the arena; and single stores that repair a counter, count a
//! change or cancel a debt. A reader without a lock looks at the segment between
//! two moments of that series. If the counters are even and the same at both,
//! what it read is the value of the key.

use vstd::prelude::*;

use crate::cache::{entry_in, terminated};
use crate::compaction::{law_compaction, lemma_same_contents};
use crate::consts::{INDEX_SLOTS, SLOTS};
use crate::get::{GetEventView, GetStep, GetView};
use crate::hash::fnv;
use crate::image::{
    lemma_replay_concat, lemma_replay_push, next_even, next_odd, slot_for, Image, ReadView,
    WriteView, ST_EMPTY, ST_LIVE,
};
use crate::seqlock::{
    law_flags_leave_all_alone, law_lock_free_read, law_removal_leaves_others_alone,
    law_update_leaves_others_alone, lemma_steady_value, mixed, reclaims, steady, steady_at,
};
use crate::shm::{adds_enclosed, is_content};
use crate::sound::{lemma_one_entry_sound, lemma_slice_stable, one_entry};
use crate::store::StoreView;
use crate::update::{law_bracket_odd, lemma_removed, lemma_updated, probed, Update};

verus! {

/// A store that is made on its own: one that takes a counter to the next even
/// number, one that counts a change, or one to the flags of a taken entry.
pub open spec fn stands_alone(img: Image, w: WriteView) -> bool {
    match w {
        WriteView::Slot(s, v) => 0 <= s < SLOTS && v == next_even(img.slots[s]),
        WriteView::ArenaSeq(v) => v == next_even(img.arena_seq),
        WriteView::GlobalGen(_) => true,
        WriteView::Flags(i, _) => 0 <= i < INDEX_SLOTS && img.index[i].state != ST_EMPTY,
        _ => false,
    }
}

/// Something done to the segment under the writer lock.
pub enum Deed {
    /// A key gets a value.
    Update { u: Update, dirty: bool },
    /// The key of entry `i` is deleted.
    Removal { i: int, key: Seq<u8>, dirty: bool },
    /// Stores to the contents, enclosed by two to the arena's counter.
    Enclosed { inside: Seq<WriteView> },
    /// One store to a counter or to the flags of an entry.
    Single { w: WriteView },
}

impl Deed {
    /// The stores of the deed, done to `img`.
    #[verifier::opaque]
    pub open spec fn stores(self, img: Image) -> Seq<WriteView> {
        match self {
            Deed::Update { u, dirty } => img.update_writes(
                u.i,
                u.found,
                u.key,
                u.val,
                fnv(u.key),
                dirty,
            ).0,
            Deed::Removal { i, key, dirty } => img.bracket(
                slot_for(fnv(key)),
                img.tomb_writes(i, dirty),
            ),
            Deed::Enclosed { inside } => (Seq::<WriteView>::empty().push(
                WriteView::ArenaSeq(next_odd(img.arena_seq)),
            ) + inside).push(WriteView::ArenaSeq(next_even(next_odd(img.arena_seq)))),
            Deed::Single { w } => Seq::<WriteView>::empty().push(w),
        }
    }

    /// The deed can be done to `img`.
    #[verifier::opaque]
    pub open spec fn valid(self, img: Image) -> bool {
        match self {
            Deed::Update { u, dirty } => {
                &&& probed(img, u)
                &&& img.has_room((u.key.len() + u.val.len()) as int)
            },
            Deed::Removal { i, key, dirty } => {
                &&& img.holds(i, key)
                &&& img.index[i].state == ST_LIVE
            },
            Deed::Enclosed { inside } => {
                &&& forall|j: int| 0 <= j < inside.len() ==> is_content(#[trigger] inside[j])
                &&& self.done(img).sound()
            },
            Deed::Single { w } => stands_alone(img, w),
        }
    }

    /// `img` after the first `p` stores of the deed.
    pub open spec fn midst(self, img: Image, p: int) -> Image {
        img.replay(self.stores(img).take(p))
    }

    /// `img` after the deed.
    pub open spec fn done(self, img: Image) -> Image {
        img.replay(self.stores(img))
    }

    /// The slot whose counter encloses the deed, if it is one of a key.
    pub open spec fn slot(self) -> Option<int> {
        match self {
            Deed::Update { u, dirty } => Some(slot_for(fnv(u.key))),
            Deed::Removal { i, key, dirty } => Some(slot_for(fnv(key))),
            _ => None,
        }
    }

    /// The stores of the deed to the entry of its key.
    pub open spec fn inner(self, img: Image) -> Seq<WriteView> {
        match self {
            Deed::Update { u, dirty } => img.entry_writes(
                u.i,
                u.found,
                u.key,
                u.val,
                fnv(u.key),
                dirty,
            ).0,
            Deed::Removal { i, key, dirty } => img.tomb_writes(i, dirty),
            _ => Seq::empty(),
        }
    }
}

/// The segment before the `k`-th deed.
pub open spec fn before(base: Image, ds: Seq<Deed>, k: int) -> Image
    decreases k,
{
    if k <= 0 {
        base
    } else {
        ds[k - 1].done(before(base, ds, k - 1))
    }
}

/// The stores of the first `k` deeds.
pub open spec fn log(base: Image, ds: Seq<Deed>, k: int) -> Seq<WriteView>
    decreases k,
{
    if k <= 0 {
        Seq::empty()
    } else {
        log(base, ds, k - 1) + ds[k - 1].stores(before(base, ds, k - 1))
    }
}

/// The segment after the first `t` stores of the deeds.
pub open spec fn at(base: Image, ds: Seq<Deed>, t: int) -> Image {
    base.replay(log(base, ds, ds.len() as int).take(t))
}

/// Each deed can be done when its turn comes, and the counters of the slot and
/// of the arena are far from the end of their range.
pub open spec fn lawful(base: Image, ds: Seq<Deed>, slot: int) -> bool {
    forall|k: int|
        0 <= k < ds.len() ==> {
            &&& (#[trigger] ds[k]).valid(before(base, ds, k))
            &&& before(base, ds, k).slots[slot] <= u64::MAX - 4
            &&& before(base, ds, k).arena_seq <= u64::MAX - 4
        }
}

// --------------------------------------------------------- one deed alone --

proof fn lemma_inner_plain(d: Deed, img: Image)
    requires
        d.slot() is Some,
    ensures
        d.stores(img) == img.bracket(d.slot()->0, d.inner(img)),
        forall|j: int|
            0 <= j < d.inner(img).len() ==> !(#[trigger] d.inner(img)[j] is Slot) && !(d.inner(
                img,
            )[j] is ArenaSeq),
{
    reveal(Deed::stores);
}

/// The arena's counter does not move while a key is written.
proof fn lemma_bracket_arena(img: Image, slot: int, ws: Seq<WriteView>, p: int)
    requires
        0 <= p <= img.bracket(slot, ws).len(),
        forall|j: int| 0 <= j < ws.len() ==> !(#[trigger] ws[j] is ArenaSeq),
    ensures
        img.replay(img.bracket(slot, ws).take(p)).arena_seq == img.arena_seq,
    decreases p,
{
    let all = img.bracket(slot, ws);
    if p == 0 {
        assert(all.take(0) =~= Seq::empty());
    } else {
        let w = all[p - 1];
        lemma_bracket_arena(img, slot, ws, p - 1);
        assert(all.take(p) =~= all.take(p - 1).push(w));
        lemma_replay_push(img, all.take(p - 1), w);
        if 1 <= p - 1 <= ws.len() {
            assert(w == ws[p - 2]);
        }
    }
}

/// The counters while a key of some slot is written.
proof fn lemma_keyed_counters(d: Deed, img: Image, p: int)
    requires
        d.slot() is Some,
        img.sized(),
        0 <= p <= d.stores(img).len(),
    ensures
        ({
            let q = d.slot()->0;
            let n = d.inner(img).len();
            let now = d.midst(img, p);
            &&& d.stores(img).len() == n + 3
            &&& now.arena_seq == img.arena_seq
            &&& forall|s: int| 0 <= s < SLOTS && s != q ==> #[trigger] now.slots[s] == img.slots[s]
            &&& p == 0 ==> now == img
            &&& 0 < p <= 1 + n ==> now.slots[q] == next_odd(img.slots[q])
            &&& p > 1 + n ==> now.slots[q] == next_even(next_odd(img.slots[q]))
        }),
{
    lemma_inner_plain(d, img);
    let q = d.slot()->0;
    lemma_bracket_arena(img, q, d.inner(img), p);
    if p == 0 {
        assert(d.stores(img).take(0) =~= Seq::empty());
    } else {
        law_bracket_odd(img, q, d.inner(img), p);
    }
}

/// The counters while stores are enclosed by two to the arena's counter.
proof fn lemma_enclosed_counters(d: Deed, img: Image, p: int)
    requires
        d is Enclosed,
        img.sized(),
        forall|j: int|
            0 <= j < d->inside.len() ==> is_content(#[trigger] d->inside[j]),
        0 <= p <= d.stores(img).len(),
    ensures
        ({
            let n = d->inside.len();
            let now = d.midst(img, p);
            &&& d.stores(img).len() == n + 2
            &&& now.slots == img.slots
            &&& p == 0 ==> now == img
            &&& 0 < p <= 1 + n ==> now.arena_seq == next_odd(img.arena_seq)
            &&& p > 1 + n ==> now.arena_seq == next_even(next_odd(img.arena_seq))
        }),
    decreases p,
{
    reveal(Deed::stores);
    let all = d.stores(img);
    if p == 0 {
        assert(all.take(0) =~= Seq::empty());
    } else {
        let w = all[p - 1];
        lemma_enclosed_counters(d, img, p - 1);
        assert(all.take(p) =~= all.take(p - 1).push(w));
        lemma_replay_push(img, all.take(p - 1), w);
        if 1 <= p - 1 <= d->inside.len() {
            assert(w == d->inside[p - 2]);
            assert(is_content(d->inside[p - 2]));
        }
    }
}

/// A deed of one store.
proof fn lemma_single(d: Deed, img: Image, p: int)
    requires
        d is Single,
        0 <= p <= d.stores(img).len(),
    ensures
        d.stores(img).len() == 1,
        d.midst(img, p) == if p == 0 {
            img
        } else {
            img.apply(d->w)
        },
{
    reveal(Deed::stores);
    let all = d.stores(img);
    if p == 0 {
        assert(all.take(0) =~= Seq::empty());
    } else {
        assert(all.take(p) =~= Seq::<WriteView>::empty().push(d->w));
        lemma_replay_push(img, Seq::empty(), d->w);
    }
}

/// No store of a deed takes a counter back.
proof fn lemma_deed_step(d: Deed, img: Image, slot: int, p: int)
    requires
        img.sized(),
        d.valid(img),
        0 <= slot < SLOTS,
        img.slots[slot] <= u64::MAX - 4,
        img.arena_seq <= u64::MAX - 4,
        0 <= p < d.stores(img).len(),
    ensures
        d.midst(img, p).slots[slot] <= d.midst(img, p + 1).slots[slot],
        d.midst(img, p).arena_seq <= d.midst(img, p + 1).arena_seq,
{
    reveal(Deed::valid);
    match d {
        Deed::Enclosed { inside } => {
            lemma_enclosed_counters(d, img, p);
            lemma_enclosed_counters(d, img, p + 1);
        },
        Deed::Single { w } => {
            lemma_single(d, img, p);
            lemma_single(d, img, p + 1);
        },
        _ => {
            lemma_keyed_counters(d, img, p);
            lemma_keyed_counters(d, img, p + 1);
        },
    }
}

/// A deed leaves the contents in order.
proof fn lemma_deed_sound(d: Deed, img: Image)
    requires
        img.sound(),
        d.valid(img),
    ensures
        d.done(img).sound(),
{
    reveal(Deed::stores);
    reveal(Deed::valid);
    let now = d.done(img);
    match d {
        Deed::Update { u, dirty } => {
            lemma_updated(img, u, dirty);
            lemma_one_entry_sound(img, now, u.i, u.key);
        },
        Deed::Removal { i, key, dirty } => {
            lemma_removed(img, i, key, dirty);
            lemma_one_entry_sound(img, now, i, key);
        },
        Deed::Enclosed { inside } => {},
        Deed::Single { w } => {
            lemma_single(d, img, 1);
            assert(d.stores(img).take(1) =~= d.stores(img));
            match w {
                WriteView::Flags(i, flags) => {
                    assert(img.entry_ok(i));
                    let key = img.key_at(i)->0;
                    lemma_slice_stable(img, now, img.index[i].key_off, img.index[i].key_len);
                    assert(one_entry(img, now, i, key));
                    lemma_one_entry_sound(img, now, i, key);
                },
                _ => {
                    lemma_same_contents(img, now);
                },
            }
        },
    }
}

/// Images of the same contents are steady with respect to one another.
proof fn lemma_steady_same(img: Image, now: Image, key: Seq<u8>)
    requires
        img.sized(),
        now.sized(),
        now.index == img.index,
        now.arena == img.arena,
        now.arena_used == img.arena_used,
    ensures
        steady(img, now, key),
{
    assert forall|i: int| 0 <= i < INDEX_SLOTS implies #[trigger] steady_at(
        img,
        now,
        fnv(key),
        i,
    ) by {}
}

/// The deed claims an entry that carries the hash of `key` for another key.
pub open spec fn disturbs(d: Deed, img: Image, key: Seq<u8>) -> bool {
    match d {
        Deed::Update { u, dirty } => reclaims(img, u, key),
        _ => false,
    }
}

/// A deed from its start on, if it moves neither counter.
proof fn lemma_deed_steady(origin: Image, d: Deed, img: Image, key: Seq<u8>, p: int)
    requires
        img.sound(),
        d.valid(img),
        steady(origin, img, key),
        !disturbs(d, img, key),
        0 < p <= d.stores(img).len(),
        img.slots[slot_for(fnv(key))] <= u64::MAX - 4,
        img.arena_seq <= u64::MAX - 4,
        d.midst(img, p).slots[slot_for(fnv(key))] == img.slots[slot_for(fnv(key))],
        d.midst(img, p).arena_seq == img.arena_seq,
    ensures
        steady(origin, d.midst(img, p), key),
{
    reveal(Deed::stores);
    reveal(Deed::valid);
    let slot = slot_for(fnv(key));
    assert(0 <= slot < SLOTS);
    match d {
        Deed::Update { u, dirty } => {
            lemma_keyed_counters(d, img, p);
            law_update_leaves_others_alone(origin, img, key, u, dirty, p);
        },
        Deed::Removal { i, key: other, dirty } => {
            lemma_keyed_counters(d, img, p);
            law_removal_leaves_others_alone(origin, img, key, i, other, dirty, p);
        },
        Deed::Enclosed { inside } => {
            lemma_enclosed_counters(d, img, p);
        },
        Deed::Single { w } => {
            lemma_single(d, img, p);
            match w {
                WriteView::Flags(i, flags) => {
                    law_flags_leave_all_alone(origin, img, key, i, flags);
                },
                _ => {
                    let now = d.midst(img, p);
                    assert forall|i: int| 0 <= i < INDEX_SLOTS implies #[trigger] steady_at(
                        origin,
                        now,
                        fnv(key),
                        i,
                    ) by {
                        assert(steady_at(origin, img, fnv(key), i));
                    }
                },
            }
        },
    }
}

/// What to hold the segment against from within a deed on: what it was before
/// the deed, if the deed is one of another key; else what it is after it.
pub open spec fn origin(d: Deed, img: Image, key: Seq<u8>, p: int) -> Image {
    if p < d.stores(img).len() && d.slot() is Some && d.slot() != Some(slot_for(fnv(key))) {
        img
    } else {
        d.done(img)
    }
}

/// A deed of a key of another slot, from its start on.
proof fn lemma_foreign(d: Deed, img: Image, key: Seq<u8>, q: int)
    requires
        img.sound(),
        d.valid(img),
        d.slot() is Some,
        d.slot() != Some(slot_for(fnv(key))),
        !disturbs(d, img, key),
        0 <= q <= d.stores(img).len(),
    ensures
        steady(img, d.midst(img, q), key),
{
    reveal(Deed::stores);
    reveal(Deed::valid);
    lemma_steady_same(img, img, key);
    match d {
        Deed::Update { u, dirty } => {
            law_update_leaves_others_alone(img, img, key, u, dirty, q);
        },
        Deed::Removal { i, key: other, dirty } => {
            law_removal_leaves_others_alone(img, img, key, i, other, dirty, q);
        },
        _ => {},
    }
}

/// Within a deed that is not over the counters are even only if it is one of
/// another key, or has nothing more to do to its own.
proof fn lemma_even_within(d: Deed, img: Image, slot: int, p: int)
    requires
        img.sized(),
        d.valid(img),
        0 <= slot < SLOTS,
        0 < p < d.stores(img).len(),
        d.midst(img, p).slots[slot] % 2 == 0,
        d.midst(img, p).arena_seq % 2 == 0,
    ensures
        d.slot() is Some,
        d.slot() == Some(slot) ==> p > 1 + d.inner(img).len(),
{
    match d {
        Deed::Enclosed { inside } => {
            reveal(Deed::valid);
            lemma_enclosed_counters(d, img, p);
        },
        Deed::Single { w } => {
            lemma_single(d, img, p);
        },
        _ => {
            lemma_keyed_counters(d, img, p);
        },
    }
}

/// A deed from somewhere within it on, if the counters are even there.
proof fn lemma_deed_rest(d: Deed, img: Image, key: Seq<u8>, p: int, q: int)
    requires
        img.sound(),
        d.valid(img),
        0 < p <= q <= d.stores(img).len(),
        p < d.stores(img).len() ==> !disturbs(d, img, key),
        d.midst(img, p).slots[slot_for(fnv(key))] % 2 == 0,
        d.midst(img, p).arena_seq % 2 == 0,
    ensures
        origin(d, img, key, p).sound(),
        steady(origin(d, img, key, p), d.midst(img, q), key),
{
    let slot = slot_for(fnv(key));
    assert(0 <= slot < SLOTS);
    lemma_deed_sound(d, img);
    if p < d.stores(img).len() {
        lemma_even_within(d, img, slot, p);
        if d.slot() != Some(slot) {
            lemma_foreign(d, img, key, q);
        } else {
            lemma_tail(d, img, key, q);
        }
    } else {
        assert(d.stores(img).take(p) =~= d.stores(img));
        lemma_steady_same(d.done(img), d.done(img), key);
    }
}

/// After the second store to its counter a deed does nothing more to its key.
proof fn lemma_tail(d: Deed, img: Image, key: Seq<u8>, q: int)
    requires
        img.sound(),
        d.valid(img),
        d.slot() is Some,
        1 + d.inner(img).len() < q <= d.stores(img).len(),
    ensures
        steady(d.done(img), d.midst(img, q), key),
{
    lemma_deed_sound(d, img);
    lemma_inner_plain(d, img);
    let all = d.stores(img);
    let len = all.len() as int;
    let end = d.done(img);
    assert(all.take(len) =~= all);
    if q == len {
        lemma_steady_same(end, end, key);
    } else {
        let now = d.midst(img, q);
        assert(q == len - 1);
        assert(all.take(len) =~= all.take(len - 1).push(all[len - 1]));
        lemma_replay_push(img, all.take(len - 1), all[len - 1]);
        assert(all[len - 1] is GlobalGen);
        lemma_steady_same(end, now, key);
    }
}

// ----------------------------------------------------------- many of them --

proof fn lemma_log_prefix(base: Image, ds: Seq<Deed>, k: int, n: int)
    requires
        0 <= k <= n,
    ensures
        log(base, ds, k).len() <= log(base, ds, n).len(),
        log(base, ds, n).take(log(base, ds, k).len() as int) == log(base, ds, k),
    decreases n - k,
{
    let a = log(base, ds, k);
    if k < n {
        lemma_log_prefix(base, ds, k, n - 1);
        let b = log(base, ds, n - 1);
        assert(log(base, ds, n).take(a.len() as int) =~= b.take(a.len() as int));
    } else {
        assert(a.take(a.len() as int) =~= a);
    }
}

proof fn lemma_before(base: Image, ds: Seq<Deed>, k: int)
    requires
        0 <= k,
    ensures
        base.replay(log(base, ds, k)) == before(base, ds, k),
    decreases k,
{
    if k > 0 {
        lemma_before(base, ds, k - 1);
        lemma_replay_concat(
            base,
            log(base, ds, k - 1),
            ds[k - 1].stores(before(base, ds, k - 1)),
        );
    }
}

/// The segment in the midst of a deed.
proof fn lemma_at(base: Image, ds: Seq<Deed>, k: int, p: int)
    requires
        0 <= k < ds.len(),
        0 <= p <= ds[k].stores(before(base, ds, k)).len(),
    ensures
        at(base, ds, log(base, ds, k).len() + p) == ds[k].midst(before(base, ds, k), p),
        log(base, ds, k).len() + p <= log(base, ds, ds.len() as int).len(),
{
    let n = ds.len() as int;
    let a = log(base, ds, k);
    let ws = ds[k].stores(before(base, ds, k));
    lemma_log_prefix(base, ds, k + 1, n);
    let t = (a.len() + p) as int;
    let whole = log(base, ds, n);
    assert(whole.take(t) =~= a + ws.take(p)) by {
        assert(log(base, ds, k + 1) == a + ws);
        assert(whole.take(t) =~= whole.take((a.len() + ws.len()) as int).take(t));
        assert((a + ws).take(t) =~= a + ws.take(p));
    }
    lemma_before(base, ds, k);
    lemma_replay_concat(base, a, ws.take(p));
}

/// The deed that the `t`-th store is the last one of so far.
proof fn lemma_locate(base: Image, ds: Seq<Deed>, t: int, n: int) -> (r: (int, int))
    requires
        0 <= n <= ds.len(),
        0 < t <= log(base, ds, n).len(),
    ensures
        0 <= r.0 < n,
        0 < r.1 <= ds[r.0].stores(before(base, ds, r.0)).len(),
        log(base, ds, r.0).len() + r.1 == t,
    decreases n,
{
    let m = log(base, ds, n - 1).len() as int;
    if t <= m {
        lemma_locate(base, ds, t, n - 1)
    } else {
        (n - 1, t - m)
    }
}

proof fn lemma_before_sound(base: Image, ds: Seq<Deed>, slot: int, k: int)
    requires
        base.sound(),
        lawful(base, ds, slot),
        0 <= k <= ds.len(),
    ensures
        before(base, ds, k).sound(),
    decreases k,
{
    if k > 0 {
        lemma_before_sound(base, ds, slot, k - 1);
        assert(ds[k - 1].valid(before(base, ds, k - 1)));
        lemma_deed_sound(ds[k - 1], before(base, ds, k - 1));
    }
}

/// Counters never go back.
proof fn lemma_counters_grow(base: Image, ds: Seq<Deed>, slot: int, t: int, u: int)
    requires
        base.sound(),
        0 <= slot < SLOTS,
        lawful(base, ds, slot),
        0 <= t <= u <= log(base, ds, ds.len() as int).len(),
    ensures
        at(base, ds, t).slots[slot] <= at(base, ds, u).slots[slot],
        at(base, ds, t).arena_seq <= at(base, ds, u).arena_seq,
    decreases u - t,
{
    if t < u {
        lemma_counters_grow(base, ds, slot, t, u - 1);
        let (k, p) = lemma_locate(base, ds, u, ds.len() as int);
        lemma_at(base, ds, k, p);
        lemma_at(base, ds, k, p - 1);
        lemma_before_sound(base, ds, slot, k);
        assert(ds[k].valid(before(base, ds, k)));
        lemma_deed_step(ds[k], before(base, ds, k), slot, p - 1);
    }
}

/// Nobody claims an entry that carries the hash of `key` for another key while
/// stores `a` to `b` are made: an empty one, or one of a deletion that the disk
/// knows of.
pub open spec fn undisturbed(base: Image, ds: Seq<Deed>, key: Seq<u8>, a: int, b: int) -> bool {
    forall|k: int|
        0 <= k < ds.len() && log(base, ds, k).len() < b && a < log(base, ds, k + 1).len() ==> !(
        #[trigger] disturbs(ds[k], before(base, ds, k), key))
}

/// The counters of `key` and of the arena are the same, and even, after `a`
/// stores and after `b`.
pub open spec fn unmoved(base: Image, ds: Seq<Deed>, key: Seq<u8>, a: int, b: int) -> bool {
    let slot = slot_for(fnv(key));
    &&& at(base, ds, a).slots[slot] % 2 == 0
    &&& at(base, ds, a).arena_seq % 2 == 0
    &&& at(base, ds, b).slots[slot] == at(base, ds, a).slots[slot]
    &&& at(base, ds, b).arena_seq == at(base, ds, a).arena_seq
}

/// What to hold the segment against from after `a` stores on.
proof fn lemma_origin(base: Image, ds: Seq<Deed>, key: Seq<u8>, a: int, b: int) -> (origin: Image)
    requires
        base.sound(),
        lawful(base, ds, slot_for(fnv(key))),
        0 <= a <= b <= log(base, ds, ds.len() as int).len(),
        unmoved(base, ds, key, a, b),
        undisturbed(base, ds, key, a, b),
    ensures
        origin.sound(),
        forall|t: int| a <= t <= b ==> steady(origin, #[trigger] at(base, ds, t), key),
{
    let slot = slot_for(fnv(key));
    let n = ds.len() as int;
    assert(0 <= slot < SLOTS);
    if a == 0 {
        assert(log(base, ds, n).take(0) =~= Seq::empty());
        lemma_steady_same(base, base, key);
        assert(log(base, ds, 0).len() == 0);
        assert forall|t: int| a <= t <= b implies steady(base, #[trigger] at(base, ds, t), key) by {
            lemma_onward(base, base, ds, key, a, b, 0, t);
        }
        base
    } else {
        let (k, p) = lemma_locate(base, ds, a, n);
        let end = log(base, ds, k + 1).len() as int;
        let o = origin(ds[k], before(base, ds, k), key, p);
        assert forall|t: int| a <= t <= b implies steady(o, #[trigger] at(base, ds, t), key) by {
            if t <= end {
                lemma_rest(base, ds, key, a, b, k, p, t);
            } else {
                lemma_rest(base, ds, key, a, b, k, p, end);
                lemma_onward(o, base, ds, key, a, b, end, t);
            }
        }
        lemma_rest(base, ds, key, a, b, k, p, a);
        o
    }
}

/// From within a deed on, to its end.
proof fn lemma_rest(
    base: Image,
    ds: Seq<Deed>,
    key: Seq<u8>,
    a: int,
    b: int,
    k: int,
    p: int,
    t: int,
)
    requires
        base.sound(),
        lawful(base, ds, slot_for(fnv(key))),
        0 <= k < ds.len(),
        0 < p <= ds[k].stores(before(base, ds, k)).len(),
        log(base, ds, k).len() + p == a,
        a <= t <= b,
        t <= log(base, ds, k + 1).len(),
        unmoved(base, ds, key, a, b),
        undisturbed(base, ds, key, a, b),
    ensures
        origin(ds[k], before(base, ds, k), key, p).sound(),
        steady(origin(ds[k], before(base, ds, k), key, p), at(base, ds, t), key),
{
    let slot = slot_for(fnv(key));
    assert(0 <= slot < SLOTS);
    let img = before(base, ds, k);
    let d = ds[k];
    let start = log(base, ds, k).len() as int;
    lemma_before_sound(base, ds, slot, k);
    assert(d.valid(img));
    lemma_at(base, ds, k, p);
    lemma_at(base, ds, k, t - start);
    if p < d.stores(img).len() {
        assert(!disturbs(ds[k], before(base, ds, k), key));
    }
    lemma_deed_rest(d, img, key, p, t - start);
}

/// From the end of a deed on.
proof fn lemma_onward(
    origin: Image,
    base: Image,
    ds: Seq<Deed>,
    key: Seq<u8>,
    a: int,
    b: int,
    from: int,
    t: int,
)
    requires
        base.sound(),
        lawful(base, ds, slot_for(fnv(key))),
        0 <= a <= from <= t <= b <= log(base, ds, ds.len() as int).len(),
        unmoved(base, ds, key, a, b),
        undisturbed(base, ds, key, a, b),
        exists|k: int| 0 <= k <= ds.len() && #[trigger] log(base, ds, k).len() == from,
        steady(origin, at(base, ds, from), key),
    ensures
        steady(origin, at(base, ds, t), key),
    decreases t,
{
    let slot = slot_for(fnv(key));
    let n = ds.len() as int;
    assert(0 <= slot < SLOTS);
    if from < t {
        let (k, p) = lemma_locate(base, ds, t, n);
        let start = log(base, ds, k).len() as int;
        let f = choose|f: int| 0 <= f <= n && #[trigger] log(base, ds, f).len() == from;
        lemma_ends_apart(base, ds, f, k, p);
        lemma_onward(origin, base, ds, key, a, b, from, start);
        lemma_one_on(origin, base, ds, key, a, b, k, p);
    }
}

/// No deed ends within another.
proof fn lemma_ends_apart(base: Image, ds: Seq<Deed>, f: int, k: int, p: int)
    requires
        0 <= f,
        0 <= k,
        0 < p <= ds[k].stores(before(base, ds, k)).len(),
        log(base, ds, f).len() < log(base, ds, k).len() + p,
    ensures
        log(base, ds, f).len() <= log(base, ds, k).len(),
{
    if f <= k {
        lemma_log_prefix(base, ds, f, k);
    } else {
        lemma_log_prefix(base, ds, k + 1, f);
    }
}

/// From the start of a deed on.
proof fn lemma_one_on(
    origin: Image,
    base: Image,
    ds: Seq<Deed>,
    key: Seq<u8>,
    a: int,
    b: int,
    k: int,
    p: int,
)
    requires
        base.sound(),
        lawful(base, ds, slot_for(fnv(key))),
        0 <= k < ds.len(),
        0 < p <= ds[k].stores(before(base, ds, k)).len(),
        0 <= a <= log(base, ds, k).len(),
        log(base, ds, k).len() + p <= b <= log(base, ds, ds.len() as int).len(),
        unmoved(base, ds, key, a, b),
        undisturbed(base, ds, key, a, b),
        steady(origin, at(base, ds, log(base, ds, k).len() as int), key),
    ensures
        steady(origin, at(base, ds, log(base, ds, k).len() + p), key),
{
    let slot = slot_for(fnv(key));
    assert(0 <= slot < SLOTS);
    let img = before(base, ds, k);
    let start = log(base, ds, k).len() as int;
    let t = start + p;
    lemma_at(base, ds, k, 0);
    lemma_at(base, ds, k, p);
    assert(ds[k].stores(img).take(0) =~= Seq::empty());
    lemma_before_sound(base, ds, slot, k);
    assert(ds[k].valid(img));
    lemma_counters_grow(base, ds, slot, a, start);
    lemma_counters_grow(base, ds, slot, start, t);
    lemma_counters_grow(base, ds, slot, t, b);
    assert(!disturbs(ds[k], before(base, ds, k), key));
    lemma_deed_steady(origin, ds[k], img, key, p);
}

/// A reader without a lock hears the truth. It loads the counters, looks at
/// each part of the segment at some moment after that, and loads the counters
/// again. If they were even, and are what they were, what it read is the value
/// that the key had when it began, and still has when it is done, or that the
/// key has none; else it hears that the read was torn.
///
/// What others do meanwhile may be anything, but for one thing: that an entry
/// which is free, and carries the key's hash still, is claimed for another key.
/// Such an entry can be taken for the key's while it is being claimed.
pub proof fn law_unmoved_counters_tell_the_truth(
    base: Image,
    ds: Seq<Deed>,
    key: Seq<u8>,
    a: int,
    b: int,
    seen: Image,
)
    requires
        base.sound(),
        lawful(base, ds, slot_for(fnv(key))),
        0 <= a <= b <= log(base, ds, ds.len() as int).len(),
        undisturbed(base, ds, key, a, b),
        mixed(seen, Seq::new((b - a + 1) as nat, |i: int| at(base, ds, a + i))),
        seen.slots[slot_for(fnv(key))] == at(base, ds, a).slots[slot_for(fnv(key))],
        seen.arena_seq == at(base, ds, a).arena_seq,
    ensures
        seen.read(
            key,
            fnv(key),
            at(base, ds, b).slots[slot_for(fnv(key))],
            at(base, ds, b).arena_seq,
        ) == if unmoved(base, ds, key, a, b) {
            match at(base, ds, a).value(key) {
                Some(v) => ReadView::Value(v),
                None => ReadView::Absent,
            }
        } else {
            ReadView::Torn
        },
        unmoved(base, ds, key, a, b) ==> at(base, ds, b).value(key) == at(base, ds, a).value(key),
{
    let slot = slot_for(fnv(key));
    if unmoved(base, ds, key, a, b) {
        let o = lemma_origin(base, ds, key, a, b);
        let moments = Seq::new((b - a + 1) as nat, |i: int| at(base, ds, a + i));
        assert forall|t: int| 0 <= t < moments.len() implies steady(
            o,
            #[trigger] moments[t],
            key,
        ) by {
            assert(moments[t] == at(base, ds, a + t));
        }
        law_lock_free_read(
            o,
            moments,
            seen,
            key,
            at(base, ds, b).slots[slot],
            at(base, ds, b).arena_seq,
        );
        lemma_steady_value(o, at(base, ds, a), key);
        lemma_steady_value(o, at(base, ds, b), key);
    }
}

/// A read of a process whose look at the segment was such a one (see `law_peek`
/// for what a look concludes from what it sees): it is over if the counters did
/// not move, and hands out the value that the key had all the while; else it
/// looks again, or takes the lock.
pub proof fn law_sampled_value_is_handed_out(
    base: Image,
    ds: Seq<Deed>,
    a: int,
    b: int,
    seen: Image,
    op: GetView,
    st: StoreView,
    img: Image,
)
    requires
        base.sound(),
        lawful(base, ds, slot_for(fnv(op.key))),
        0 <= a <= b <= log(base, ds, ds.len() as int).len(),
        undisturbed(base, ds, op.key, a, b),
        mixed(seen, Seq::new((b - a + 1) as nat, |i: int| at(base, ds, a + i))),
        seen.slots[slot_for(fnv(op.key))] == at(base, ds, a).slots[slot_for(fnv(op.key))],
        seen.arena_seq == at(base, ds, a).arena_seq,
        op.at == GetStep::Sample,
    ensures
        ({
            let slot = slot_for(fnv(op.key));
            let read = seen.read(
                op.key,
                fnv(op.key),
                at(base, ds, b).slots[slot],
                at(base, ds, b).arena_seq,
            );
            let ev = GetEventView::Sampled { before: seen.slots[slot], read };
            let (op2, st2, _) = op.next(st, img, ev);
            if unmoved(base, ds, op.key, a, b) {
                &&& op2.at == GetStep::Finish
                &&& entry_in(st2.cache, op.key).value == terminated(at(base, ds, a).value(op.key))
                &&& entry_in(st2.cache, op.key).slot_seen == at(base, ds, b).slots[slot]
            } else {
                op2.at != GetStep::Finish && st2 == st
            }
        }),
{
    law_unmoved_counters_tell_the_truth(base, ds, op.key, a, b, seen);
}

// ----------------------------------------------- that stores are of deeds --

/// The stores that `later` has more than `earlier`, made from `img` on, are those
/// of a series of deeds.
pub open spec fn by_deeds(img: Image, earlier: Seq<WriteView>, later: Seq<WriteView>) -> bool {
    exists|ds: Seq<Deed>| #[trigger] made_of(img, ds, earlier, later)
}

/// The stores that `later` has more than `earlier`, made from `img` on, are those
/// of the deeds `ds`.
pub open spec fn made_of(
    img: Image,
    ds: Seq<Deed>,
    earlier: Seq<WriteView>,
    later: Seq<WriteView>,
) -> bool {
    &&& later == earlier + log(img, ds, ds.len() as int)
    &&& forall|k: int| 0 <= k < ds.len() ==> (#[trigger] ds[k]).valid(before(img, ds, k))
}

proof fn lemma_same_start(img: Image, ds: Seq<Deed>, more: Seq<Deed>, k: int)
    requires
        ds.len() <= more.len(),
        more.take(ds.len() as int) == ds,
        k <= ds.len(),
    ensures
        before(img, more, k) == before(img, ds, k),
        log(img, more, k) == log(img, ds, k),
    decreases k,
{
    if k > 0 {
        lemma_same_start(img, ds, more, k - 1);
        assert(more.take(ds.len() as int)[k - 1] == more[k - 1]);
    }
}

/// No store is by no deed.
pub proof fn lemma_no_deed(img: Image, stores: Seq<WriteView>)
    ensures
        by_deeds(img, stores, stores),
{
    let ds = Seq::<Deed>::empty();
    assert(stores =~= stores + log(img, ds, 0));
    assert(made_of(img, ds, stores, stores));
}

/// One more deed.
pub proof fn lemma_one_more(
    base: Image,
    img: Image,
    earlier: Seq<WriteView>,
    mid: Seq<WriteView>,
    d: Deed,
)
    requires
        base.replay(earlier) == img,
        by_deeds(img, earlier, mid),
        d.valid(base.replay(mid)),
    ensures
        by_deeds(img, earlier, mid + d.stores(base.replay(mid))),
{
    let ds = choose|ds: Seq<Deed>| #[trigger] made_of(img, ds, earlier, mid);
    let n = ds.len() as int;
    let more = ds.push(d);
    assert(more.take(n) =~= ds);
    lemma_same_start(img, ds, more, n);
    lemma_before(img, ds, n);
    lemma_replay_concat(base, earlier, log(img, ds, n));
    assert(before(img, more, n) == base.replay(mid));
    let later = mid + d.stores(base.replay(mid));
    assert(later =~= earlier + log(img, more, n + 1));
    assert forall|k: int| 0 <= k < more.len() implies (#[trigger] more[k]).valid(
        before(img, more, k),
    ) by {
        lemma_same_start(img, ds, more, k);
        if k < n {
            assert(more[k] == ds[k]);
            assert(ds[k].valid(before(img, ds, k)));
        }
    }
    assert(made_of(img, more, earlier, later));
}

/// What is stored by deeds, and then by more of them, is stored by deeds: the
/// stores of one operation after another are a series of deeds.
pub proof fn law_deeds_follow_deeds(
    base: Image,
    img: Image,
    earlier: Seq<WriteView>,
    mid: Seq<WriteView>,
    later: Seq<WriteView>,
)
    requires
        base.replay(earlier) == img,
        by_deeds(img, earlier, mid),
        by_deeds(base.replay(mid), mid, later),
    ensures
        by_deeds(img, earlier, later),
{
    let next = base.replay(mid);
    let ds = choose|ds: Seq<Deed>| #[trigger] made_of(next, ds, mid, later);
    lemma_deeds_upto(base, img, earlier, mid, ds, ds.len() as int);
}

proof fn lemma_deeds_upto(
    base: Image,
    img: Image,
    earlier: Seq<WriteView>,
    mid: Seq<WriteView>,
    ds: Seq<Deed>,
    n: int,
)
    requires
        base.replay(earlier) == img,
        by_deeds(img, earlier, mid),
        forall|k: int|
            0 <= k < ds.len() ==> (#[trigger] ds[k]).valid(before(base.replay(mid), ds, k)),
        0 <= n <= ds.len(),
    ensures
        by_deeds(img, earlier, mid + log(base.replay(mid), ds, n)),
    decreases n,
{
    let next = base.replay(mid);
    if n > 0 {
        lemma_deeds_upto(base, img, earlier, mid, ds, n - 1);
        let so_far = mid + log(next, ds, n - 1);
        lemma_replay_concat(base, mid, log(next, ds, n - 1));
        lemma_before(next, ds, n - 1);
        assert(ds[n - 1].valid(before(next, ds, n - 1)));
        lemma_one_more(base, img, earlier, so_far, ds[n - 1]);
        assert(mid + log(next, ds, n) =~= so_far + ds[n - 1].stores(before(next, ds, n - 1)));
    } else {
        assert(mid + log(next, ds, 0) =~= mid);
    }
}

/// One more store to a counter, or to the flags of an entry.
pub proof fn lemma_one_store(
    base: Image,
    img: Image,
    earlier: Seq<WriteView>,
    mid: Seq<WriteView>,
    w: WriteView,
)
    requires
        base.replay(earlier) == img,
        by_deeds(img, earlier, mid),
        stands_alone(base.replay(mid), w),
    ensures
        by_deeds(img, earlier, mid.push(w)),
{
    reveal(Deed::stores);
    reveal(Deed::valid);
    lemma_one_more(base, img, earlier, mid, Deed::Single { w });
    assert(mid.push(w) =~= mid + Seq::<WriteView>::empty().push(w));
}

/// Stores to the contents, enclosed by two to the arena's counter, are a deed if
/// they leave the contents in order.
pub proof fn lemma_enclosed_deed(
    base: Image,
    img: Image,
    earlier: Seq<WriteView>,
    later: Seq<WriteView>,
)
    requires
        base.replay(earlier) == img,
        adds_enclosed(
            earlier,
            later,
            next_odd(img.arena_seq),
            next_even(next_odd(img.arena_seq)),
        ),
        base.replay(later).sound(),
    ensures
        by_deeds(img, earlier, later),
{
    reveal(Deed::stores);
    reveal(Deed::valid);
    let inside = later.subrange((earlier.len() + 1) as int, later.len() - 1);
    let d = Deed::Enclosed { inside };
    lemma_no_deed(img, earlier);
    assert forall|j: int| 0 <= j < later.len() implies later[j] == (earlier + d.stores(img))[j] by {
        if j < earlier.len() {
            assert(later.subrange(0, earlier.len() as int)[j] == later[j]);
        }
    }
    assert(later =~= earlier + d.stores(img));
    lemma_replay_concat(base, earlier, d.stores(img));
    assert forall|j: int| 0 <= j < inside.len() implies is_content(#[trigger] inside[j]) by {
        assert(inside[j] == later[earlier.len() + 1 + j]);
    }
    lemma_one_more(base, img, earlier, earlier, d);
}

/// An update is a deed.
pub proof fn lemma_update_deed(
    base: Image,
    img: Image,
    earlier: Seq<WriteView>,
    mid: Seq<WriteView>,
    u: Update,
    dirty: bool,
)
    requires
        base.replay(earlier) == img,
        by_deeds(img, earlier, mid),
        probed(base.replay(mid), u),
        base.replay(mid).has_room((u.key.len() + u.val.len()) as int),
    ensures
        by_deeds(
            img,
            earlier,
            mid + base.replay(mid).update_writes(
                u.i,
                u.found,
                u.key,
                u.val,
                fnv(u.key),
                dirty,
            ).0,
        ),
{
    reveal(Deed::stores);
    reveal(Deed::valid);
    lemma_one_more(base, img, earlier, mid, Deed::Update { u, dirty });
}

/// A deletion is a deed.
pub proof fn lemma_removal_deed(
    base: Image,
    img: Image,
    earlier: Seq<WriteView>,
    i: int,
    key: Seq<u8>,
    dirty: bool,
)
    requires
        base.replay(earlier) == img,
        img.holds(i, key),
        img.index[i].state == ST_LIVE,
    ensures
        by_deeds(
            img,
            earlier,
            earlier + img.bracket(slot_for(fnv(key)), img.tomb_writes(i, dirty)),
        ),
{
    reveal(Deed::stores);
    reveal(Deed::valid);
    lemma_no_deed(img, earlier);
    lemma_one_more(base, img, earlier, earlier, Deed::Removal { i, key, dirty });
}

/// Making room keeps the contents in order.
pub proof fn lemma_room_sound(img: Image, need: int)
    requires
        img.sound(),
    ensures
        img.ensured(need).0.sound(),
        img.ensured(need).1 ==> img.ensured(need).0.has_room(need),
{
    law_compaction(img, Seq::empty());
}

} // verus!
