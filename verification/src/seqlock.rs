//! What a reader without a lock can see while others write.
//!
//! Such a reader does not get a copy of the segment as it was at one moment:
//! each part of it is as it was at some moment between the loads of the
//! counters. If nothing of the key was written in between, the mixture reads
//! like the segment itself; that nothing was is what unchanged counters say.

use vstd::prelude::*;

use crate::consts::{ARENA_SIZE, INDEX_SLOTS, MAX_PROBES};
use crate::hash::fnv;
use crate::image::{bucket, slot_for, Image, IndexEntry, ReadView, WriteView, ST_EMPTY, ST_LIVE};
use crate::sound::{
    finds, lemma_bucket_range, lemma_probe_from, lemma_slice_stable, lemma_value_held,
    lemma_value_unheld,
};
use crate::update::{lemma_probed, lemma_remove_midway, lemma_update_midway, probed, Update};

verus! {

/// Two entries are the same, their flags aside.
pub open spec fn same_entry(was: IndexEntry, e: IndexEntry) -> bool {
    &&& e.hash == was.hash
    &&& e.key_off == was.key_off
    &&& e.key_len == was.key_len
    &&& e.val_off == was.val_off
    &&& e.val_len == was.val_len
    &&& e.state == was.state
}

/// From `img` on nothing that carries `hash` was touched in entry `i` by what
/// led to `now`: an entry that carries it is what it was; any other still does
/// not, and is still taken if it was.
pub open spec fn steady_at(img: Image, now: Image, hash: u64, i: int) -> bool {
    let was = img.index[i];
    let e = now.index[i];
    if was.hash == hash {
        same_entry(was, e)
    } else {
        e.hash != hash && (was.state != ST_EMPTY ==> e.state != ST_EMPTY)
    }
}

/// From `img` on nothing of `key` was touched by what led to `now`: no entry
/// that carries its hash, and nothing that the arena had handed out.
pub open spec fn steady(img: Image, now: Image, key: Seq<u8>) -> bool {
    &&& now.sized()
    &&& forall|i: int| 0 <= i < INDEX_SLOTS ==> #[trigger] steady_at(img, now, fnv(key), i)
    &&& img.arena_used <= now.arena_used
    &&& forall|p: int| 0 <= p < img.arena_used ==> #[trigger] now.arena[p] == img.arena[p]
}

/// Each part of `seen` is as it was in one of `moments`.
pub open spec fn mixed(seen: Image, moments: Seq<Image>) -> bool {
    &&& seen.sized()
    &&& forall|i: int|
        0 <= i < INDEX_SLOTS ==> {
            &&& exists|t: int|
                0 <= t < moments.len() && (#[trigger] moments[t]).index[i].hash
                    == seen.index[i].hash
            &&& exists|t: int|
                0 <= t < moments.len() && (#[trigger] moments[t]).index[i].key_off
                    == seen.index[i].key_off
            &&& exists|t: int|
                0 <= t < moments.len() && (#[trigger] moments[t]).index[i].key_len
                    == seen.index[i].key_len
            &&& exists|t: int|
                0 <= t < moments.len() && (#[trigger] moments[t]).index[i].val_off
                    == seen.index[i].val_off
            &&& exists|t: int|
                0 <= t < moments.len() && (#[trigger] moments[t]).index[i].val_len
                    == seen.index[i].val_len
            &&& exists|t: int|
                0 <= t < moments.len() && (#[trigger] moments[t]).index[i].state
                    == (#[trigger] seen.index[i]).state
        }
    &&& forall|p: int|
        0 <= p < ARENA_SIZE ==> exists|t: int|
            0 <= t < moments.len() && (#[trigger] moments[t]).arena[p] == #[trigger] seen.arena[p]
}

/// A mixture of moments at which a key was untouched shows the key untouched.
proof fn lemma_mixed_steady(img: Image, moments: Seq<Image>, seen: Image, key: Seq<u8>)
    requires
        img.sound(),
        mixed(seen, moments),
        forall|t: int| 0 <= t < moments.len() ==> steady(img, #[trigger] moments[t], key),
    ensures
        forall|i: int| 0 <= i < INDEX_SLOTS ==> #[trigger] steady_at(img, seen, fnv(key), i),
        forall|p: int| 0 <= p < img.arena_used ==> #[trigger] seen.arena[p] == img.arena[p],
{
    let hash = fnv(key);
    assert forall|i: int| 0 <= i < INDEX_SLOTS implies #[trigger] steady_at(
        img,
        seen,
        hash,
        i,
    ) by {
        let e = seen.index[i];
        assert(e.state == seen.index[i].state);
        let t1 = choose|t: int|
            0 <= t < moments.len() && (#[trigger] moments[t]).index[i].hash == e.hash;
        assert(steady_at(img, moments[t1], hash, i));
        let t2 = choose|t: int|
            0 <= t < moments.len() && (#[trigger] moments[t]).index[i].key_off == e.key_off;
        assert(steady_at(img, moments[t2], hash, i));
        let t3 = choose|t: int|
            0 <= t < moments.len() && (#[trigger] moments[t]).index[i].key_len == e.key_len;
        assert(steady_at(img, moments[t3], hash, i));
        let t4 = choose|t: int|
            0 <= t < moments.len() && (#[trigger] moments[t]).index[i].val_off == e.val_off;
        assert(steady_at(img, moments[t4], hash, i));
        let t5 = choose|t: int|
            0 <= t < moments.len() && (#[trigger] moments[t]).index[i].val_len == e.val_len;
        assert(steady_at(img, moments[t5], hash, i));
        let t6 = choose|t: int|
            0 <= t < moments.len() && (#[trigger] moments[t]).index[i].state == e.state;
        assert(steady_at(img, moments[t6], hash, i));
    }
    assert forall|p: int| 0 <= p < img.arena_used implies #[trigger] seen.arena[p]
        == img.arena[p] by {
        let t = choose|t: int|
            0 <= t < moments.len() && (#[trigger] moments[t]).arena[p] == seen.arena[p];
        assert(steady(img, moments[t], key));
        assert(moments[t].arena[p] == img.arena[p]);
    }
}

/// Where a search finds a key that was untouched.
proof fn lemma_steady_search(img: Image, seen: Image, key: Seq<u8>, c: int)
    requires
        img.sound(),
        seen.sized(),
        forall|i: int| 0 <= i < INDEX_SLOTS ==> #[trigger] steady_at(img, seen, fnv(key), i),
        forall|p: int| 0 <= p < img.arena_used ==> #[trigger] seen.arena[p] == img.arena[p],
        0 <= c < INDEX_SLOTS,
        seen.index[c].state != ST_EMPTY,
        seen.matches(c, key, fnv(key)),
    ensures
        img.holds(c, key),
{
    assert(steady_at(img, seen, fnv(key), c));
    assert(img.entry_ok(c));
    lemma_slice_stable(img, seen, img.index[c].key_off, img.index[c].key_len);
}

/// What a search for a key that was untouched finds is what it would have found
/// before.
proof fn lemma_steady_found(img: Image, seen: Image, key: Seq<u8>)
    requires
        img.sound(),
        seen.sized(),
        forall|i: int| 0 <= i < INDEX_SLOTS ==> #[trigger] steady_at(img, seen, fnv(key), i),
        forall|p: int| 0 <= p < img.arena_used ==> #[trigger] seen.arena[p] == img.arena[p],
    ensures
        match seen.probe(key, fnv(key)) {
            Some((c, true)) => {
                &&& seen.index[c].state == ST_LIVE ==> seen.val_at(c) is Some && seen.val_at(c)
                    == img.value(key)
                &&& seen.index[c].state != ST_LIVE ==> img.value(key) is None
            },
            _ => img.value(key) is None,
        },
{
    let hash = fnv(key);
    lemma_probe_from(seen, key, hash, 0, None);
    if exists|b: int| #[trigger] img.holds(b, key) {
        let b = choose|b: int| #[trigger] img.holds(b, key);
        let was = img.index[b];
        assert(img.entry_ok(b));
        assert(steady_at(img, seen, hash, b));
        lemma_value_held(img, b, key);
        lemma_slice_stable(img, seen, was.key_off, was.key_len);
        if was.state == ST_LIVE {
            lemma_slice_stable(img, seen, was.val_off, was.val_len);
        }
        let d = choose|d: int|
            0 <= d < MAX_PROBES && #[trigger] bucket(hash, d) == b && img.packed(hash, d);
        assert forall|c: int| 0 <= c < d implies seen.index[#[trigger] bucket(hash, c)].state
            != ST_EMPTY by {
            lemma_bucket_range(hash, c);
            assert(img.index[bucket(hash, c)].state != ST_EMPTY);
            assert(steady_at(img, seen, hash, bucket(hash, c)));
        }
        assert(finds(seen, key, hash, 0, b, d));
    } else {
        lemma_value_unheld(img, key);
    }
    match seen.probe(key, hash) {
        Some((c, true)) => {
            let e = choose|e: int| #[trigger] finds(seen, key, hash, 0, c, e);
            lemma_bucket_range(hash, e);
            lemma_steady_search(img, seen, key, c);
        },
        _ => {},
    }
}

/// A key that was untouched has the value that it had.
pub proof fn lemma_steady_value(img: Image, now: Image, key: Seq<u8>)
    requires
        img.sound(),
        steady(img, now, key),
    ensures
        now.value(key) == img.value(key),
{
    reveal(Image::value);
    lemma_steady_found(img, now, key);
}

/// A reader without a lock never sees a mixture of values: if nothing that was
/// written while it looked was of this key, it gets the key's value, or hears
/// that the key has none.
pub proof fn law_lock_free_read(
    img: Image,
    moments: Seq<Image>,
    seen: Image,
    key: Seq<u8>,
    slot_after: u64,
    arena_after: u64,
)
    requires
        img.sound(),
        mixed(seen, moments),
        forall|t: int| 0 <= t < moments.len() ==> steady(img, #[trigger] moments[t], key),
        seen.slots[slot_for(fnv(key))] % 2 == 0,
        seen.arena_seq % 2 == 0,
    ensures
        seen.read(key, fnv(key), slot_after, arena_after) == if slot_after
            == seen.slots[slot_for(fnv(key))] && arena_after == seen.arena_seq {
            match img.value(key) {
                Some(v) => ReadView::Value(v),
                None => ReadView::Absent,
            }
        } else {
            ReadView::Torn
        },
{
    lemma_mixed_steady(img, moments, seen, key);
    lemma_steady_found(img, seen, key);
}

// ------------------------------------------------- what others may be doing --

/// An update claims, for its key, an entry that carries the hash of `key`
/// still: one that is empty, or holds a deletion that the disk knows of.
pub open spec fn reclaims(start: Image, u: Update, key: Seq<u8>) -> bool {
    !u.found && start.index[u.i].hash == fnv(key)
}

/// An update of a key of another slot leaves a key alone after each of its
/// stores, unless it reclaims an entry that carries the key's hash.
pub proof fn law_update_leaves_others_alone(
    img: Image,
    start: Image,
    key: Seq<u8>,
    u: Update,
    dirty: bool,
    p: int,
)
    requires
        steady(img, start, key),
        probed(start, u),
        !reclaims(start, u, key),
        slot_for(fnv(u.key)) != slot_for(fnv(key)),
        start.has_room((u.key.len() + u.val.len()) as int),
        0 <= p <= start.update_writes(u.i, u.found, u.key, u.val, fnv(u.key), dirty).0.len(),
    ensures
        steady(
            img,
            start.replay(
                start.update_writes(u.i, u.found, u.key, u.val, fnv(u.key), dirty).0.take(p),
            ),
            key,
        ),
{
    let now = start.replay(
        start.update_writes(u.i, u.found, u.key, u.val, fnv(u.key), dirty).0.take(p),
    );
    lemma_update_midway(start, u, dirty, p);
    lemma_probed(start, u);
    assert(start.entry_ok(u.i));
    assert forall|i: int| 0 <= i < INDEX_SLOTS implies #[trigger] steady_at(
        img,
        now,
        fnv(key),
        i,
    ) by {
        assert(steady_at(img, start, fnv(key), i));
    }
    assert forall|q: int| 0 <= q < img.arena_used implies #[trigger] now.arena[q]
        == img.arena[q] by {
        assert(start.arena[q] == img.arena[q]);
    }
}

/// A deletion of a key of another slot leaves a key alone after each of its
/// stores.
pub proof fn law_removal_leaves_others_alone(
    img: Image,
    start: Image,
    key: Seq<u8>,
    i: int,
    other: Seq<u8>,
    dirty: bool,
    p: int,
)
    requires
        steady(img, start, key),
        start.sound(),
        start.holds(i, other),
        start.index[i].state == ST_LIVE,
        slot_for(fnv(other)) != slot_for(fnv(key)),
        0 <= p <= start.bracket(slot_for(fnv(other)), start.tomb_writes(i, dirty)).len(),
    ensures
        steady(
            img,
            start.replay(
                start.bracket(slot_for(fnv(other)), start.tomb_writes(i, dirty)).take(p),
            ),
            key,
        ),
{
    let now = start.replay(
        start.bracket(slot_for(fnv(other)), start.tomb_writes(i, dirty)).take(p),
    );
    lemma_remove_midway(start, i, other, dirty, p);
    assert(start.entry_ok(i));
    assert forall|j: int| 0 <= j < INDEX_SLOTS implies #[trigger] steady_at(
        img,
        now,
        fnv(key),
        j,
    ) by {
        assert(steady_at(img, start, fnv(key), j));
    }
    assert forall|q: int| 0 <= q < img.arena_used implies #[trigger] now.arena[q]
        == img.arena[q] by {
        assert(start.arena[q] == img.arena[q]);
    }
}

/// A store to the flags of an entry leaves every key alone.
pub proof fn law_flags_leave_all_alone(img: Image, start: Image, key: Seq<u8>, i: int, flags: u32)
    requires
        steady(img, start, key),
        0 <= i < INDEX_SLOTS,
    ensures
        steady(img, start.apply(WriteView::Flags(i, flags)), key),
{
    let now = start.apply(WriteView::Flags(i, flags));
    assert forall|j: int| 0 <= j < INDEX_SLOTS implies #[trigger] steady_at(
        img,
        now,
        fnv(key),
        j,
    ) by {
        assert(steady_at(img, start, fnv(key), j));
    }
}

} // verus!
