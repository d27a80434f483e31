//! What the operations on the segment promise of each other.

use vstd::prelude::*;

use crate::compaction::{law_compaction, law_compaction_packs, lemma_emptied, lemma_same_contents};
use crate::consts::{ARENA_SIZE, INDEX_SLOTS, SLOTS};
use crate::hash::fnv;
use crate::image::{
    bucket, next_even, next_odd, slot_for, Image, ReadView, FL_DIRTY, ST_EMPTY, ST_LIVE,
};
use crate::model::PendingView;
use crate::sound::{
    lemma_one_entry_others, lemma_one_entry_sound, lemma_probe_absent, lemma_probe_found,
    lemma_value_held, lemma_value_unheld, one_entry,
};
use crate::update::{lemma_probed, lemma_removed, lemma_updated, Update};

verus! {

/// The contents say the same of `key`.
pub open spec fn same_key(img: Image, now: Image, key: Seq<u8>) -> bool {
    &&& now.value(key) == img.value(key)
    &&& now.owed(key) == img.owed(key)
}

proof fn lemma_dirty_bit(flags: u32)
    ensures
        (flags | FL_DIRTY) & FL_DIRTY != 0,
        (flags & !FL_DIRTY) & FL_DIRTY == 0,
{
    assert((flags | 1u32) & 1u32 != 0) by (bit_vector);
    assert((flags & !1u32) & 1u32 == 0) by (bit_vector);
}

/// Making room keeps the contents in order, and says of every key what was
/// said before. It moves no counter of a key. Where it succeeds, there is room.
pub proof fn law_ensured(img: Image, need: int, key: Seq<u8>)
    requires
        img.sound(),
        0 <= need,
    ensures
        img.ensured(need).0.sound(),
        img.ensured(need).0.slots == img.slots,
        img.arena_seq % 2 == 0 ==> img.ensured(need).0.arena_seq % 2 == 0,
        img.ensured(need).1 ==> img.ensured(need).0.has_room(need),
        same_key(img, img.ensured(need).0, key),
        !img.compacts(need) ==> img.ensured(need) == (img, true),
{
    law_compaction(img, key);
}

/// A value that is put can be read; other keys keep what they have, and so
/// does the key itself when the value cannot be stored. The contents stay in
/// order. A key that is put to be written to disk is owed to the disk, unless
/// the value was there already: then nothing changes at all.
pub proof fn law_put(img: Image, key: Seq<u8>, val: Seq<u8>, dirty: bool, other: Seq<u8>)
    requires
        img.sound(),
    ensures
        ({
            let (now, ok) = img.put(key, val, dirty);
            let slot = slot_for(fnv(key));
            &&& now.sound()
            &&& img.arena_seq % 2 == 0 ==> now.arena_seq % 2 == 0
            &&& ok ==> now.value(key) == Some(val)
            &&& img.has_value(key, val) ==> now == img && ok
            &&& ok && !img.has_value(key, val) ==> {
                &&& dirty ==> now.owed(key)
                &&& now.slots == img.slots.update(slot, next_even(next_odd(img.slots[slot])))
            }
            &&& !ok || img.has_value(key, val) ==> now.slots == img.slots
            &&& other != key || !ok ==> same_key(img, now, other)
            &&& dirty && img.owed(key) ==> now.owed(key)
        }),
{
    reveal(Image::put);
    let need = (key.len() + val.len()) as int;
    let hash = fnv(key);
    if img.has_value(key, val) {
        match img.probe(key, hash) {
            Some((i, true)) => {
                lemma_probed(img, Update { i, found: true, key, val });
                lemma_value_held(img, i, key);
            },
            _ => {},
        }
    } else {
        law_ensured(img, need, other);
        law_ensured(img, need, key);
        match img.put_bucket(key, val) {
            None => {},
            Some((roomy, i, found)) => {
                let u = Update { i, found, key, val };
                lemma_updated(roomy, u, dirty);
                let now = roomy.replay(roomy.update_writes(i, found, key, val, hash, dirty).0);
                lemma_one_entry_sound(roomy, now, i, key);
                lemma_value_held(now, i, key);
                lemma_dirty_bit(roomy.index[i].flags);
                if other != key {
                    lemma_one_entry_others(roomy, now, i, key, other);
                }
            },
        }
    }
}

/// A put succeeds exactly when the value is there already, or room can be made
/// for key and value and the index has a bucket for the key.
pub proof fn law_put_succeeds(img: Image, key: Seq<u8>, val: Seq<u8>, dirty: bool)
    requires
        img.sound(),
    ensures
        img.put(key, val, dirty).1 <==> {
            let (roomy, ok) = img.ensured((key.len() + val.len()) as int);
            img.has_value(key, val) || ok && roomy.probe(key, fnv(key)) is Some
        },
{
    reveal(Image::put);
    law_ensured(img, (key.len() + val.len()) as int, key);
    match img.put_bucket(key, val) {
        None => {},
        Some((roomy, i, found)) => {
            lemma_updated(roomy, Update { i, found, key, val }, dirty);
        },
    }
}

/// A put succeeds as long as there is room: it fails only if the keys and values
/// that there are leave less of the arena than the new ones take, or if each of
/// the 64 buckets from the key's own on is taken. A new value of a key that has
/// one needs no bucket.
pub proof fn law_put_fails_only_when_full(img: Image, key: Seq<u8>, val: Seq<u8>, dirty: bool)
    requires
        img.sound(),
    ensures
        ({
            let (now, ok) = img.put(key, val, dirty);
            let fits = img.weight_upto(INDEX_SLOTS as int) + key.len() + val.len() <= 1048576;
            &&& fits && img.value(key) is Some ==> ok
            &&& fits && !ok ==> forall|d: int|
                0 <= d < 64 ==> now.index[#[trigger] ((fnv(key) as int % 8192 + d) % 8192)].state
                    != ST_EMPTY
            &&& img.value(key) == Some(val) ==> ok
        }),
{
    reveal(Image::put);
    let need = (key.len() + val.len()) as int;
    let hash = fnv(key);
    law_compaction_packs(img);
    law_put_succeeds(img, key, val, dirty);
    law_ensured(img, need, key);
    let (roomy, room) = img.ensured(need);
    let fits = img.weight_upto(INDEX_SLOTS as int) + need <= ARENA_SIZE;
    assert(img.has_value(key, val) <==> img.value(key) == Some(val)) by {
        reveal(Image::value);
    }
    if fits && img.value(key) is Some {
        assert(roomy.value(key) is Some);
        assert(roomy.probe(key, hash) is Some) by {
            reveal(Image::value);
        }
    }
    if fits && !img.put(key, val, dirty).1 {
        assert(room);
        assert(roomy.probe(key, hash) is None);
        assert forall|j: int| !#[trigger] roomy.holds(j, key) by {
            if roomy.holds(j, key) {
                lemma_probe_found(roomy, j, key);
            }
        }
        lemma_probe_absent(roomy, key);
        assert forall|d: int| 0 <= d < 64 implies roomy.index[#[trigger] ((hash as int % 8192 + d)
            % 8192)].state != ST_EMPTY by {
            assert(bucket(hash, d) == (hash as int % 8192 + d) % 8192);
            assert(roomy.index[bucket(hash, d)].state != ST_EMPTY);
        }
    }
}

/// A put of a value that is there already changes nothing, and is there
/// already exactly when it is what the key has.
pub proof fn law_put_same(img: Image, key: Seq<u8>, val: Seq<u8>, dirty: bool)
    requires
        img.sound(),
        img.value(key) == Some(val),
    ensures
        img.put(key, val, dirty) == (img, true),
{
    reveal(Image::put);
    reveal(Image::value);
    assert(img.has_value(key, val));
}

/// A key that is removed is absent; other keys keep what they have. A removal
/// says whether the key was there. One that is to reach the disk is owed to
/// it; one of a key that is not there changes nothing.
pub proof fn law_remove(img: Image, key: Seq<u8>, dirty: bool, other: Seq<u8>)
    requires
        img.sound(),
    ensures
        ({
            let (now, was_there) = img.removed(key, dirty);
            let slot = slot_for(fnv(key));
            &&& now.sound()
            &&& now.arena_seq == img.arena_seq
            &&& was_there == (img.value(key) is Some)
            &&& now.value(key) is None
            &&& !was_there ==> now == img
            &&& was_there ==> {
                &&& dirty ==> now.owed(key)
                &&& now.slots == img.slots.update(slot, next_even(next_odd(img.slots[slot])))
            }
            &&& other != key ==> same_key(img, now, other)
            &&& dirty && img.owed(key) ==> now.owed(key)
        }),
{
    reveal(Image::removed);
    let hash = fnv(key);
    match img.probe(key, hash) {
        Some((i, found)) => {
            let u = Update { i, found, key, val: Seq::empty() };
            lemma_probed(img, u);
            if found {
                lemma_value_held(img, i, key);
                if img.index[i].state == ST_LIVE {
                    lemma_removed(img, i, key, dirty);
                    let now = img.removed(key, dirty).0;
                    lemma_one_entry_sound(img, now, i, key);
                    lemma_value_held(now, i, key);
                    lemma_dirty_bit(img.index[i].flags);
                    if other != key {
                        lemma_one_entry_others(img, now, i, key, other);
                    }
                }
            } else {
                lemma_value_unheld(img, key);
            }
        },
        None => {
            assert forall|j: int| !#[trigger] img.holds(j, key) by {
                if img.holds(j, key) {
                    lemma_probe_found(img, j, key);
                }
            }
            lemma_value_unheld(img, key);
        },
    }
}

/// After a clear no key has a value and nothing is owed to the disk; the
/// contents are in order, every counter has moved on, and all are even.
pub proof fn law_clear(img: Image, key: Seq<u8>)
    requires
        img.sized(),
    ensures
        img.cleared().sound(),
        img.cleared().value(key) is None,
        !img.cleared().owed(key),
        img.cleared().arena_seq % 2 == 0,
        forall|s: int|
            0 <= s < SLOTS ==> {
                &&& (#[trigger] img.cleared().slots[s]) % 2 == 0
                &&& img.slots[s] < u64::MAX - 1 ==> img.cleared().slots[s] > img.slots[s]
            },
{
    lemma_emptied(img.cleared());
    lemma_value_unheld(img.cleared(), key);
}

/// Repairing the counters of a dead writer makes them even, and says nothing
/// new of any key. Even counters stay as they are.
pub proof fn law_repair(img: Image, slot: int, key: Seq<u8>)
    requires
        img.sized(),
        0 <= slot < SLOTS,
    ensures
        img.repaired(slot).sound() == img.sound(),
        img.repaired(slot).value(key) == img.value(key),
        img.repaired(slot).owed(key) == img.owed(key),
        img.repaired(slot).slots[slot] % 2 == 0,
        img.repaired(slot).arena_seq % 2 == 0,
        img.slots[slot] % 2 == 0 && img.arena_seq % 2 == 0 ==> img.repaired(slot) == img,
{
    lemma_same_contents(img, img.repaired(slot));
}

/// A read between whose loads nothing was written gives the key's value, or
/// says that it has none.
pub proof fn law_read(img: Image, key: Seq<u8>)
    requires
        img.sound(),
        img.slots[slot_for(fnv(key))] % 2 == 0,
        img.arena_seq % 2 == 0,
    ensures
        img.read(key, fnv(key), img.slots[slot_for(fnv(key))], img.arena_seq) == match img.value(
            key,
        ) {
            Some(v) => ReadView::Value(v),
            None => ReadView::Absent,
        },
{
    reveal(Image::value);
    match img.probe(key, fnv(key)) {
        Some((i, found)) => {
            lemma_probed(img, Update { i, found, key, val: Seq::empty() });
            assert(img.entry_ok(i));
        },
        None => {},
    }
}

/// A read is torn whenever a counter was odd, or moved between its loads.
pub proof fn law_read_torn(img: Image, key: Seq<u8>, slot_after: u64, arena_after: u64)
    requires
        ({
            ||| img.slots[slot_for(fnv(key))] % 2 == 1
            ||| img.arena_seq % 2 == 1
            ||| img.slots[slot_for(fnv(key))] != slot_after
            ||| img.arena_seq != arena_after
        }),
    ensures
        img.read(key, fnv(key), slot_after, arena_after) == ReadView::Torn,
{
}

/// A reader that takes the writer lock after a writer died, repairs the
/// counters, and reads, gets the key's value.
pub proof fn law_read_after_repair(img: Image, key: Seq<u8>)
    requires
        img.sound(),
    ensures
        ({
            let now = img.repaired(slot_for(fnv(key)));
            now.read(key, fnv(key), now.slots[slot_for(fnv(key))], now.arena_seq)
        }) == match img.value(key) {
            Some(v) => ReadView::Value(v),
            None => ReadView::Absent,
        },
{
    law_repair(img, slot_for(fnv(key)), key);
    law_read(img.repaired(slot_for(fnv(key))), key);
}

/// Paying a debt changes no value, no counter, and no other key's debt. The
/// key's own debt is cancelled if its counter is what it was when the debt was
/// noted, and stays otherwise.
pub proof fn law_retire(img: Image, p: PendingView, key: Seq<u8>)
    requires
        img.sound(),
        p.hash == fnv(p.key),
    ensures
        img.retired(p).sound(),
        img.retired(p).slots == img.slots,
        img.retired(p).arena_seq == img.arena_seq,
        img.retired(p).value(key) == img.value(key),
        img.retired(p).owed(key) == (img.owed(key) && !(key == p.key
            && img.slots[slot_for(p.hash)] == p.seen)),
{
    if exists|i: int| #[trigger] img.holds(i, p.key) {
        let i = choose|i: int| #[trigger] img.holds(i, p.key);
        lemma_probe_found(img, i, p.key);
        lemma_value_held(img, i, p.key);
        if img.slots[slot_for(p.hash)] == p.seen {
            let now = img.retired(p);
            assert(img.entry_ok(i));
            assert(one_entry(img, now, i, p.key));
            lemma_one_entry_sound(img, now, i, p.key);
            lemma_value_held(now, i, p.key);
            lemma_dirty_bit(img.index[i].flags);
            if key != p.key {
                lemma_one_entry_others(img, now, i, p.key, key);
            }
        }
    } else {
        match img.probe(p.key, p.hash) {
            Some((i, true)) => {
                lemma_probed(img, Update { i, found: true, key: p.key, val: Seq::empty() });
            },
            _ => {},
        }
        lemma_value_unheld(img, p.key);
    }
}

// ------------------------------------- what they say of all keys at once --

/// What a put does, as far as keys and values go.
pub open spec fn put_said(img: Image, key: Seq<u8>, val: Seq<u8>, now: Image, ok: bool) -> bool {
    &&& now.sound()
    &&& ok <==> {
        let (roomy, fits) = img.ensured((key.len() + val.len()) as int);
        img.value(key) == Some(val) || fits && roomy.probe(key, fnv(key)) is Some
    }
    &&& ok ==> now.value(key) == Some(val)
    &&& forall|other: Seq<u8>|
        other != key || !ok ==> #[trigger] now.value(other) == img.value(other)
}

/// A put does what `put_said` says.
pub proof fn law_put_said(img: Image, key: Seq<u8>, val: Seq<u8>, dirty: bool)
    requires
        img.sound(),
    ensures
        put_said(img, key, val, img.put(key, val, dirty).0, img.put(key, val, dirty).1),
{
    let (now, ok) = img.put(key, val, dirty);
    law_put(img, key, val, dirty, key);
    law_put_succeeds(img, key, val, dirty);
    assert(img.has_value(key, val) <==> img.value(key) == Some(val)) by {
        reveal(Image::value);
    }
    assert forall|other: Seq<u8>| other != key || !ok implies #[trigger] now.value(other)
        == img.value(other) by {
        law_put(img, key, val, dirty, other);
    }
}

/// What a removal does, as far as keys and values go.
pub open spec fn remove_said(img: Image, key: Seq<u8>, now: Image, was_there: bool) -> bool {
    &&& now.sound()
    &&& was_there == (img.value(key) is Some)
    &&& now.value(key) is None
    &&& forall|other: Seq<u8>|
        other != key ==> #[trigger] now.value(other) == img.value(other)
}

/// A removal does what `remove_said` says.
pub proof fn law_remove_said(img: Image, key: Seq<u8>, dirty: bool)
    requires
        img.sound(),
    ensures
        remove_said(img, key, img.removed(key, dirty).0, img.removed(key, dirty).1),
{
    let now = img.removed(key, dirty).0;
    law_remove(img, key, dirty, key);
    assert forall|other: Seq<u8>| other != key implies #[trigger] now.value(other) == img.value(
        other,
    ) by {
        law_remove(img, key, dirty, other);
    }
}

/// What a compaction does, as far as keys and values go.
pub open spec fn compact_said(img: Image, now: Image) -> bool {
    &&& now.sound()
    &&& forall|key: Seq<u8>| #[trigger] now.value(key) == img.value(key)
    &&& forall|key: Seq<u8>| #[trigger] now.owed(key) == img.owed(key)
}

/// A compaction does what `compact_said` says.
pub proof fn law_compact_said(img: Image)
    requires
        img.sound(),
    ensures
        compact_said(img, img.compacted()),
{
    law_compaction(img, Seq::empty());
    assert forall|key: Seq<u8>| #[trigger] img.compacted().value(key) == img.value(key) by {
        law_compaction(img, key);
    }
    assert forall|key: Seq<u8>| #[trigger] img.compacted().owed(key) == img.owed(key) by {
        law_compaction(img, key);
    }
}

/// What a clear does, as far as keys and values go.
pub open spec fn clear_said(now: Image) -> bool {
    &&& now.sound()
    &&& forall|key: Seq<u8>| (#[trigger] now.value(key)) is None
}

/// A clear does what `clear_said` says.
pub proof fn law_clear_said(img: Image)
    requires
        img.sized(),
    ensures
        clear_said(img.cleared()),
{
    law_clear(img, Seq::empty());
    assert forall|key: Seq<u8>| (#[trigger] img.cleared().value(key)) is None by {
        law_clear(img, key);
    }
}

} // verus!
