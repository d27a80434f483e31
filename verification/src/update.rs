//! What the stores of an update do, one by one: to a reader that comes after
//! all of them, and to one that comes after a writer that died half way.

use vstd::prelude::*;

use crate::consts::{ARENA_SIZE, INDEX_SLOTS, MAX_PROBES, SLOTS};
use crate::hash::fnv;
use crate::image::{
    bucket, is_clean_tomb, lemma_replay_concat, lemma_replay_push, next_even, next_odd, slot_for,
    Image, IndexEntry, WriteView, FL_DIRTY, ST_EMPTY, ST_LIVE, ST_TOMB,
};
use crate::sound::{
    finds, lemma_bucket_range, lemma_one_entry_others, lemma_one_entry_sound, lemma_probe_absent,
    lemma_probe_found, lemma_probe_from, lemma_slice_stable, lemma_value_held, lemma_value_unheld,
    one_entry,
};

verus! {

/// The new value of an update, the bucket it goes to, and whether the bucket
/// holds the key already.
pub struct Update {
    pub i: int,
    pub found: bool,
    pub key: Seq<u8>,
    pub val: Seq<u8>,
}

/// Entry `e` of `img` is of `key` and has the value `val`.
pub open spec fn complete(img: Image, e: IndexEntry, key: Seq<u8>, val: Seq<u8>) -> bool {
    &&& e.state == ST_LIVE
    &&& e.hash == fnv(key)
    &&& img.slice(e.key_off, e.key_len) == Some(key)
    &&& img.slice(e.val_off, e.val_len) == Some(val)
}

/// `now` is a state that `img` can be left in half way through an update.
pub open spec fn midway(img: Image, now: Image, u: Update) -> bool {
    let was = img.index[u.i];
    let e = now.index[u.i];
    &&& now.sized()
    &&& now.index == img.index.update(u.i, e)
    &&& img.arena_used <= now.arena_used
    &&& forall|p: int| 0 <= p < img.arena_used ==> now.arena[p] == img.arena[p]
    &&& e.hash == was.hash || e.hash == fnv(u.key)
    &&& if u.found {
        &&& e.hash == was.hash
        &&& e.key_off == was.key_off
        &&& e.key_len == was.key_len
        &&& {
            ||| e.state == was.state && e.val_off == was.val_off && e.val_len == was.val_len
            ||| e.state == was.state && was.state != ST_LIVE
            ||| e.state == was.state && e.val_len == 0 && e.val_off <= ARENA_SIZE
            ||| complete(now, e, u.key, u.val)
        }
    } else if was.state == ST_EMPTY {
        e.state == ST_EMPTY || complete(now, e, u.key, u.val)
    } else {
        ||| complete(now, e, u.key, u.val)
        ||| e.state == ST_TOMB && e.hash == was.hash
        ||| e.state == ST_TOMB && e.hash == fnv(u.key) && now.slice(e.key_off, e.key_len) == Some(
            u.key,
        )
    }
}

/// After each of the stores `ws`, made from `start` on, `img` is in a state
/// that an update can leave it in.
pub open spec fn midway_all(img: Image, start: Image, u: Update, ws: Seq<WriteView>) -> bool {
    forall|p: int| 0 <= p <= ws.len() ==> midway(img, #[trigger] start.replay(ws.take(p)), u)
}

proof fn lemma_midway_none(img: Image, start: Image, u: Update)
    requires
        midway(img, start, u),
    ensures
        midway_all(img, start, u, Seq::empty()),
        start.replay(Seq::empty()) == start,
{
    let ws = Seq::<WriteView>::empty();
    assert forall|p: int| 0 <= p <= ws.len() implies midway(
        img,
        #[trigger] start.replay(ws.take(p)),
        u,
    ) by {
        assert(ws.take(p) =~= ws);
    }
}

proof fn lemma_midway_push(img: Image, start: Image, u: Update, ws: Seq<WriteView>, w: WriteView)
    requires
        midway_all(img, start, u, ws),
        midway(img, start.replay(ws).apply(w), u),
    ensures
        midway_all(img, start, u, ws.push(w)),
        start.replay(ws.push(w)) == start.replay(ws).apply(w),
{
    lemma_replay_push(start, ws, w);
    assert forall|p: int| 0 <= p <= ws.push(w).len() implies midway(
        img,
        #[trigger] start.replay(ws.push(w).take(p)),
        u,
    ) by {
        if p <= ws.len() {
            assert(ws.push(w).take(p) =~= ws.take(p));
            assert(midway(img, start.replay(ws.take(p)), u));
        } else {
            assert(ws.push(w).take(p) =~= ws.push(w));
        }
    }
}

/// `start` holds what `img` holds.
pub open spec fn same_contents(img: Image, start: Image) -> bool {
    &&& start.sized()
    &&& start.index == img.index
    &&& start.arena == img.arena
    &&& start.arena_used == img.arena_used
    &&& start.arena_garbage == img.arena_garbage
}

/// The stores of an update whose key is there.
pub proof fn lemma_entry_found(img: Image, start: Image, u: Update, dirty: bool)
    requires
        img.sound(),
        u.found,
        img.holds(u.i, u.key),
        img.has_room(u.val.len() as int),
        same_contents(img, start),
    ensures
        ({
            let (ws, done) = start.entry_writes(u.i, true, u.key, u.val, fnv(u.key), dirty);
            let now = start.replay(ws);
            &&& done
            &&& midway_all(img, start, u, ws)
            &&& one_entry(img, now, u.i, u.key)
            &&& complete(now, now.index[u.i], u.key, u.val)
            &&& now.index[u.i].flags == (if dirty {
                img.index[u.i].flags | FL_DIRTY
            } else {
                img.index[u.i].flags
            })
            &&& now.arena_used == img.arena_used + u.val.len()
            &&& now.slots == start.slots
            &&& now.global_gen == start.global_gen
            &&& now.arena_seq == start.arena_seq
        }),
{
    let i = u.i;
    let was = img.index[i];
    assert(img.entry_ok(i));
    let used = img.arena_used;
    let end = used + u.val.len();
    assert(start.index =~= img.index.update(i, start.index[i]));
    lemma_midway_none(img, start, u);
    let s0 = Seq::<WriteView>::empty();
    let w1 = WriteView::Arena(used as int, u.val);
    let i1 = start.apply(w1);
    assert(i1.arena.subrange(used as int, end) =~= u.val);
    lemma_slice_stable(img, i1, was.key_off, was.key_len);
    lemma_midway_push(img, start, u, s0, w1);
    let s1 = s0.push(w1);
    let w2 = WriteView::ArenaUsed(end as u64);
    let i2 = i1.apply(w2);
    lemma_midway_push(img, start, u, s1, w2);
    let s2 = s1.push(w2);
    let w3 = WriteView::ArenaGarbage(start.arena_garbage.wrapping_add(was.val_len as u64));
    let i3 = if was.state == ST_LIVE {
        i2.apply(w3)
    } else {
        i2
    };
    let s3 = if was.state == ST_LIVE {
        s2.push(w3)
    } else {
        s2
    };
    if was.state == ST_LIVE {
        lemma_midway_push(img, start, u, s2, w3);
    }
    lemma_value_stores(img, start, u, dirty, s3, i3);
}

/// The stores of an update whose key is not there.
pub proof fn lemma_entry_new(img: Image, start: Image, u: Update, dirty: bool)
    requires
        img.sound(),
        !u.found,
        0 <= u.i < INDEX_SLOTS,
        img.index[u.i].state == ST_EMPTY || is_clean_tomb(img.index[u.i]),
        forall|j: int| !#[trigger] img.holds(j, u.key),
        img.reaches(fnv(u.key), u.i),
        img.has_room((u.key.len() + u.val.len()) as int),
        same_contents(img, start),
    ensures
        ({
            let (ws, done) = start.entry_writes(u.i, false, u.key, u.val, fnv(u.key), dirty);
            let now = start.replay(ws);
            &&& done
            &&& midway_all(img, start, u, ws)
            &&& one_entry(img, now, u.i, u.key)
            &&& complete(now, now.index[u.i], u.key, u.val)
            &&& now.index[u.i].flags == (if dirty {
                img.index[u.i].flags | FL_DIRTY
            } else {
                img.index[u.i].flags
            })
            &&& now.arena_used == img.arena_used + u.val.len() + u.key.len()
            &&& now.arena_garbage == img.arena_garbage
            &&& now.slots == start.slots
            &&& now.global_gen == start.global_gen
            &&& now.arena_seq == start.arena_seq
        }),
{
    let used = img.arena_used;
    let key_off = used + u.val.len();
    let end = key_off + u.key.len();
    assert(start.index =~= img.index.update(u.i, start.index[u.i]));
    lemma_midway_none(img, start, u);
    let s0 = Seq::<WriteView>::empty();
    let w1 = WriteView::Arena(used as int, u.val);
    let i1 = start.apply(w1);
    lemma_midway_push(img, start, u, s0, w1);
    let s1 = s0.push(w1);
    let w2 = WriteView::ArenaUsed(key_off as u64);
    let i2 = i1.apply(w2);
    lemma_midway_push(img, start, u, s1, w2);
    let s2 = s1.push(w2);
    let w3 = WriteView::Arena(key_off, u.key);
    let i3 = i2.apply(w3);
    assert(i3.arena.subrange(used as int, key_off) =~= u.val);
    assert(i3.arena.subrange(key_off, end) =~= u.key);
    lemma_midway_push(img, start, u, s2, w3);
    let s3 = s2.push(w3);
    let w4 = WriteView::ArenaUsed(end as u64);
    let i4 = i3.apply(w4);
    lemma_midway_push(img, start, u, s3, w4);
    let s4 = s3.push(w4);
    lemma_key_stores(img, start, u, s4, i4);
    let s7 = s4.push(WriteView::KeyOff(u.i, key_off as u32)).push(
        WriteView::KeyLen(u.i, u.key.len() as u32),
    ).push(WriteView::Hash(u.i, fnv(u.key)));
    lemma_value_stores(img, start, u, dirty, s7, start.replay(s7));
}

/// The stores of an update that give a new entry its key.
proof fn lemma_key_stores(img: Image, start: Image, u: Update, s: Seq<WriteView>, at: Image)
    requires
        !u.found,
        0 <= u.i < INDEX_SLOTS,
        img.index.len() == INDEX_SLOTS,
        img.index[u.i].state == ST_EMPTY || is_clean_tomb(img.index[u.i]),
        midway_all(img, start, u, s),
        start.replay(s) == at,
        midway(img, at, u),
        at.index[u.i] == img.index[u.i],
        img.arena_used + u.val.len() + u.key.len() <= ARENA_SIZE,
        at.slice((img.arena_used + u.val.len()) as u32, u.key.len() as u32) == Some(u.key),
    ensures
        ({
            let ws = s.push(WriteView::KeyOff(u.i, (img.arena_used + u.val.len()) as u32)).push(
                WriteView::KeyLen(u.i, u.key.len() as u32),
            ).push(WriteView::Hash(u.i, fnv(u.key)));
            let now = start.replay(ws);
            &&& midway_all(img, start, u, ws)
            &&& midway(img, now, u)
            &&& now == (Image { index: now.index, ..at })
            &&& now.index[u.i] == IndexEntry {
                key_off: (img.arena_used + u.val.len()) as u32,
                key_len: u.key.len() as u32,
                hash: fnv(u.key),
                ..img.index[u.i]
            }
        }),
{
    let i = u.i;
    let w5 = WriteView::KeyOff(i, (img.arena_used + u.val.len()) as u32);
    let i5 = at.apply(w5);
    assert(i5.index =~= img.index.update(i, i5.index[i]));
    lemma_midway_push(img, start, u, s, w5);
    let s5 = s.push(w5);
    let w6 = WriteView::KeyLen(i, u.key.len() as u32);
    let i6 = i5.apply(w6);
    assert(i6.index =~= img.index.update(i, i6.index[i]));
    lemma_midway_push(img, start, u, s5, w6);
    let s6 = s5.push(w6);
    let w7 = WriteView::Hash(i, fnv(u.key));
    let i7 = i6.apply(w7);
    assert(i7.index =~= img.index.update(i, i7.index[i]));
    assert(i7.slice(i7.index[i].key_off, i7.index[i].key_len) == Some(u.key));
    lemma_midway_push(img, start, u, s6, w7);
}

/// The last stores of an update, which give the entry its value.
proof fn lemma_value_stores(
    img: Image,
    start: Image,
    u: Update,
    dirty: bool,
    s: Seq<WriteView>,
    at: Image,
)
    requires
        img.sound(),
        0 <= u.i < INDEX_SLOTS,
        u.found ==> img.holds(u.i, u.key),
        !u.found ==> {
            &&& img.index[u.i].state == ST_EMPTY || is_clean_tomb(img.index[u.i])
            &&& forall|j: int| !#[trigger] img.holds(j, u.key)
            &&& img.reaches(fnv(u.key), u.i)
        },
        midway_all(img, start, u, s),
        start.replay(s) == at,
        midway(img, at, u),
        at.index[u.i].hash == fnv(u.key),
        at.index[u.i].state == img.index[u.i].state,
        at.index[u.i].flags == img.index[u.i].flags,
        at.slice(at.index[u.i].key_off, at.index[u.i].key_len) == Some(u.key),
        at.index[u.i].key_off + at.index[u.i].key_len <= at.arena_used,
        at.slice(img.arena_used as u32, u.val.len() as u32) == Some(u.val),
        img.arena_used + u.val.len() + (if u.found {
            0
        } else {
            u.key.len() as int
        }) == at.arena_used,
        at.arena_used <= ARENA_SIZE,
    ensures
        ({
            let val_set = s.push(WriteView::ValLen(u.i, 0)).push(
                WriteView::ValOff(u.i, img.arena_used as u32),
            ).push(WriteView::ValLen(u.i, u.val.len() as u32));
            let flagged = if dirty {
                val_set.push(WriteView::Flags(u.i, img.index[u.i].flags | FL_DIRTY))
            } else {
                val_set
            };
            let ws = flagged.push(WriteView::State(u.i, ST_LIVE));
            let now = start.replay(ws);
            &&& midway_all(img, start, u, ws)
            &&& one_entry(img, now, u.i, u.key)
            &&& complete(now, now.index[u.i], u.key, u.val)
            &&& now.index[u.i].flags == (if dirty {
                img.index[u.i].flags | FL_DIRTY
            } else {
                img.index[u.i].flags
            })
            &&& now.arena_used == at.arena_used
            &&& now.arena_garbage == at.arena_garbage
            &&& now.slots == at.slots
            &&& now.global_gen == at.global_gen
            &&& now.arena_seq == at.arena_seq
        }),
{
    let i = u.i;
    assert(img.entry_ok(i));
    let w1 = WriteView::ValLen(i, 0);
    let i1 = at.apply(w1);
    assert(i1.index =~= img.index.update(i, i1.index[i]));
    lemma_midway_push(img, start, u, s, w1);
    let s1 = s.push(w1);
    let w2 = WriteView::ValOff(i, img.arena_used as u32);
    let i2 = i1.apply(w2);
    assert(i2.index =~= img.index.update(i, i2.index[i]));
    lemma_midway_push(img, start, u, s1, w2);
    let s2 = s1.push(w2);
    let w3 = WriteView::ValLen(i, u.val.len() as u32);
    let i3 = i2.apply(w3);
    assert(i3.index =~= img.index.update(i, i3.index[i]));
    lemma_midway_push(img, start, u, s2, w3);
    let s3 = s2.push(w3);
    let w4 = WriteView::Flags(i, img.index[i].flags | FL_DIRTY);
    let i4 = if dirty {
        i3.apply(w4)
    } else {
        i3
    };
    assert(i4.index =~= img.index.update(i, i4.index[i]));
    let s4 = if dirty {
        s3.push(w4)
    } else {
        s3
    };
    if dirty {
        lemma_midway_push(img, start, u, s3, w4);
    }
    let w5 = WriteView::State(i, ST_LIVE);
    let i5 = i4.apply(w5);
    assert(i5.index =~= img.index.update(i, i5.index[i]));
    assert(complete(i5, i5.index[i], u.key, u.val));
    lemma_midway_push(img, start, u, s4, w5);
}

// ------------------------------------------------------ a writer that died --

/// What an update found of its key.
pub open spec fn probed(img: Image, u: Update) -> bool {
    &&& img.sound()
    &&& img.probe(u.key, fnv(u.key)) == Some((u.i, u.found))
}

/// What a search tells of the entry it found.
pub proof fn lemma_probed(img: Image, u: Update)
    requires
        probed(img, u),
    ensures
        0 <= u.i < INDEX_SLOTS,
        u.found ==> img.holds(u.i, u.key),
        !u.found ==> {
            &&& img.index[u.i].state == ST_EMPTY || is_clean_tomb(img.index[u.i])
            &&& forall|j: int| !#[trigger] img.holds(j, u.key)
            &&& img.reaches(fnv(u.key), u.i)
        },
{
    if exists|j: int| #[trigger] img.holds(j, u.key) {
        let j = choose|j: int| #[trigger] img.holds(j, u.key);
        lemma_probe_found(img, j, u.key);
    } else {
        lemma_probe_absent(img, u.key);
    }
}

/// Where a search finds `k` half way through an update: in the bucket that
/// held it before, or in the one that the update is about.
proof fn lemma_midway_search(img: Image, now: Image, u: Update, k: Seq<u8>)
    requires
        probed(img, u),
        midway(img, now, u),
    ensures
        match now.probe(k, fnv(k)) {
            Some((b, true)) => if b == u.i {
                &&& now.index[b].state != ST_EMPTY
                &&& now.matches(b, k, fnv(k))
            } else {
                img.holds(b, k)
            },
            _ => forall|b: int|
                #![trigger img.holds(b, k)]
                img.holds(b, k) ==> b == u.i && !now.matches(b, k, fnv(k)),
        },
{
    let hash = fnv(k);
    lemma_probed(img, u);
    lemma_probe_from(now, k, hash, 0, None);
    match now.probe(k, hash) {
        Some((b, true)) => {
            let d = choose|d: int| #[trigger] finds(now, k, hash, 0, b, d);
            lemma_bucket_range(hash, d);
            if b != u.i {
                assert(img.entry_ok(b));
                lemma_slice_stable(img, now, img.index[b].key_off, img.index[b].key_len);
            }
        },
        _ => {
            assert forall|b: int| #![trigger img.holds(b, k)] img.holds(b, k) implies b == u.i
                && !now.matches(b, k, hash) by {
                assert(img.entry_ok(b));
                let d = choose|d: int|
                    0 <= d < MAX_PROBES && #[trigger] bucket(hash, d) == b && img.packed(hash, d);
                assert forall|c: int| 0 <= c < d implies now.index[#[trigger] bucket(hash, c)].state
                    != ST_EMPTY by {
                    lemma_bucket_range(hash, c);
                    assert(img.index[bucket(hash, c)].state != ST_EMPTY);
                }
                if b != u.i {
                    lemma_slice_stable(img, now, img.index[b].key_off, img.index[b].key_len);
                }
                if now.matches(b, k, hash) {
                    assert(finds(now, k, hash, 0, b, d));
                }
            }
        },
    }
}

/// Half way through an update that reclaims the entry of a deleted key, the
/// entry is taken for a deletion of `k`, which was not there before.
pub open spec fn mistaken(img: Image, now: Image, u: Update, k: Seq<u8>) -> bool {
    &&& !u.found
    &&& k != u.key
    &&& img.index[u.i].state == ST_TOMB
    &&& now.index[u.i].state == ST_TOMB
    &&& now.matches(u.i, k, fnv(k))
    &&& !img.holds(u.i, k)
}

/// What the contents say half way through an update: of the key, its old
/// value, an empty one if it had one, or the new one; of any other key, what
/// they said before.
pub proof fn lemma_midway_said(img: Image, now: Image, u: Update, k: Seq<u8>)
    requires
        probed(img, u),
        midway(img, now, u),
        !mistaken(img, now, u, k),
    ensures
        k != u.key ==> now.value(k) == img.value(k),
        k == u.key ==> {
            ||| now.value(k) == img.value(k)
            ||| img.value(k) is Some && now.value(k) == Some(Seq::<u8>::empty())
            ||| now.value(k) == Some(u.val)
        },
{
    lemma_probed(img, u);
    if k == u.key {
        if u.found {
            lemma_said_found(img, now, u);
        } else {
            lemma_said_new(img, now, u);
        }
    } else if exists|b: int| b != u.i && #[trigger] img.holds(b, k) {
        let b = choose|b: int| b != u.i && #[trigger] img.holds(b, k);
        lemma_said_elsewhere(img, now, u, k, b);
    } else {
        lemma_said_nowhere(img, now, u, k);
    }
}

proof fn lemma_said_found(img: Image, now: Image, u: Update)
    requires
        probed(img, u),
        midway(img, now, u),
        u.found,
    ensures
        ({
            ||| now.value(u.key) == img.value(u.key)
            ||| img.value(u.key) is Some && now.value(u.key) == Some(Seq::<u8>::empty())
            ||| now.value(u.key) == Some(u.val)
        }),
{
    let i = u.i;
    let was = img.index[i];
    let e = now.index[i];
    lemma_probed(img, u);
    assert(img.entry_ok(i));
    lemma_slice_stable(img, now, was.key_off, was.key_len);
    assert(now.matches(i, u.key, fnv(u.key)));
    lemma_midway_search(img, now, u, u.key);
    assert(now.probe(u.key, fnv(u.key)) == Some((i, true)));
    if was.state == ST_LIVE {
        lemma_slice_stable(img, now, was.val_off, was.val_len);
        if e.val_len == 0 && e.val_off <= ARENA_SIZE {
            assert(now.arena.subrange(e.val_off as int, e.val_off as int) =~= Seq::<u8>::empty());
        }
    }
    reveal(Image::value);
}

proof fn lemma_said_new(img: Image, now: Image, u: Update)
    requires
        probed(img, u),
        midway(img, now, u),
        !u.found,
    ensures
        now.value(u.key) == img.value(u.key) || now.value(u.key) == Some(u.val),
{
    lemma_probed(img, u);
    lemma_value_unheld(img, u.key);
    lemma_midway_search(img, now, u, u.key);
    reveal(Image::value);
    match now.probe(u.key, fnv(u.key)) {
        Some((b, true)) => {
            assert(b == u.i);
        },
        _ => {},
    }
}

proof fn lemma_said_elsewhere(img: Image, now: Image, u: Update, k: Seq<u8>, b: int)
    requires
        probed(img, u),
        midway(img, now, u),
        !mistaken(img, now, u, k),
        k != u.key,
        b != u.i,
        img.holds(b, k),
    ensures
        now.value(k) == img.value(k),
{
    lemma_probed(img, u);
    lemma_probe_found(img, b, k);
    lemma_midway_search(img, now, u, k);
    if now.index[u.i].state != ST_EMPTY && now.matches(u.i, k, fnv(k)) {
        lemma_midway_foreign(img, now, u, k);
    }
    assert(now.probe(k, fnv(k)) == Some((b, true)));
    assert(img.entry_ok(b));
    if img.index[b].state == ST_LIVE {
        lemma_slice_stable(img, now, img.index[b].val_off, img.index[b].val_len);
    }
    reveal(Image::value);
}

proof fn lemma_said_nowhere(img: Image, now: Image, u: Update, k: Seq<u8>)
    requires
        probed(img, u),
        midway(img, now, u),
        !mistaken(img, now, u, k),
        k != u.key,
        forall|b: int| #[trigger] img.holds(b, k) ==> b == u.i,
    ensures
        now.value(k) == img.value(k),
{
    lemma_probed(img, u);
    assert(img.value(k) is None) by {
        if img.holds(u.i, k) {
            lemma_value_held(img, u.i, k);
        } else {
            lemma_value_unheld(img, k);
        }
    }
    lemma_midway_search(img, now, u, k);
    if now.index[u.i].state != ST_EMPTY && now.matches(u.i, k, fnv(k)) {
        lemma_midway_foreign(img, now, u, k);
    }
    reveal(Image::value);
}

/// The entry that an update is about cannot be taken for one of another key,
/// other than as a deletion.
proof fn lemma_midway_foreign(img: Image, now: Image, u: Update, k: Seq<u8>)
    requires
        probed(img, u),
        midway(img, now, u),
        !mistaken(img, now, u, k),
        k != u.key,
        now.index[u.i].state != ST_EMPTY,
        now.matches(u.i, k, fnv(k)),
    ensures
        now.index[u.i].state == ST_TOMB,
        img.holds(u.i, k),
{
    lemma_probed(img, u);
    assert(img.entry_ok(u.i));
    if u.found {
        lemma_slice_stable(img, now, img.index[u.i].key_off, img.index[u.i].key_len);
    }
}

/// A writer killed after any of the stores of an update leaves every other key
/// as it was, and the key of the update with its old value, with an empty one
/// if it had one, or with the new one.
///
/// The one exception: an update that reclaims the entry of a deleted key
/// changes it store by store, and the half-changed entry can be taken for one
/// of another key, which has the same hash as the deleted one.
pub proof fn law_writer_death(img: Image, u: Update, dirty: bool, p: int, k: Seq<u8>)
    requires
        probed(img, u),
        img.has_room((u.key.len() + u.val.len()) as int),
        0 <= p <= img.update_writes(u.i, u.found, u.key, u.val, fnv(u.key), dirty).0.len(),
        !mistaken(
            img,
            img.replay(
                img.update_writes(u.i, u.found, u.key, u.val, fnv(u.key), dirty).0.take(p),
            ),
            u,
            k,
        ),
    ensures
        ({
            let ws = img.update_writes(u.i, u.found, u.key, u.val, fnv(u.key), dirty).0;
            let now = img.replay(ws.take(p));
            &&& k != u.key ==> now.value(k) == img.value(k)
            &&& k == u.key ==> {
                ||| now.value(k) == img.value(k)
                ||| img.value(k) is Some && now.value(k) == Some(Seq::<u8>::empty())
                ||| now.value(k) == Some(u.val)
            }
        }),
{
    lemma_update_midway(img, u, dirty, p);
    let ws = img.update_writes(u.i, u.found, u.key, u.val, fnv(u.key), dirty).0;
    lemma_midway_said(img, img.replay(ws.take(p)), u, k);
}

/// The stores of a whole update, the two halves of the seqlock write included.
pub proof fn lemma_update_midway(img: Image, u: Update, dirty: bool, p: int)
    requires
        probed(img, u),
        img.has_room((u.key.len() + u.val.len()) as int),
        0 <= p <= img.update_writes(u.i, u.found, u.key, u.val, fnv(u.key), dirty).0.len(),
    ensures
        midway(
            img,
            img.replay(
                img.update_writes(u.i, u.found, u.key, u.val, fnv(u.key), dirty).0.take(p),
            ),
            u,
        ),
{
    let hash = fnv(u.key);
    let slot = slot_for(hash);
    let all = img.update_writes(u.i, u.found, u.key, u.val, hash, dirty).0;
    let open = Seq::<WriteView>::empty().push(img.slot_begin(slot));
    let begun = img.apply(img.slot_begin(slot));
    let ws = img.entry_writes(u.i, u.found, u.key, u.val, hash, dirty).0;
    lemma_probed(img, u);
    lemma_entry(img, begun, u, dirty);
    assert(begun.entry_writes(u.i, u.found, u.key, u.val, hash, dirty) == img.entry_writes(
        u.i,
        u.found,
        u.key,
        u.val,
        hash,
        dirty,
    ));
    lemma_replay_push(img, Seq::empty(), img.slot_begin(slot));
    if p == 0 {
        assert(all.take(p) =~= Seq::empty());
        assert(img.index =~= img.index.update(u.i, img.index[u.i]));
    } else if p <= 1 + ws.len() {
        assert(all.take(p) =~= open + ws.take(p - 1));
        lemma_replay_concat(img, open, ws.take(p - 1));
    } else {
        lemma_replay_concat(img, open, ws);
        let last = img.replay(open + ws);
        assert(ws.take(ws.len() as int) =~= ws);
        assert(midway(img, begun.replay(ws.take(ws.len() as int)), u));
        let close = all[1 + ws.len() as int];
        lemma_replay_push(img, open + ws, close);
        let closed = last.apply(close);
        assert(midway(img, closed, u));
        if p == 2 + ws.len() {
            assert(all.take(p) =~= (open + ws).push(close));
        } else {
            let gen = all[2 + ws.len() as int];
            assert(all.take(p) =~= (open + ws).push(close).push(gen));
            lemma_replay_push(img, (open + ws).push(close), gen);
        }
    }
}

/// The stores of an update, whether its key is there or not.
proof fn lemma_entry(img: Image, start: Image, u: Update, dirty: bool)
    requires
        probed(img, u),
        img.has_room((u.key.len() + u.val.len()) as int),
        same_contents(img, start),
    ensures
        ({
            let (ws, done) = start.entry_writes(u.i, u.found, u.key, u.val, fnv(u.key), dirty);
            let now = start.replay(ws);
            &&& done
            &&& midway_all(img, start, u, ws)
            &&& one_entry(img, now, u.i, u.key)
            &&& complete(now, now.index[u.i], u.key, u.val)
            &&& now.index[u.i].flags == (if dirty {
                img.index[u.i].flags | FL_DIRTY
            } else {
                img.index[u.i].flags
            })
            &&& !u.found ==> {
                &&& now.arena_used == img.arena_used + u.val.len() + u.key.len()
                &&& now.arena_garbage == img.arena_garbage
            }
            &&& now.slots == start.slots
            &&& now.global_gen == start.global_gen
            &&& now.arena_seq == start.arena_seq
        }),
{
    lemma_probed(img, u);
    if u.found {
        lemma_entry_found(img, start, u, dirty);
    } else {
        lemma_entry_new(img, start, u, dirty);
    }
}

/// A whole update: the entry has the new value, and the key's counter and the
/// count of mutations have moved on.
pub proof fn lemma_updated(img: Image, u: Update, dirty: bool)
    requires
        probed(img, u),
        img.has_room((u.key.len() + u.val.len()) as int),
    ensures
        ({
            let (ws, done) = img.update_writes(u.i, u.found, u.key, u.val, fnv(u.key), dirty);
            let now = img.replay(ws);
            let slot = slot_for(fnv(u.key));
            &&& done
            &&& one_entry(img, now, u.i, u.key)
            &&& complete(now, now.index[u.i], u.key, u.val)
            &&& now.index[u.i].flags == (if dirty {
                img.index[u.i].flags | FL_DIRTY
            } else {
                img.index[u.i].flags
            })
            &&& !u.found ==> {
                &&& now.arena_used == img.arena_used + u.val.len() + u.key.len()
                &&& now.arena_garbage == img.arena_garbage
            }
            &&& now.slots == img.slots.update(slot, next_even(next_odd(img.slots[slot])))
            &&& now.global_gen == img.global_gen.wrapping_add(1)
            &&& now.arena_seq == img.arena_seq
        }),
{
    let hash = fnv(u.key);
    let slot = slot_for(hash);
    let open = Seq::<WriteView>::empty().push(img.slot_begin(slot));
    let begun = img.apply(img.slot_begin(slot));
    let ws = img.entry_writes(u.i, u.found, u.key, u.val, hash, dirty).0;
    lemma_entry(img, begun, u, dirty);
    assert(begun.entry_writes(u.i, u.found, u.key, u.val, hash, dirty) == img.entry_writes(
        u.i,
        u.found,
        u.key,
        u.val,
        hash,
        dirty,
    ));
    lemma_replay_push(img, Seq::empty(), img.slot_begin(slot));
    lemma_replay_concat(img, open, ws);
    let close = WriteView::Slot(slot, next_even(next_odd(img.slots[slot])));
    lemma_replay_push(img, open + ws, close);
    lemma_replay_push(
        img,
        (open + ws).push(close),
        WriteView::GlobalGen(img.global_gen.wrapping_add(1)),
    );
    let now = img.replay(img.update_writes(u.i, u.found, u.key, u.val, hash, dirty).0);
    assert(now.slots =~= img.slots.update(slot, next_even(next_odd(img.slots[slot]))));
}

/// The stores of a deletion leave a state as an update that has nothing new to
/// say would, until the entry is marked deleted.
pub proof fn lemma_removed(img: Image, i: int, key: Seq<u8>, dirty: bool)
    requires
        img.sound(),
        img.holds(i, key),
        img.index[i].state == ST_LIVE,
    ensures
        ({
            let now = img.replay(img.bracket(slot_for(fnv(key)), img.tomb_writes(i, dirty)));
            let slot = slot_for(fnv(key));
            &&& one_entry(img, now, i, key)
            &&& now.index[i].state == ST_TOMB
            &&& now.index[i].flags == (if dirty {
                img.index[i].flags | FL_DIRTY
            } else {
                img.index[i].flags
            })
            &&& now.slots == img.slots.update(slot, next_even(next_odd(img.slots[slot])))
            &&& now.global_gen == img.global_gen.wrapping_add(1)
            &&& now.arena_seq == img.arena_seq
        }),
{
    broadcast use lemma_replay_push;

    let slot = slot_for(fnv(key));
    let open = Seq::<WriteView>::empty().push(img.slot_begin(slot));
    let ws = img.tomb_writes(i, dirty);
    lemma_replay_concat(img, open, ws);
    assert(img.entry_ok(i));
    let now = img.replay(img.bracket(slot, ws));
    assert(now.slots =~= img.slots.update(slot, next_even(next_odd(img.slots[slot]))));
    assert(now.index =~= img.index.update(i, now.index[i]));
    lemma_slice_stable(img, now, img.index[i].key_off, img.index[i].key_len);
}

/// `now` is a state that `img` can be left in half way through the deletion of
/// the key of entry `i`.
pub open spec fn half_removed(img: Image, now: Image, i: int, key: Seq<u8>) -> bool {
    let was = img.index[i];
    let e = now.index[i];
    &&& one_entry(img, now, i, key)
    &&& {
        ||| e.state == ST_LIVE && e.val_off == was.val_off && e.val_len == was.val_len
        ||| e.state == ST_LIVE && e.val_len == 0
        ||| e.state == ST_TOMB
    }
}

/// The stores of a whole deletion, the two halves of the seqlock write
/// included.
pub proof fn lemma_remove_midway(img: Image, i: int, key: Seq<u8>, dirty: bool, p: int)
    requires
        img.sound(),
        img.holds(i, key),
        img.index[i].state == ST_LIVE,
        0 <= p <= img.bracket(slot_for(fnv(key)), img.tomb_writes(i, dirty)).len(),
    ensures
        half_removed(
            img,
            img.replay(img.bracket(slot_for(fnv(key)), img.tomb_writes(i, dirty)).take(p)),
            i,
            key,
        ),
    decreases p,
{
    let slot = slot_for(fnv(key));
    let tomb = img.tomb_writes(i, dirty);
    let all = img.bracket(slot, tomb);
    let now = img.replay(all.take(p));
    assert(img.entry_ok(i));
    if p == 0 {
        assert(all.take(p) =~= Seq::empty());
        assert(img.index =~= img.index.update(i, img.index[i]));
    } else {
        lemma_remove_midway(img, i, key, dirty, p - 1);
        let before = img.replay(all.take(p - 1));
        let w = all[p - 1];
        assert(all.take(p) =~= all.take(p - 1).push(w));
        lemma_replay_push(img, all.take(p - 1), w);
        assert(now == before.apply(w));
        assert(w == if p == 1 {
            img.slot_begin(slot)
        } else if p - 2 < tomb.len() {
            tomb[p - 2]
        } else if p - 2 == tomb.len() {
            WriteView::Slot(slot, next_even(next_odd(img.slots[slot])))
        } else {
            WriteView::GlobalGen(img.global_gen.wrapping_add(1))
        });
        assert(now.index =~= img.index.update(i, now.index[i]));
    }
}

/// A writer killed after any of the stores of a deletion leaves every other
/// key as it was, and the key with its old value, with an empty one, or with
/// none.
pub proof fn law_remover_death(img: Image, i: int, key: Seq<u8>, dirty: bool, p: int, k: Seq<u8>)
    requires
        img.sound(),
        img.holds(i, key),
        img.index[i].state == ST_LIVE,
        0 <= p <= img.bracket(slot_for(fnv(key)), img.tomb_writes(i, dirty)).len(),
    ensures
        ({
            let ws = img.bracket(slot_for(fnv(key)), img.tomb_writes(i, dirty));
            let now = img.replay(ws.take(p));
            &&& now.sound()
            &&& k != key ==> now.value(k) == img.value(k)
            &&& k == key ==> {
                ||| now.value(k) == img.value(k)
                ||| now.value(k) == Some(Seq::<u8>::empty())
                ||| now.value(k) is None
            }
        }),
{
    lemma_remove_midway(img, i, key, dirty, p);
    let now = img.replay(img.bracket(slot_for(fnv(key)), img.tomb_writes(i, dirty)).take(p));
    lemma_one_entry_sound(img, now, i, key);
    lemma_value_held(now, i, key);
    lemma_value_held(img, i, key);
    assert(img.entry_ok(i));
    assert(now.entry_ok(i));
    lemma_slice_stable(img, now, img.index[i].val_off, img.index[i].val_len);
    if now.index[i].state == ST_LIVE && now.index[i].val_len == 0 {
        let off = now.index[i].val_off as int;
        assert(now.arena.subrange(off, off) =~= Seq::<u8>::empty());
    }
    if k != key {
        lemma_one_entry_others(img, now, i, key, k);
    }
}

/// Between the first and the last store to its counter, an update of a key
/// leaves the counter odd, so that no reader takes what it sees for settled;
/// the counters of other keys stay as they are. After the last of them the
/// counter is even again. It has moved on from the first of them on.
pub proof fn law_bracket_odd(img: Image, slot: int, ws: Seq<WriteView>, p: int)
    requires
        0 <= slot < SLOTS,
        img.sized(),
        0 < p <= img.bracket(slot, ws).len(),
        forall|j: int| 0 <= j < ws.len() ==> !(#[trigger] ws[j] is Slot),
    ensures
        ({
            let now = img.replay(img.bracket(slot, ws).take(p));
            &&& p <= 1 + ws.len() ==> now.slots == img.slots.update(
                slot,
                next_odd(img.slots[slot]),
            ) && now.slots[slot] % 2 == 1
            &&& p > 1 + ws.len() ==> now.slots == img.slots.update(
                slot,
                next_even(next_odd(img.slots[slot])),
            ) && now.slots[slot] % 2 == 0
            &&& img.slots[slot] <= u64::MAX - 4 ==> img.slots[slot] < now.slots[slot]
        }),
    decreases p,
{
    let all = img.bracket(slot, ws);
    let w = all[p - 1];
    assert(all.take(p) =~= all.take(p - 1).push(w));
    lemma_replay_push(img, all.take(p - 1), w);
    let now = img.replay(all.take(p));
    if p == 1 {
        assert(all.take(0) =~= Seq::empty());
    } else {
        law_bracket_odd(img, slot, ws, p - 1);
        let before = img.replay(all.take(p - 1));
        if p <= 1 + ws.len() {
            assert(w == ws[p - 2]);
        } else if p == 2 + ws.len() {
            assert(w == WriteView::Slot(slot, next_even(next_odd(img.slots[slot]))));
            assert(now.slots =~= img.slots.update(slot, next_even(next_odd(img.slots[slot]))));
        } else {
            assert(w is GlobalGen);
        }
    }
}

/// An update's own stores touch no counter.
pub proof fn law_entry_writes_plain(
    img: Image,
    i: int,
    found: bool,
    key: Seq<u8>,
    val: Seq<u8>,
    hash: u64,
    dirty: bool,
)
    ensures
        forall|j: int|
            0 <= j < img.entry_writes(i, found, key, val, hash, dirty).0.len() ==> !(
            #[trigger] img.entry_writes(i, found, key, val, hash, dirty).0[j] is Slot),
        forall|j: int|
            0 <= j < img.tomb_writes(i, dirty).len() ==> !(#[trigger] img.tomb_writes(
                i,
                dirty,
            )[j] is Slot),
{
}

} // verus!
