//! What a segment holds once it was populated from the files.

use vstd::prelude::*;

use crate::compaction::{
    lemma_carried, lemma_emptied, lemma_placed, lemma_reseated_empty, lemma_unheld_before,
};
use crate::consts::{ARENA_SIZE, INDEX_SLOTS};
use crate::hash::fnv;
use crate::history::{filed, settled, Files};
use crate::image::{empty_entry, is_dirty, Image, WriteView, ST_EMPTY};
use crate::disk::{all_read, loaded_upto};
use crate::init::{preloaded, InitEventView, InitStep, InitView};
use crate::laws::{law_ensured, law_put};
use crate::model::KeptView;
use crate::shm::zeroed_image;
use crate::sound::{
    lemma_one_entry_others, lemma_one_entry_sound, lemma_probe_absent, lemma_value_held,
    lemma_value_unheld,
};
use crate::store::StoreView;
use crate::update::{lemma_probed, lemma_updated, Update};

verus! {

impl Image {
    /// No free entry is marked as owing the disk something.
    pub open spec fn tidy(self) -> bool {
        forall|i: int|
            0 <= i < INDEX_SLOTS && (#[trigger] self.index[i]).state == ST_EMPTY ==> !is_dirty(
                self.index[i],
            )
    }
}

proof fn lemma_clean_zero()
    ensures
        !is_dirty(empty_entry()),
{
    assert(0u32 & 1u32 == 0) by (bit_vector);
}

/// A compaction leaves no free entry marked.
proof fn lemma_compacted_tidy(img: Image)
    requires
        img.sound(),
    ensures
        img.compacted().tidy(),
{
    reveal(Image::compacted);
    lemma_clean_zero();
    if img.whole() {
        lemma_carried_tidy(img, img.kept().len() as int);
        assert(img.compacted() == img.rebuilt().arena_ended());
    } else {
        lemma_reseated_empty(img);
        assert(img.compacted() == img.reseated().arena_ended());
    }
}

/// Carrying entries over leaves no free entry marked.
proof fn lemma_carried_tidy(img: Image, n: int)
    requires
        img.sound(),
        0 <= n <= img.kept().len(),
    ensures
        img.emptied().placed_upto(img.kept(), n).tidy(),
    decreases n,
{
    lemma_clean_zero();
    if n > 0 {
        lemma_carried_tidy(img, n - 1);
        lemma_carried(img, n - 1);
        lemma_unheld_before(img, n - 1);
        let before = img.emptied().placed_upto(img.kept(), n - 1);
        let k = img.kept()[n - 1];
        let now = before.placed(k);
        lemma_placed(before, k);
        assert(now == img.emptied().placed_upto(img.kept(), n));
        match before.probe(k.key, fnv(k.key)) {
            Some((b, _)) => {
                assert forall|i: int|
                    0 <= i < INDEX_SLOTS && (#[trigger] now.index[i]).state
                        == ST_EMPTY implies !is_dirty(now.index[i]) by {
                    assert(i != b);
                    assert(now.index[i] == before.index[i]);
                }
            },
            None => {},
        }
    }
}

/// A put that the disk is not to know of leaves no debt where there was none.
proof fn lemma_put_clean(img: Image, key: Seq<u8>, val: Seq<u8>, k: Seq<u8>)
    requires
        img.sound(),
        img.tidy(),
        !img.owed(key),
    ensures
        img.put(key, val, false).0.tidy(),
        img.put(key, val, false).0.owed(k) == img.owed(k),
{
    reveal(Image::put);
    let need = (key.len() + val.len()) as int;
    law_put(img, key, val, false, k);
    law_ensured(img, need, key);
    law_ensured(img, need, k);
    let roomy = img.ensured(need).0;
    assert(roomy.tidy()) by {
        if img.compacts(need) {
            lemma_compacted_tidy(img);
        }
    }
    match img.put_bucket(key, val) {
        None => {},
        Some((r, i, found)) => {
            let u = Update { i, found, key, val };
            lemma_updated(roomy, u, false);
            lemma_probed(roomy, u);
            let now = roomy.replay(roomy.update_writes(i, found, key, val, fnv(key), false).0);
            lemma_one_entry_sound(roomy, now, i, key);
            lemma_value_held(now, i, key);
            assert forall|j: int|
                0 <= j < INDEX_SLOTS && (#[trigger] now.index[j]).state
                    == ST_EMPTY implies !is_dirty(now.index[j]) by {
                assert(j != i);
                assert(now.index[j] == roomy.index[j]);
            }
            if found {
                lemma_value_held(roomy, i, key);
            }
            assert(!is_dirty(roomy.index[i]));
            if k != key {
                lemma_one_entry_others(roomy, now, i, key, k);
            }
        },
    }
}

/// No key is listed twice: each is the name of a file in one directory.
pub open spec fn listed_once(kvs: Seq<(Seq<u8>, Seq<u8>)>) -> bool {
    forall|a: int, b: int|
        0 <= a < kvs.len() && 0 <= b < kvs.len() && (#[trigger] kvs[a]).0 == (
        #[trigger] kvs[b]).0 ==> a == b
}

/// What the first `n` of `kvs` say of `key`.
pub open spec fn listed(kvs: Seq<(Seq<u8>, Seq<u8>)>, n: int, key: Seq<u8>) -> Option<Seq<u8>>
    decreases n,
{
    if n <= 0 {
        None
    } else if kvs[n - 1].0 == key {
        Some(kvs[n - 1].1)
    } else {
        listed(kvs, n - 1, key)
    }
}

/// A segment that was populated holds what the files hold, and owes the disk
/// nothing.
pub proof fn law_preload(dev: u64, kvs: Seq<(Seq<u8>, Seq<u8>)>, n: int, key: Seq<u8>)
    requires
        listed_once(kvs),
        0 <= n <= kvs.len(),
        preloaded(zeroed_image().with_header(dev), kvs, n).1,
    ensures
        ({
            let now = preloaded(zeroed_image().with_header(dev), kvs, n).0;
            &&& now.sound()
            &&& now.tidy()
            &&& now.value(key) == listed(kvs, n, key)
            &&& !now.owed(key)
        }),
    decreases n,
{
    let start = zeroed_image().with_header(dev);
    lemma_clean_zero();
    if n == 0 {
        lemma_emptied(start);
        lemma_value_unheld(start, key);
    } else {
        let (k, v) = kvs[n - 1];
        law_preload(dev, kvs, n - 1, key);
        law_preload(dev, kvs, n - 1, k);
        let before = preloaded(start, kvs, n - 1).0;
        law_put(before, k, v, false, key);
        lemma_put_clean(before, k, v, key);
    }
}

/// Bytes that the first `n` of `kvs` take.
pub open spec fn total(kvs: Seq<(Seq<u8>, Seq<u8>)>, n: int) -> int
    decreases n,
{
    if n <= 0 {
        0
    } else {
        total(kvs, n - 1) + kvs[n - 1].0.len() + kvs[n - 1].1.len()
    }
}

/// Populating a segment from files that fit the arena stores them one behind the
/// other, with no garbage between them.
pub proof fn law_preload_fits(dev: u64, kvs: Seq<(Seq<u8>, Seq<u8>)>, n: int)
    requires
        listed_once(kvs),
        0 <= n <= kvs.len(),
        total(kvs, n) <= ARENA_SIZE,
        preloaded(zeroed_image().with_header(dev), kvs, n).1,
    ensures
        preloaded(zeroed_image().with_header(dev), kvs, n).0.arena_used == total(kvs, n),
        preloaded(zeroed_image().with_header(dev), kvs, n).0.arena_garbage == 0,
        forall|i: int, key: Seq<u8>| #[trigger]
            preloaded(zeroed_image().with_header(dev), kvs, n).0.holds(i, key) ==> exists|m: int|
                0 <= m < n && (#[trigger] kvs[m]).0 == key,
    decreases n,
{
    let start = zeroed_image().with_header(dev);
    if n == 0 {
        lemma_emptied(start);
    } else {
        let (k, v) = kvs[n - 1];
        let before = preloaded(start, kvs, n - 1).0;
        law_preload_fits(dev, kvs, n - 1);
        law_preload(dev, kvs, n - 1, k);
        assert forall|i: int| !#[trigger] before.holds(i, k) by {
            if before.holds(i, k) {
                let m = choose|m: int| 0 <= m < n - 1 && (#[trigger] kvs[m]).0 == k;
                assert(kvs[m].0 == kvs[n - 1].0);
            }
        }
        lemma_put_new(before, k, v);
        let now = preloaded(start, kvs, n).0;
        assert forall|i: int, key: Seq<u8>| #[trigger] now.holds(i, key) implies exists|m: int|
            0 <= m < n && (#[trigger] kvs[m]).0 == key by {
            if key == k {
                assert(kvs[n - 1].0 == key);
            } else {
                let j = choose|j: int| #[trigger] before.holds(j, key);
                let m = choose|m: int| 0 <= m < n - 1 && (#[trigger] kvs[m]).0 == key;
                assert(kvs[m].0 == key);
            }
        }
    }
}

/// A put of a key that is not there, when there is room and no garbage.
proof fn lemma_put_new(img: Image, key: Seq<u8>, val: Seq<u8>)
    requires
        img.sound(),
        forall|i: int| !#[trigger] img.holds(i, key),
        img.has_room((key.len() + val.len()) as int),
        img.arena_garbage == 0,
        img.put(key, val, false).1,
    ensures
        img.put(key, val, false).0.arena_used == img.arena_used + key.len() + val.len(),
        img.put(key, val, false).0.arena_garbage == 0,
        forall|j: int, k: Seq<u8>| #[trigger]
            img.put(key, val, false).0.holds(j, k) && k != key ==> exists|i: int|
                #[trigger] img.holds(i, k),
{
    reveal(Image::put);
    lemma_probe_absent(img, key);
    match img.put_bucket(key, val) {
        None => {},
        Some((roomy, i, found)) => {
            assert(roomy == img);
            let u = Update { i, found, key, val };
            lemma_updated(img, u, false);
            let now = img.put(key, val, false).0;
            lemma_one_entry_sound(img, now, i, key);
            assert forall|j: int, k: Seq<u8>| #[trigger]
                now.holds(j, k) && k != key implies exists|i: int| #[trigger] img.holds(i, k) by {
                assert(img.holds(j, k));
            }
        },
    }
}

/// Right after the segment was brought up, every key is on disk as it is in
/// memory.
pub proof fn law_preload_settled(dev: u64, kvs: Seq<(Seq<u8>, Seq<u8>)>, files: Files)
    requires
        listed_once(kvs),
        preloaded(zeroed_image().with_header(dev), kvs, kvs.len() as int).1,
        forall|key: Seq<u8>| #[trigger]
            filed(files, key) == listed(kvs, kvs.len() as int, key),
    ensures
        settled(preloaded(zeroed_image().with_header(dev), kvs, kvs.len() as int).0, files),
{
    let now = preloaded(zeroed_image().with_header(dev), kvs, kvs.len() as int).0;
    assert forall|key: Seq<u8>| !#[trigger] now.owed(key) implies filed(files, key) == now.value(
        key,
    ) by {
        law_preload(dev, kvs, kvs.len() as int, key);
    }
}

// ------------------------------------------------------------- publication --

proof fn lemma_replay_ready(img: Image, ws: Seq<WriteView>)
    requires
        forall|j: int| 0 <= j < ws.len() ==> !(#[trigger] ws[j] is Ready),
    ensures
        img.replay(ws).ready == img.ready,
    decreases ws.len(),
{
    if ws.len() > 0 {
        let rest = ws.drop_last();
        assert forall|j: int| 0 <= j < rest.len() implies !(#[trigger] rest[j] is Ready) by {
            assert(rest[j] == ws[j]);
        }
        lemma_replay_ready(img, rest);
        assert(!(ws[ws.len() - 1] is Ready));
    }
}

proof fn lemma_placed_ready(img: Image, n: int)
    ensures
        img.emptied().placed_upto(img.kept(), n).ready == img.ready,
    decreases n,
{
    if n > 0 {
        lemma_placed_ready(img, n - 1);
    }
}

proof fn lemma_seated_ready(img: Image, ks: Seq<KeptView>, n: int)
    ensures
        img.seated_upto(ks, n).ready == img.ready,
    decreases n,
{
    if n > 0 {
        lemma_seated_ready(img, ks, n - 1);
    }
}

/// A compaction publishes nothing.
proof fn lemma_compacted_ready(img: Image)
    ensures
        img.compacted().ready == img.ready,
{
    reveal(Image::compacted);
    let all = img.kept() + img.gone();
    lemma_placed_ready(img, img.kept().len() as int);
    lemma_seated_ready(img.rebuilt().wiped(), all, all.len() as int);
}

/// A put publishes nothing.
proof fn lemma_put_ready(img: Image, key: Seq<u8>, val: Seq<u8>, dirty: bool)
    ensures
        img.put(key, val, dirty).0.ready == img.ready,
{
    reveal(Image::put);
    let need = (key.len() + val.len()) as int;
    lemma_compacted_ready(img);
    match img.put_bucket(key, val) {
        None => {},
        Some((roomy, i, found)) => {
            let ws = roomy.update_writes(i, found, key, val, fnv(key), dirty).0;
            let inner = roomy.entry_writes(i, found, key, val, fnv(key), dirty).0;
            assert forall|j: int| 0 <= j < inner.len() implies !(#[trigger] inner[j] is Ready) by {}
            assert forall|j: int| 0 <= j < ws.len() implies !(#[trigger] ws[j] is Ready) by {
                if 1 <= j < 1 + inner.len() {
                    assert(ws[j] == inner[j - 1]);
                }
            }
            lemma_replay_ready(roomy, ws);
        },
    }
}

/// The two images agree on what says which segment they are.
spec fn same_kind(img: Image, now: Image) -> bool {
    now.magic == img.magic && now.version == img.version && now.store_dev == img.store_dev
}

proof fn lemma_replay_kept(img: Image, ws: Seq<WriteView>)
    requires
        forall|j: int|
            0 <= j < ws.len() ==> !(#[trigger] ws[j] is Magic) && !(ws[j] is Version) && !(
            ws[j] is StoreDev),
    ensures
        same_kind(img, img.replay(ws)),
    decreases ws.len(),
{
    if ws.len() > 0 {
        let rest = ws.drop_last();
        assert forall|j: int| 0 <= j < rest.len() implies !(#[trigger] rest[j] is Magic) && !(
        rest[j] is Version) && !(rest[j] is StoreDev) by {
            assert(rest[j] == ws[j]);
        }
        lemma_replay_kept(img, rest);
        assert(!(ws[ws.len() - 1] is Magic));
    }
}

proof fn lemma_placed_kept(img: Image, ks: Seq<KeptView>, n: int)
    ensures
        same_kind(img, img.placed_upto(ks, n)),
        same_kind(img, img.seated_upto(ks, n)),
    decreases n,
{
    if n > 0 {
        lemma_placed_kept(img, ks, n - 1);
    }
}

proof fn lemma_compacted_kept(img: Image)
    ensures
        same_kind(img, img.compacted()),
{
    reveal(Image::compacted);
    let all = img.kept() + img.gone();
    lemma_placed_kept(img.emptied(), img.kept(), img.kept().len() as int);
    lemma_placed_kept(img.rebuilt().wiped(), all, all.len() as int);
}

/// A put does not change which segment it is.
proof fn lemma_put_kept(img: Image, key: Seq<u8>, val: Seq<u8>, dirty: bool)
    ensures
        same_kind(img, img.put(key, val, dirty).0),
{
    reveal(Image::put);
    lemma_compacted_kept(img);
    match img.put_bucket(key, val) {
        None => {},
        Some((roomy, i, found)) => {
            let ws = roomy.update_writes(i, found, key, val, fnv(key), dirty).0;
            let inner = roomy.entry_writes(i, found, key, val, fnv(key), dirty).0;
            assert forall|j: int| 0 <= j < inner.len() implies !(#[trigger] inner[j] is Magic) && !(
            inner[j] is Version) && !(inner[j] is StoreDev) by {}
            assert forall|j: int| 0 <= j < ws.len() implies !(#[trigger] ws[j] is Magic) && !(
            ws[j] is Version) && !(ws[j] is StoreDev) by {
                if 1 <= j < 1 + inner.len() {
                    assert(ws[j] == inner[j - 1]);
                }
            }
            lemma_replay_kept(roomy, ws);
        },
    }
}

proof fn lemma_preloaded_ready(img: Image, kvs: Seq<(Seq<u8>, Seq<u8>)>, n: int)
    ensures
        preloaded(img, kvs, n).0.ready == img.ready,
    decreases n,
{
    if n > 0 {
        lemma_preloaded_ready(img, kvs, n - 1);
        lemma_put_ready(preloaded(img, kvs, n - 1).0, kvs[n - 1].0, kvs[n - 1].1, false);
    }
}

/// Putting files into a segment leaves what says whether it may be used alone.
pub proof fn lemma_preloaded_kept(img: Image, kvs: Seq<(Seq<u8>, Seq<u8>)>, n: int)
    ensures
        preloaded(img, kvs, n).0.ready == img.ready,
        preloaded(img, kvs, n).0.magic == img.magic,
        preloaded(img, kvs, n).0.version == img.version,
        preloaded(img, kvs, n).0.store_dev == img.store_dev,
    decreases n,
{
    lemma_preloaded_ready(img, kvs, n);
    if n > 0 {
        lemma_preloaded_kept(img, kvs, n - 1);
        lemma_put_kept(preloaded(img, kvs, n - 1).0, kvs[n - 1].0, kvs[n - 1].1, false);
    }
}

/// A segment that is being brought up is published by one step only: the one
/// that put every file into it, all of them having been read, with the writer
/// lock held. Whatever else happens, it stays unpublished, so that no process
/// takes part of the store for the whole of it.
pub proof fn law_never_partly_published(
    op: InitView,
    st: StoreView,
    img: Image,
    ev: InitEventView,
)
    requires
        op.ordered(),
        op.expects(ev),
        img.ready == 0,
    ensures
        ({
            let (op2, st2, img2) = op.next(st, img, ev);
            &&& op2.ordered()
            &&& img2.ready != 0 <==> op2.at == InitStep::Publish
            &&& op2.at == InitStep::Publish ==> {
                &&& op.at == InitStep::Load
                &&& op.held
                &&& op2.held
                &&& ev->Loaded_0 matches Some(fs) && all_read(fs) && preloaded(
                    img,
                    loaded_upto(fs, fs.len() as int),
                    loaded_upto(fs, fs.len() as int).len() as int,
                ).1
            }
        }),
{
    match ev {
        InitEventView::Loaded(Some(fs)) => {
            let kvs = loaded_upto(fs, fs.len() as int);
            lemma_preloaded_ready(img, kvs, kvs.len() as int);
        },
        _ => {},
    }
}

} // verus!
