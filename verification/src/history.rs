//! What holds over any number of operations, by any number of processes: that
//! a key's counter tells whether a cached value is current, and that a commit
//! strands nothing in memory.

use vstd::prelude::*;

use crate::commit::staleness;
use crate::consts::{INDEX_SLOTS, SLOTS};
use crate::disk::{key_ok, Kind, Meta};
use crate::hash::fnv;
use crate::image::{is_dirty, slot_for, Image};
use crate::laws::{law_clear, law_put, law_remove, law_repair, law_retire};
use crate::model::PendingView;
use crate::sound::{lemma_value_held, lemma_value_unheld};

verus! {

/// One operation on the segment, made under the writer lock.
pub enum Op {
    /// Give a key a value.
    Put { key: Seq<u8>, val: Seq<u8>, dirty: bool },
    /// Delete a key.
    Remove { key: Seq<u8>, dirty: bool },
    /// Empty the store.
    Clear,
    /// Make the counter of a slot even.
    Repair { slot: int },
    /// Pay a debt.
    Retire { p: PendingView },
}

impl Image {
    /// The image after an operation.
    pub open spec fn after(self, op: Op) -> Image {
        match op {
            Op::Put { key, val, dirty } => self.put(key, val, dirty).0,
            Op::Remove { key, dirty } => self.removed(key, dirty).0,
            Op::Clear => self.cleared(),
            Op::Repair { slot } => self.repaired(slot),
            Op::Retire { p } => self.retired(p),
        }
    }

    /// The image after a series of operations.
    pub open spec fn after_all(self, ops: Seq<Op>) -> Image
        decreases ops.len(),
    {
        if ops.len() == 0 {
            self
        } else {
            self.after_all(ops.drop_last()).after(ops.last())
        }
    }
}

impl Op {
    /// The operation makes sense: its slot is one, or its hash is the key's.
    pub open spec fn proper(self) -> bool {
        match self {
            Op::Repair { slot } => 0 <= slot < SLOTS,
            Op::Retire { p } => p.hash == fnv(p.key),
            _ => true,
        }
    }
}

/// Every operation makes sense.
pub open spec fn all_proper(ops: Seq<Op>) -> bool {
    forall|n: int| 0 <= n < ops.len() ==> (#[trigger] ops[n]).proper()
}

/// One operation keeps the contents in order. No counter goes back, none moves
/// on by more than 3, and one that is even stays even. The counter of a key
/// whose value changes moves on.
pub proof fn law_operation(img: Image, op: Op, key: Seq<u8>)
    requires
        img.sound(),
        op.proper(),
        img.slots[slot_for(fnv(key))] <= u64::MAX - 4,
    ensures
        img.after(op).sound(),
        ({
            let was = img.slots[slot_for(fnv(key))];
            let now = img.after(op).slots[slot_for(fnv(key))];
            &&& was <= now <= was + 3
            &&& was % 2 == 0 ==> now % 2 == 0
            &&& img.after(op).value(key) != img.value(key) ==> was < now
        }),
        img.arena_seq % 2 == 0 ==> img.after(op).arena_seq % 2 == 0,
{
    match op {
        Op::Put { key: k, val, dirty } => {
            law_put(img, k, val, dirty, key);
        },
        Op::Remove { key: k, dirty } => {
            law_remove(img, k, dirty, key);
        },
        Op::Clear => {
            law_clear(img, key);
        },
        Op::Repair { slot } => {
            law_repair(img, slot, key);
        },
        Op::Retire { p } => {
            law_retire(img, p, key);
        },
    }
}

/// Any series of operations keeps the contents in order, moves counters on
/// only, and keeps even counters even.
pub proof fn law_operations(img: Image, ops: Seq<Op>, key: Seq<u8>)
    requires
        img.sound(),
        all_proper(ops),
        img.slots[slot_for(fnv(key))] + 3 * ops.len() <= u64::MAX - 4,
    ensures
        img.after_all(ops).sound(),
        ({
            let was = img.slots[slot_for(fnv(key))];
            let now = img.after_all(ops).slots[slot_for(fnv(key))];
            &&& was <= now <= was + 3 * ops.len()
            &&& was % 2 == 0 ==> now % 2 == 0
        }),
        img.arena_seq % 2 == 0 ==> img.after_all(ops).arena_seq % 2 == 0,
    decreases ops.len(),
{
    if ops.len() > 0 {
        law_operations(img, ops.drop_last(), key);
        law_operation(img.after_all(ops.drop_last()), ops.last(), key);
    }
}

/// A counter that is what it was tells that the key's value is what it was,
/// whatever was done to the segment in between.
pub proof fn law_counter_tells(img: Image, ops: Seq<Op>, key: Seq<u8>)
    requires
        img.sound(),
        all_proper(ops),
        img.slots[slot_for(fnv(key))] + 3 * ops.len() <= u64::MAX - 4,
        img.after_all(ops).slots[slot_for(fnv(key))] == img.slots[slot_for(fnv(key))],
    ensures
        img.after_all(ops).value(key) == img.value(key),
    decreases ops.len(),
{
    if ops.len() > 0 {
        law_operations(img, ops.drop_last(), key);
        law_operation(img.after_all(ops.drop_last()), ops.last(), key);
        law_counter_tells(img, ops.drop_last(), key);
    }
}

// ---------------------------------------------------------------- commit --

/// The operation may happen while a commit is writing files: it holds the
/// writer lock only, and what it changes is to reach the disk.
pub open spec fn beside_commit(op: Op) -> bool {
    match op {
        Op::Put { key, val, dirty } => dirty,
        Op::Remove { key, dirty } => dirty,
        Op::Repair { slot } => true,
        _ => false,
    }
}

/// While a commit is writing files, no debt is cancelled, and a key whose value
/// changes is owed to the disk.
pub proof fn law_debts_stay(img: Image, ops: Seq<Op>, key: Seq<u8>)
    requires
        img.sound(),
        all_proper(ops),
        forall|n: int| 0 <= n < ops.len() ==> beside_commit(#[trigger] ops[n]),
        img.slots[slot_for(fnv(key))] + 3 * ops.len() <= u64::MAX - 4,
    ensures
        img.owed(key) ==> img.after_all(ops).owed(key),
        img.after_all(ops).value(key) != img.value(key) ==> img.after_all(ops).owed(key),
    decreases ops.len(),
{
    if ops.len() > 0 {
        let rest = ops.drop_last();
        assert forall|n: int| 0 <= n < rest.len() implies beside_commit(#[trigger] rest[n]) by {
            assert(rest[n] == ops[n]);
        }
        law_debts_stay(img, rest, key);
        law_operations(img, rest, key);
        let mid = img.after_all(rest);
        assert(beside_commit(ops[ops.len() - 1]));
        match ops.last() {
            Op::Put { key: k, val, dirty } => {
                law_put(mid, k, val, dirty, key);
            },
            Op::Remove { key: k, dirty } => {
                law_remove(mid, k, dirty, key);
            },
            Op::Repair { slot } => {
                law_repair(mid, slot, key);
            },
            _ => {},
        }
    }
}

/// The files of the store, by key.
pub type Files = Map<Seq<u8>, Seq<u8>>;

/// The value that the files give a key, if there is a file for it.
pub open spec fn filed(files: Files, key: Seq<u8>) -> Option<Seq<u8>> {
    if files.contains_key(key) {
        Some(files[key])
    } else {
        None
    }
}

/// The files after one debt was paid.
pub open spec fn paid(files: Files, p: PendingView) -> Files {
    match p.val {
        Some(v) => files.insert(p.key, v),
        None => files.remove(p.key),
    }
}

/// The files after the first `n` of `ps` were paid.
pub open spec fn paid_upto(files: Files, ps: Seq<PendingView>, n: int) -> Files
    decreases n,
{
    if n <= 0 {
        files
    } else {
        paid(paid_upto(files, ps, n - 1), ps[n - 1])
    }
}

/// Every key that the disk is owed nothing for is on disk as it is in memory.
pub open spec fn settled(img: Image, files: Files) -> bool {
    forall|key: Seq<u8>| !#[trigger] img.owed(key) ==> filed(files, key) == img.value(key)
}

/// No two of `ps` are about one key.
pub open spec fn distinct(ps: Seq<PendingView>) -> bool {
    forall|n: int, m: int|
        0 <= n < ps.len() && 0 <= m < ps.len() && (#[trigger] ps[n]).key == (
        #[trigger] ps[m]).key ==> n == m
}

/// `p` is what `img` owed the disk for its key.
pub open spec fn notes(img: Image, p: PendingView) -> bool {
    &&& p.hash == fnv(p.key)
    &&& p.seen == img.slots[slot_for(p.hash)]
    &&& p.val == img.value(p.key)
}

/// What paying debts does to the files.
pub proof fn lemma_paid(files: Files, ps: Seq<PendingView>, n: int, key: Seq<u8>)
    requires
        distinct(ps),
        0 <= n <= ps.len(),
    ensures
        forall|m: int|
            0 <= m < n && (#[trigger] ps[m]).key == key ==> filed(paid_upto(files, ps, n), key)
                == ps[m].val,
        (forall|m: int| 0 <= m < n ==> (#[trigger] ps[m]).key != key) ==> filed(
            paid_upto(files, ps, n),
            key,
        ) == filed(files, key),
    decreases n,
{
    if n > 0 {
        lemma_paid(files, ps, n - 1, key);
        if ps[n - 1].key == key {
            assert forall|m: int| 0 <= m < n && (#[trigger] ps[m]).key == key implies m == n
                - 1 by {
                assert(ps[n - 1].key == key);
            }
        }
    }
}

/// What paying debts does to the flags.
pub proof fn lemma_retired(img: Image, ps: Seq<PendingView>, n: int, key: Seq<u8>)
    requires
        img.sound(),
        0 <= n <= ps.len(),
        forall|m: int| 0 <= m < ps.len() ==> (#[trigger] ps[m]).hash == fnv(ps[m].key),
    ensures
        img.retired_upto(ps, n).sound(),
        img.retired_upto(ps, n).slots == img.slots,
        img.retired_upto(ps, n).arena_seq == img.arena_seq,
        img.retired_upto(ps, n).value(key) == img.value(key),
        img.retired_upto(ps, n).owed(key) ==> img.owed(key),
        img.owed(key) && !img.retired_upto(ps, n).owed(key) ==> exists|m: int|
            0 <= m < n && (#[trigger] ps[m]).key == key && img.slots[slot_for(ps[m].hash)]
                == ps[m].seen,
        forall|m: int|
            0 <= m < n && (#[trigger] ps[m]).key == key && img.slots[slot_for(ps[m].hash)]
                == ps[m].seen ==> !img.retired_upto(ps, n).owed(key),
    decreases n,
{
    if n > 0 {
        lemma_retired(img, ps, n - 1, key);
        let before = img.retired_upto(ps, n - 1);
        law_retire(before, ps[n - 1], key);
        if img.owed(key) && !img.retired_upto(ps, n).owed(key) {
            if before.owed(key) {
                assert(ps[n - 1].key == key);
            } else {
                let m = choose|m: int|
                    0 <= m < n - 1 && (#[trigger] ps[m]).key == key && img.slots[slot_for(
                        ps[m].hash,
                    )] == ps[m].seen;
                assert(ps[m].key == key);
            }
        }
    }
}

/// The snapshot that a commit takes notes, for every entry that owes, what the
/// contents say of its key, and no key twice.
pub proof fn lemma_pending(img: Image, stale: Seq<bool>, n: int)
    requires
        img.sound(),
        0 <= n <= INDEX_SLOTS,
    ensures
        forall|m: int|
            0 <= m < img.pending_upto(stale, n).len() ==> {
                &&& notes(img, #[trigger] img.pending_upto(stale, n)[m])
                &&& exists|i: int|
                    0 <= i < n && #[trigger] img.holds(i, img.pending_upto(stale, n)[m].key)
            },
        distinct(img.pending_upto(stale, n)),
        forall|i: int, key: Seq<u8>|
            0 <= i < n && #[trigger] img.holds(i, key) && is_dirty(img.index[i]) ==> exists|m: int|
                0 <= m < img.pending_upto(stale, n).len() && (#[trigger] img.pending_upto(
                    stale,
                    n,
                )[m]).key == key,
    decreases n,
{
    if n > 0 {
        lemma_pending(img, stale, n - 1);
        let ps = img.pending_upto(stale, n - 1);
        let all = img.pending_upto(stale, n);
        let answer = stale[img.queries_upto(n - 1).len() as int];
        assert(img.entry_ok(n - 1));
        match img.pending_at(n - 1, answer) {
            Some(p) => {
                assert(all == ps.push(p));
                assert(img.holds(n - 1, p.key));
                lemma_value_held(img, n - 1, p.key);
                assert(notes(img, p));
                assert forall|m: int| 0 <= m < all.len() implies {
                    &&& notes(img, #[trigger] all[m])
                    &&& exists|i: int| 0 <= i < n && #[trigger] img.holds(i, all[m].key)
                } by {
                    if m < ps.len() {
                        assert(all[m] == ps[m]);
                        assert(notes(img, ps[m]));
                        let i = choose|i: int|
                            0 <= i < n - 1 && #[trigger] img.holds(i, ps[m].key);
                        assert(img.holds(i, all[m].key));
                    } else {
                        assert(img.holds(n - 1, all[m].key));
                    }
                }
                assert forall|m: int| 0 <= m < ps.len() implies (#[trigger] all[m]).key
                    != p.key by {
                    assert(all[m] == ps[m]);
                    assert(notes(img, ps[m]));
                    let i = choose|i: int| 0 <= i < n - 1 && #[trigger] img.holds(i, ps[m].key);
                    if ps[m].key == p.key {
                        assert(img.holds(i, p.key));
                    }
                }
                assert forall|i: int, key: Seq<u8>|
                    0 <= i < n && #[trigger] img.holds(i, key) && is_dirty(
                        img.index[i],
                    ) implies exists|m: int|
                    0 <= m < all.len() && (#[trigger] all[m]).key == key by {
                    if i < n - 1 {
                        let m = choose|m: int| 0 <= m < ps.len() && (#[trigger] ps[m]).key == key;
                        assert(all[m] == ps[m]);
                    } else {
                        assert(all[all.len() - 1] == p);
                    }
                }
            },
            None => {},
        }
    }
}

/// A commit strands nothing in memory. Whatever other processes do while it
/// writes the files, and whichever of the files it manages to write: if before
/// it every key that the disk was owed nothing for was on disk as in memory,
/// that is so afterwards.
pub proof fn law_commit(
    img: Image,
    files: Files,
    stale: Seq<bool>,
    ops: Seq<Op>,
    done: Seq<PendingView>,
)
    requires
        img.sound(),
        settled(img, files),
        all_proper(ops),
        forall|n: int| 0 <= n < ops.len() ==> beside_commit(#[trigger] ops[n]),
        forall|s: int|
            0 <= s < SLOTS ==> #[trigger] img.slots[s] + 3 * ops.len() <= u64::MAX - 4,
        distinct(done),
        forall|m: int|
            0 <= m < done.len() ==> img.pending(stale).contains(#[trigger] done[m]),
    ensures
        img.after_all(ops).retired_upto(done, done.len() as int).sound(),
        settled(
            img.after_all(ops).retired_upto(done, done.len() as int),
            paid_upto(files, done, done.len() as int),
        ),
{
    let mid = img.after_all(ops);
    let n = done.len() as int;
    let now = mid.retired_upto(done, n);
    let written = paid_upto(files, done, n);
    assert forall|m: int| 0 <= m < n implies notes(img, #[trigger] done[m]) by {
        lemma_pending(img, stale, INDEX_SLOTS as int);
        assert(img.pending(stale).contains(done[m]));
        let l = choose|l: int|
            0 <= l < img.pending(stale).len() && img.pending(stale)[l] == done[m];
        assert(notes(img, img.pending_upto(stale, INDEX_SLOTS as int)[l]));
    }
    let any = Seq::<u8>::empty();
    assert(0 <= slot_for(fnv(any)) < SLOTS);
    law_operations(img, ops, any);
    lemma_retired(mid, done, n, any);
    assert forall|key: Seq<u8>| !#[trigger] now.owed(key) implies filed(written, key)
        == now.value(key) by {
        assert(0 <= slot_for(fnv(key)) < SLOTS);
        assert(img.slots[slot_for(fnv(key))] + 3 * ops.len() <= u64::MAX - 4);
        lemma_paid(files, done, n, key);
        lemma_retired(mid, done, n, key);
        law_debts_stay(img, ops, key);
        if mid.owed(key) {
            let m = choose|m: int|
                0 <= m < n && (#[trigger] done[m]).key == key && mid.slots[slot_for(done[m].hash)]
                    == done[m].seen;
            assert(notes(img, done[m]));
            law_counter_tells(img, ops, key);
        } else if exists|m: int| 0 <= m < n && (#[trigger] done[m]).key == key {
            let m = choose|m: int| 0 <= m < n && (#[trigger] done[m]).key == key;
            assert(notes(img, done[m]));
        }
    }
}

/// Cancelling debts that a commit noted changes no value, and makes no key owed.
pub proof fn law_retired(
    img: Image,
    ops: Seq<Op>,
    stale: Seq<bool>,
    done: Seq<PendingView>,
    key: Seq<u8>,
)
    requires
        img.sound(),
        all_proper(ops),
        img.slots[slot_for(fnv(key))] + 3 * ops.len() <= u64::MAX - 4,
        forall|m: int|
            0 <= m < done.len() ==> img.pending(stale).contains(#[trigger] done[m]),
    ensures
        ({
            let mid = img.after_all(ops);
            let now = mid.retired_upto(done, done.len() as int);
            &&& now.value(key) == mid.value(key)
            &&& now.owed(key) ==> mid.owed(key)
        }),
{
    lemma_pending(img, stale, INDEX_SLOTS as int);
    assert forall|m: int| 0 <= m < done.len() implies (#[trigger] done[m]).hash == fnv(
        done[m].key,
    ) by {
        assert(img.pending(stale).contains(done[m]));
        let l = choose|l: int|
            0 <= l < img.pending(stale).len() && img.pending(stale)[l] == done[m];
        assert(notes(img, img.pending_upto(stale, INDEX_SLOTS as int)[l]));
    }
    law_operations(img, ops, key);
    lemma_retired(img.after_all(ops), done, done.len() as int, key);
}

/// A commit that pays every debt, with nobody writing meanwhile, leaves none,
/// so that the files are the contents.
pub proof fn law_commit_pays_all(img: Image, files: Files, stale: Seq<bool>, key: Seq<u8>)
    requires
        img.sound(),
        settled(img, files),
    ensures
        ({
            let ps = img.pending(stale);
            let n = ps.len() as int;
            &&& !img.retired_upto(ps, n).owed(key)
            &&& img.retired_upto(ps, n).value(key) == img.value(key)
            &&& filed(paid_upto(files, ps, n), key) == img.value(key)
        }),
{
    let ps = img.pending(stale);
    let n = ps.len() as int;
    lemma_pending(img, stale, INDEX_SLOTS as int);
    assert forall|m: int| 0 <= m < n implies notes(img, #[trigger] ps[m]) by {
        assert(notes(img, img.pending_upto(stale, INDEX_SLOTS as int)[m]));
    }
    lemma_retired(img, ps, n, key);
    lemma_paid(files, ps, n, key);
    if img.owed(key) {
        lemma_owed_noted(img, stale, key);
        let m = choose|m: int| 0 <= m < n && (#[trigger] ps[m]).key == key;
        assert(notes(img, ps[m]));
    } else if exists|m: int| 0 <= m < n && (#[trigger] ps[m]).key == key {
        let m = choose|m: int| 0 <= m < n && (#[trigger] ps[m]).key == key;
        assert(notes(img, ps[m]));
    }
}

/// The snapshot notes every key that the disk is owed something for.
pub proof fn lemma_owed_noted(img: Image, stale: Seq<bool>, key: Seq<u8>)
    requires
        img.sound(),
        img.owed(key),
    ensures
        exists|m: int|
            0 <= m < img.pending(stale).len() && (#[trigger] img.pending(stale)[m]).key == key,
{
    lemma_pending(img, stale, INDEX_SLOTS as int);
    if exists|i: int| #[trigger] img.holds(i, key) {
        let i = choose|i: int| #[trigger] img.holds(i, key);
        lemma_value_held(img, i, key);
        let m = choose|m: int|
            0 <= m < img.pending_upto(stale, INDEX_SLOTS as int).len() && (
            #[trigger] img.pending_upto(stale, INDEX_SLOTS as int)[m]).key == key;
        assert(img.pending(stale)[m].key == key);
    } else {
        lemma_value_unheld(img, key);
    }
}

/// A commit cut short after any number of its files leaves each file as it was,
/// or as memory had it.
pub proof fn law_commit_cut_short(
    img: Image,
    files: Files,
    stale: Seq<bool>,
    n: int,
    key: Seq<u8>,
)
    requires
        img.sound(),
        0 <= n <= img.pending(stale).len(),
    ensures
        ({
            let now = filed(paid_upto(files, img.pending(stale), n), key);
            now == filed(files, key) || now == img.value(key)
        }),
{
    let ps = img.pending(stale);
    lemma_pending(img, stale, INDEX_SLOTS as int);
    lemma_paid(files, ps, n, key);
    if exists|m: int| 0 <= m < n && (#[trigger] ps[m]).key == key {
        let m = choose|m: int| 0 <= m < n && (#[trigger] ps[m]).key == key;
        assert(notes(img, img.pending_upto(stale, INDEX_SLOTS as int)[m]));
    }
}

/// What a look at a file found is true: the file is there or not, and is a file
/// of that length.
pub open spec fn meta_true(meta: Option<Meta>, file: Option<Seq<u8>>) -> bool {
    match (meta, file) {
        (Some(m), Some(v)) => m.kind == Kind::File && m.len == v.len(),
        (None, None) => true,
        _ => false,
    }
}

/// What a commit found when it looked at the file of `key` is true.
pub open spec fn looked_truly(
    img: Image,
    metas: Seq<Option<Meta>>,
    files: Files,
    key: Seq<u8>,
) -> bool {
    &&& metas.len() == img.queries().len()
    &&& forall|q: int|
        0 <= q < metas.len() && (#[trigger] img.queries()[q]).0 == key ==> meta_true(
            metas[q],
            filed(files, key),
        )
}

pub proof fn lemma_queries_prefix(img: Image, i: int, n: int)
    requires
        0 <= i < n,
        img.query_at(i) is Some,
    ensures
        img.queries_upto(i).len() < img.queries_upto(n).len(),
        img.queries_upto(n)[img.queries_upto(i).len() as int] == img.query_at(i)->0,
    decreases n,
{
    if i < n - 1 {
        lemma_queries_prefix(img, i, n - 1);
    }
}

/// What a commit notes comes from an entry that owes it, or whose file is not
/// what it should be.
pub proof fn lemma_pending_why(img: Image, stale: Seq<bool>, n: int, m: int)
    requires
        0 <= m < img.pending_upto(stale, n).len(),
    ensures
        exists|i: int|
            0 <= i < n && #[trigger] img.pending_at(
                i,
                stale[img.queries_upto(i).len() as int],
            ) == Some(img.pending_upto(stale, n)[m]),
    decreases n,
{
    if n > 0 {
        let before = img.pending_upto(stale, n - 1);
        let all = img.pending_upto(stale, n);
        if m < before.len() {
            lemma_pending_why(img, stale, n - 1, m);
            assert(all[m] == before[m]);
            let i = choose|i: int|
                0 <= i < n - 1 && #[trigger] img.pending_at(
                    i,
                    stale[img.queries_upto(i).len() as int],
                ) == Some(before[m]);
            assert(img.pending_at(i, stale[img.queries_upto(i).len() as int]) == Some(all[m]));
        } else {
            assert(img.pending_at(n - 1, stale[img.queries_upto(n - 1).len() as int]) == Some(
                all[m],
            ));
        }
    }
}

proof fn lemma_stale_noted(img: Image, stale: Seq<bool>, i: int, n: int)
    requires
        img.sound(),
        0 <= i < n <= INDEX_SLOTS,
        img.query_at(i) is Some,
        stale[img.queries_upto(i).len() as int],
    ensures
        exists|m: int|
            0 <= m < img.pending_upto(stale, n).len() && (#[trigger] img.pending_upto(
                stale,
                n,
            )[m]).key == (img.query_at(i)->0).0,
    decreases n,
{
    let key = (img.query_at(i)->0).0;
    let all = img.pending_upto(stale, n);
    if i < n - 1 {
        lemma_stale_noted(img, stale, i, n - 1);
        let ps = img.pending_upto(stale, n - 1);
        let m = choose|m: int| 0 <= m < ps.len() && (#[trigger] ps[m]).key == key;
        assert(all[m] == ps[m]);
    } else {
        assert(img.entry_ok(i));
        assert(all[all.len() - 1].key == key);
    }
}

/// What a commit makes of the file of `key`, whatever else has changed the files:
/// the value if the key has one, and no file if a deletion was owed. The one
/// thing it does not notice is a file of a key that was owed nothing, changed to
/// other bytes of the same length.
pub open spec fn healed(img: Image, files: Files, now: Files, key: Seq<u8>) -> bool {
    match img.value(key) {
        Some(v) => {
            ||| filed(now, key) == Some(v)
            ||| !img.owed(key) && filed(now, key) == filed(files, key) && match filed(files, key) {
                Some(f) => f.len() == v.len(),
                None => false,
            }
        },
        None => img.owed(key) ==> filed(now, key) is None,
    }
}

/// A commit makes the disk match memory, whatever else has changed the files:
/// with every debt paid, each key that has a value has it on disk too, and each
/// deletion that was owed is done.
pub proof fn law_commit_restores(
    img: Image,
    files: Files,
    metas: Seq<Option<Meta>>,
    key: Seq<u8>,
)
    requires
        img.sound(),
        key_ok(key),
        looked_truly(img, metas, files, key),
    ensures
        ({
            let ps = img.pending(staleness(img.queries(), metas));
            healed(img, files, paid_upto(files, ps, ps.len() as int), key)
        }),
{
    let stale = staleness(img.queries(), metas);
    let ps = img.pending(stale);
    let n = ps.len() as int;
    lemma_pending(img, stale, INDEX_SLOTS as int);
    lemma_paid(files, ps, n, key);
    if exists|m: int| 0 <= m < n && (#[trigger] ps[m]).key == key {
        let m = choose|m: int| 0 <= m < n && (#[trigger] ps[m]).key == key;
        assert(notes(img, img.pending_upto(stale, INDEX_SLOTS as int)[m]));
    } else if img.owed(key) {
        lemma_owed_noted(img, stale, key);
    } else if img.value(key) is Some {
        if exists|i: int| #[trigger] img.holds(i, key) {
            let i = choose|i: int| #[trigger] img.holds(i, key);
            lemma_value_held(img, i, key);
            assert(img.entry_ok(i));
            assert(img.query_at(i) == Some((key, img.index[i].val_len)));
            let q = img.queries_upto(i).len() as int;
            lemma_queries_prefix(img, i, INDEX_SLOTS as int);
            if stale[q] {
                lemma_stale_noted(img, stale, i, INDEX_SLOTS as int);
            }
            assert(img.queries()[q].0 == key);
        } else {
            lemma_value_unheld(img, key);
        }
    }
}

/// Once a store was emptied, in memory and on disk, every key is on disk as it
/// is in memory: not there.
pub proof fn law_clear_settles(img: Image)
    requires
        img.sized(),
    ensures
        settled(img.cleared(), Files::empty()),
        img.cleared().sound(),
{
    law_clear(img, Seq::empty());
    assert forall|key: Seq<u8>| !#[trigger] img.cleared().owed(key) implies filed(
        Files::empty(),
        key,
    ) == img.cleared().value(key) by {
        law_clear(img, key);
    }
}

} // verus!
