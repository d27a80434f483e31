//! That what processes read is what the segment holds.

use vstd::prelude::*;

use crate::cache::{entry_in, terminated};
use crate::consts::{MAX_SEQ_RETRIES, SLOTS};
use crate::disk::key_ok;
use crate::edit::{edit_start, EditEvent, EditStep, EditView};
use crate::get::{get_start, settled_read, GetEventView, GetStep, GetView};
use crate::hash::fnv;
use crate::history::{all_proper, law_counter_tells, law_operation, law_operations, Op};
use crate::image::{slot_for, Image, ReadView};
use crate::laws::{law_put, law_read, law_read_after_repair, law_read_torn, law_remove, law_repair};
use crate::store::StoreView;

verus! {

/// The counter of a key.
pub open spec fn counter(img: Image, key: Seq<u8>) -> u64 {
    img.slots[slot_for(fnv(key))]
}

/// A value read of `key` when its counter was `seen`: the counter has not gone
/// back since, and if it is what it was, so is the value.
pub open spec fn tagged(img: Image, key: Seq<u8>, seen: u64, value: Option<Seq<u8>>) -> bool {
    &&& seen <= counter(img, key)
    &&& seen == counter(img, key) ==> value == img.value(key)
}

/// What is cached of `key` is right whenever it counts as current.
pub open spec fn coherent_at(st: StoreView, img: Image, key: Seq<u8>) -> bool {
    let e = entry_in(st.cache, key);
    st.attached && e.valid ==> {
        &&& e.slot_seen <= counter(img, key)
        &&& e.slot_seen == counter(img, key) ==> e.value == terminated(img.value(key))
    }
}

/// Whatever is cached is right whenever it counts as current.
pub open spec fn coherent(st: StoreView, img: Image) -> bool {
    forall|key: Seq<u8>| #[trigger] coherent_at(st, img, key)
}

/// Counters are far from the end of their range.
pub open spec fn counters_low(img: Image, room: int) -> bool {
    forall|s: int| 0 <= s < SLOTS ==> #[trigger] img.slots[s] + room <= u64::MAX - 4
}

// ------------------------------------------------- what others do meanwhile --

/// What was read of a key stays right whenever its counter says so, whatever
/// is done to the segment.
pub proof fn law_tag_stays(
    img: Image,
    ops: Seq<Op>,
    key: Seq<u8>,
    seen: u64,
    value: Option<Seq<u8>>,
)
    requires
        img.sound(),
        all_proper(ops),
        counters_low(img, 3 * ops.len() as int),
        tagged(img, key, seen, value),
    ensures
        tagged(img.after_all(ops), key, seen, value),
{
    assert(0 <= slot_for(fnv(key)) < SLOTS);
    assert(counter(img, key) + 3 * ops.len() <= u64::MAX - 4);
    law_operations(img, ops, key);
    if img.after_all(ops).slots[slot_for(fnv(key))] == img.slots[slot_for(fnv(key))] {
        law_counter_tells(img, ops, key);
    }
}

/// A cache that is right stays right, whatever other processes do to the
/// segment.
pub proof fn law_cache_stays_coherent(st: StoreView, img: Image, ops: Seq<Op>)
    requires
        img.sound(),
        all_proper(ops),
        counters_low(img, 3 * ops.len() as int),
        coherent(st, img),
    ensures
        coherent(st, img.after_all(ops)),
{
    assert forall|key: Seq<u8>| #[trigger] coherent_at(st, img.after_all(ops), key) by {
        assert(coherent_at(st, img, key));
        let e = entry_in(st.cache, key);
        if st.attached && e.valid {
            assert(0 <= slot_for(fnv(key)) < SLOTS);
            assert(counter(img, key) + 3 * ops.len() <= u64::MAX - 4);
            law_operations(img, ops, key);
            if counter(img.after_all(ops), key) == counter(img, key) {
                law_counter_tells(img, ops, key);
            }
        }
    }
}

/// A process that attaches starts out right: nothing that it cached before
/// counts.
pub proof fn law_adopted_is_coherent(st: StoreView, img: Image)
    ensures
        coherent(st.adopted(), img),
        coherent(StoreView::fresh(true), img),
{
    assert forall|key: Seq<u8>| #[trigger] coherent_at(st.adopted(), img, key) by {}
    assert forall|key: Seq<u8>| #[trigger] coherent_at(StoreView::fresh(true), img, key) by {}
}

/// A value with its tag, installed, keeps a cache right.
pub proof fn law_install_coherent(
    st: StoreView,
    img: Image,
    key: Seq<u8>,
    value: Option<Seq<u8>>,
    seen: u64,
)
    requires
        coherent(st, img),
        tagged(img, key, seen, value),
    ensures
        coherent(st.installed(key, value, seen), img),
        entry_in(st.installed(key, value, seen).cache, key).value == terminated(value),
{
    let now = st.installed(key, value, seen);
    assert forall|k: Seq<u8>| #[trigger] coherent_at(now, img, k) by {
        assert(coherent_at(st, img, k));
    }
}

// ---------------------------------------------------------------- reading --

/// What a look at `key` concluded is what `img` gives, whatever the counters were
/// when they were loaded again.
pub open spec fn looked_at(img: Image, key: Seq<u8>, read: ReadView) -> bool {
    exists|slot_after: u64, arena_after: u64|
        read == #[trigger] img.read(key, fnv(key), slot_after, arena_after)
}

/// The answer is true of the segment: the counter is the one that it has, or
/// one that it had before the look, and the look was at the segment as it is.
pub open spec fn get_truthful(op: GetView, img: Image, ev: GetEventView) -> bool {
    match ev {
        GetEventView::Slot(v) => v == counter(img, op.key),
        GetEventView::Sampled { before, read } => {
            &&& before <= counter(img, op.key)
            &&& looked_at(img, op.key, read)
        },
        _ => true,
    }
}

/// If a look at a key concluded anything, it is the key's value.
pub proof fn law_look_tells_the_value(img: Image, key: Seq<u8>, read: ReadView)
    requires
        img.sound(),
        looked_at(img, key, read),
    ensures
        match settled_read(read) {
            Some(v) => v == img.value(key),
            None => true,
        },
{
    let slot = slot_for(fnv(key));
    let (slot_after, arena_after) = choose|slot_after: u64, arena_after: u64|
        read == #[trigger] img.read(key, fnv(key), slot_after, arena_after);
    if img.slots[slot] % 2 == 1 || img.arena_seq % 2 == 1 || img.slots[slot] != slot_after
        || img.arena_seq != arena_after {
        law_read_torn(img, key, slot_after, arena_after);
    } else {
        law_read(img, key);
    }
}

/// What a read noted under the lock is right.
pub open spec fn get_noted(op: GetView, img: Image) -> bool {
    match op.fresh {
        Some(v) => tagged(img, op.key, op.seen, v),
        None => true,
    }
}

/// Every step of a read keeps the cache right, and changes nothing in the
/// segment but the parity of counters that a dead writer left odd. If the read
/// ends with a hit, with a settled sample, or by what it noted under the lock,
/// what it hands out is the key's value.
pub proof fn law_get_step(op: GetView, st: StoreView, img: Image, ev: GetEventView)
    requires
        img.sound(),
        counters_low(img, 0),
        op.expects(ev),
        op.at != GetStep::Attach && op.at != GetStep::ReadFile ==> st.attached,
        coherent(st, img),
        get_truthful(op, img, ev),
        get_noted(op, img),
    ensures
        ({
            let (op2, st2, img2) = op.next(st, img, ev);
            &&& img2.sound()
            &&& forall|k: Seq<u8>| #[trigger] img2.value(k) == img.value(k)
            &&& coherent(st2, img2)
            &&& get_noted(op2, img2)
            &&& op2.at == GetStep::Finish && (op.at == GetStep::LoadSlot || op.at
                == GetStep::Sample) ==> entry_in(st2.cache, op.key).value == terminated(
                img.value(op.key),
            )
            &&& op2.at == GetStep::Finish && op.at == GetStep::UnlockWriter && op.seen == counter(
                img,
                op.key,
            ) ==> entry_in(st2.cache, op.key).value == terminated(img.value(op.key))
        }),
{
    let key = op.key;
    let slot = slot_for(fnv(key));
    let (op2, st2, img2) = op.next(st, img, ev);
    assert(0 <= slot < SLOTS);
    match ev {
        GetEventView::Attached(ok) => {
            law_adopted_is_coherent(st, img);
        },
        GetEventView::Slot(v) => {
            assert(coherent_at(st, img, key));
            assert forall|k: Seq<u8>| #[trigger] coherent_at(st2, img, k) by {
                assert(coherent_at(st, img, k));
            }
        },
        GetEventView::Sampled { before, read } => {
            match settled_read(read) {
                Some(v) => {
                    law_look_tells_the_value(img, key, read);
                    law_install_coherent(st, img, key, v, before);
                },
                None => {},
            }
        },
        GetEventView::Locked(ok) => {
            if ok {
                law_read_after_repair(img, key);
                assert forall|k: Seq<u8>| #[trigger] img2.value(k) == img.value(k) by {
                    law_repair(img, slot, k);
                }
                law_repair(img, slot, key);
                assert forall|k: Seq<u8>| #[trigger] coherent_at(st2, img2, k) by {
                    assert(coherent_at(st, img, k));
                    assert(img2.value(k) == img.value(k));
                    assert(0 <= slot_for(fnv(k)) < SLOTS);
                }
            }
        },
        GetEventView::Unlocked => {
            match op.fresh {
                Some(v) => {
                    law_install_coherent(st, img, key, v, op.seen);
                },
                None => {},
            }
        },
        GetEventView::File(contents) => {
            assert forall|k: Seq<u8>| #[trigger] coherent_at(st2, img2, k) by {
                assert(coherent_at(st, img, k));
            }
        },
    }
}

/// The answers of a segment that nobody is writing to.
pub open spec fn quiet_answer(op: GetView, img: Image) -> GetEventView {
    match op.at {
        GetStep::LoadSlot => GetEventView::Slot(counter(img, op.key)),
        GetStep::Sample => GetEventView::Sampled {
            before: counter(img, op.key),
            read: img.read(op.key, fnv(op.key), counter(img, op.key), img.arena_seq),
        },
        GetStep::LockWriter => GetEventView::Locked(true),
        _ => GetEventView::Unlocked,
    }
}

/// A read after `n` answers of a segment that nobody else is writing to.
pub open spec fn quiet_run(op: GetView, st: StoreView, img: Image, n: nat) -> (
    GetView,
    StoreView,
    Image,
)
    decreases n,
{
    if n == 0 {
        (op, st, img)
    } else {
        let (op1, st1, img1) = quiet_run(op, st, img, (n - 1) as nat);
        op1.next(st1, img1, quiet_answer(op1, img1))
    }
}

/// An attached process that reads a key while nobody is writing gets its value,
/// by two answers at most, and changes nothing in the segment.
pub proof fn law_get_reads_the_value(st: StoreView, img: Image, key: Seq<u8>)
    requires
        img.sound(),
        counters_low(img, 0),
        counter(img, key) % 2 == 0,
        img.arena_seq % 2 == 0,
        st.attached,
        coherent(st, img),
    ensures
        ({
            let op = get_start(st, key);
            let (op1, st1, img1) = quiet_run(op, st, img, 1);
            let (op2, st2, img2) = quiet_run(op, st, img, 2);
            let value = terminated(img.value(key));
            &&& img1 == img
            &&& op1.at == GetStep::Finish ==> entry_in(st1.cache, key).value == value && coherent(
                st1,
                img,
            )
            &&& op1.at != GetStep::Finish ==> op2.at == GetStep::Finish && entry_in(
                st2.cache,
                key,
            ).value == value && coherent(st2, img) && img2 == img
        }),
{
    let op = get_start(st, key);
    reveal_with_fuel(quiet_run, 3);
    let (op1, st1, img1) = quiet_run(op, st, img, 1);
    law_get_step(op, st, img, quiet_answer(op, img));
    if op1.at != GetStep::Finish {
        law_read(img, key);
        law_get_step(op1, st1, img1, quiet_answer(op1, img1));
    }
}

/// A read of a key whose counter a dead writer left odd is torn every time,
/// and ends up asking for the writer lock.
proof fn lemma_torn_run(op: GetView, st: StoreView, img: Image, n: nat)
    requires
        counter(img, op.key) % 2 == 1 || img.arena_seq % 2 == 1,
        op.at == GetStep::Sample,
        op.tries == 0,
        0 < n <= MAX_SEQ_RETRIES,
    ensures
        quiet_run(op, st, img, n) == (
            (GetView {
                tries: n as u32,
                at: if n < MAX_SEQ_RETRIES {
                    GetStep::Sample
                } else {
                    GetStep::LockWriter
                },
                ..op
            }),
            st,
            img,
        ),
    decreases n,
{
    reveal_with_fuel(quiet_run, 2);
    law_read_torn(img, op.key, counter(img, op.key), img.arena_seq);
    if n > 1 {
        lemma_torn_run(op, st, img, (n - 1) as nat);
    }
}

proof fn lemma_quiet_run_add(op: GetView, st: StoreView, img: Image, n: nat, m: nat)
    ensures
        quiet_run(op, st, img, n + m) == ({
            let (op1, st1, img1) = quiet_run(op, st, img, n);
            quiet_run(op1, st1, img1, m)
        }),
    decreases m,
{
    if m > 0 {
        lemma_quiet_run_add(op, st, img, n, (m - 1) as nat);
    }
}

/// A writer that died in mid-update costs no reader a value: a read of a key
/// whose counter it left odd takes the writer lock in the end, gets the key's
/// value, and leaves the counters even, so that the next read is an ordinary
/// one.
pub proof fn law_get_survives_dead_writer(st: StoreView, img: Image, key: Seq<u8>)
    requires
        img.sound(),
        counters_low(img, 0),
        counter(img, key) % 2 == 1 || img.arena_seq % 2 == 1,
        st.attached,
        coherent(st, img),
        !entry_in(st.cache, key).current(counter(img, key)),
    ensures
        ({
            let op = get_start(st, key);
            let (op2, st2, img2) = quiet_run(op, st, img, (MAX_SEQ_RETRIES + 3) as nat);
            &&& op2.at == GetStep::Finish
            &&& entry_in(st2.cache, key).value == terminated(img.value(key))
            &&& coherent(st2, img2)
            &&& img2 == img.repaired(slot_for(fnv(key)))
            &&& counter(img2, key) % 2 == 0
            &&& img2.arena_seq % 2 == 0
            &&& forall|k: Seq<u8>| #[trigger] img2.value(k) == img.value(k)
        }),
{
    let op = get_start(st, key);
    let n = MAX_SEQ_RETRIES as nat;
    let op1 = op.to(GetStep::Sample);
    let st1 = st.with_entry(key, entry_in(st.cache, key));
    assert(quiet_run(op, st, img, 1) == (op1, st1, img)) by {
        reveal_with_fuel(quiet_run, 2);
    }
    assert(coherent(st1, img)) by {
        law_get_step(op, st, img, quiet_answer(op, img));
    }
    lemma_torn_run(op1, st1, img, n);
    let op2 = GetView { tries: n as u32, at: GetStep::LockWriter, ..op1 };
    lemma_locked_run(op2, st1, img);
    lemma_quiet_run_add(op, st, img, 1, n);
    lemma_quiet_run_add(op, st, img, 1 + n, 2);
}

/// The end of a read that takes the writer lock.
proof fn lemma_locked_run(op: GetView, st: StoreView, img: Image)
    requires
        img.sound(),
        counters_low(img, 0),
        st.attached,
        coherent(st, img),
        op.at == GetStep::LockWriter,
        op.fresh is None,
    ensures
        ({
            let (op2, st2, img2) = quiet_run(op, st, img, 2);
            &&& op2.at == GetStep::Finish
            &&& entry_in(st2.cache, op.key).value == terminated(img.value(op.key))
            &&& coherent(st2, img2)
            &&& img2 == img.repaired(slot_for(fnv(op.key)))
            &&& counter(img2, op.key) % 2 == 0
            &&& img2.arena_seq % 2 == 0
            &&& forall|k: Seq<u8>| #[trigger] img2.value(k) == img.value(k)
        }),
{
    let key = op.key;
    let slot = slot_for(fnv(key));
    reveal_with_fuel(quiet_run, 3);
    law_read_after_repair(img, key);
    law_repair(img, slot, key);
    law_get_step(op, st, img, GetEventView::Locked(true));
    let (op1, st1, img1) = op.next(st, img, GetEventView::Locked(true));
    assert(op1.fresh == Some(img.value(key)));
    assert(img1 == img.repaired(slot));
    law_install_coherent(st1, img1, key, img.value(key), op1.seen);
}

// --------------------------------------------------------------- changing --

/// What a change noted under the lock is right.
pub open spec fn edit_noted(op: EditView, img: Image) -> bool {
    op.at == EditStep::UnlockWriter && op.stored ==> tagged(img, op.key, op.seen, op.val)
}

/// The answer is true of the segment.
pub open spec fn edit_truthful(op: EditView, img: Image, ev: EditEvent) -> bool {
    match ev {
        EditEvent::Slot(v) => v == counter(img, op.key),
        _ => true,
    }
}

/// Every step of a change keeps the cache right. The segment changes under the
/// writer lock only: there the key gets its value, or loses it, is owed to the
/// disk if that changed anything, and other keys keep what they have. A change
/// that ends well without the lock found the value there already.
pub proof fn law_edit_step(op: EditView, st: StoreView, img: Image, ev: EditEvent)
    requires
        img.sound(),
        counters_low(img, 0),
        op.expects(ev),
        op.at == EditStep::LoadSlot || op.at == EditStep::LockWriter || op.at
            == EditStep::UnlockWriter ==> st.attached,
        op.at == EditStep::WriteFile || op.at == EditStep::RemoveFile ==> !st.attached,
        coherent(st, img),
        edit_truthful(op, img, ev),
        edit_noted(op, img),
    ensures
        ({
            let (op2, st2, img2) = op.next(st, img, ev);
            &&& img2.sound()
            &&& coherent(st2, img2)
            &&& edit_noted(op2, img2)
            &&& op.at != EditStep::LockWriter ==> img2 == img
            &&& op.at == EditStep::LoadSlot && op2.at is Finish ==> img.value(op.key) == op.val
            &&& op.at == EditStep::LockWriter ==> {
                &&& op2.at == EditStep::UnlockWriter && op2.stored ==> img2.value(op.key) == op.val
                &&& forall|k: Seq<u8>|
                    k != op.key || !op2.stored || op2.at != EditStep::UnlockWriter
                        ==> #[trigger] img2.value(k) == img.value(k)
                &&& img2.value(op.key) != img.value(op.key) ==> img2.owed(op.key)
            }
        }),
{
    let key = op.key;
    let (op2, st2, img2) = op.next(st, img, ev);
    assert(0 <= slot_for(fnv(key)) < SLOTS);
    match ev {
        EditEvent::Attached(ok) => {
            law_adopted_is_coherent(st, img);
        },
        EditEvent::Slot(v) => {
            assert(coherent_at(st, img, key));
            assert forall|k: Seq<u8>| #[trigger] coherent_at(st2, img, k) by {
                assert(coherent_at(st, img, k));
            }
            let e = entry_in(st.cache, key);
            if e.current(v) && e.value == Some((op.val->0).push(0)) {
                match img.value(key) {
                    Some(x) => {
                        assert(x.push(0).drop_last() =~= x);
                        assert((op.val->0).push(0).drop_last() =~= op.val->0);
                    },
                    None => {},
                }
            }
        },
        EditEvent::Locked(ok) => {
            if ok {
                lemma_edit_locked(op, st, img, img2);
            }
        },
        EditEvent::Unlocked => {
            if op.stored {
                law_install_coherent(st, img, key, op.val, op.seen);
            }
        },
        EditEvent::Filed(ok) => {
            assert forall|k: Seq<u8>| #[trigger] coherent_at(st2, img2, k) by {}
        },
    }
}

proof fn lemma_edit_locked(op: EditView, st: StoreView, img: Image, now: Image)
    requires
        img.sound(),
        counters_low(img, 0),
        coherent(st, img),
        now == crate::edit::edited(img, op.key, op.val).0,
    ensures
        ({
            let stored = crate::edit::edited(img, op.key, op.val).1;
            &&& now.sound()
            &&& coherent(st, now)
            &&& stored ==> now.value(op.key) == op.val
            &&& forall|k: Seq<u8>|
                k != op.key || !stored ==> #[trigger] now.value(k) == img.value(k)
            &&& now.value(op.key) != img.value(op.key) ==> now.owed(op.key)
        }),
{
    let key = op.key;
    let stored = crate::edit::edited(img, key, op.val).1;
    let o = match op.val {
        Some(v) => Op::Put { key, val: v, dirty: true },
        None => Op::Remove { key, dirty: true },
    };
    assert(now == img.after(o));
    assert forall|k: Seq<u8>| k != key || !stored implies #[trigger] now.value(k) == img.value(
        k,
    ) by {
        match op.val {
            Some(v) => {
                law_put(img, key, v, true, k);
            },
            None => {
                law_remove(img, key, true, k);
            },
        }
    }
    match op.val {
        Some(v) => {
            law_put(img, key, v, true, key);
        },
        None => {
            law_remove(img, key, true, key);
        },
    }
    assert forall|k: Seq<u8>| #[trigger] coherent_at(st, now, k) by {
        assert(coherent_at(st, img, k));
        assert(0 <= slot_for(fnv(k)) < SLOTS);
        assert(img.slots[slot_for(fnv(k))] <= u64::MAX - 4);
        law_operation(img, o, k);
    }
}

/// A change of a key that cannot be stored is refused, and touches nothing.
pub proof fn law_bad_key_is_refused(st: StoreView, key: Seq<u8>, val: Option<Seq<u8>>)
    requires
        !key_ok(key),
    ensures
        edit_start(st, key, val).at == EditStep::Finish(false),
{
}

} // verus!
