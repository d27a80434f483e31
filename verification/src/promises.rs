//! What callers are promised of calls taken together.

use vstd::prelude::*;

use crate::cache::{entry_in, terminated, EntryView};
use crate::coherence::{
    coherent, coherent_at, counter, counters_low, law_cache_stays_coherent, law_get_reads_the_value,
    law_get_survives_dead_writer, quiet_run,
};
use crate::commit::CommitStep;
use crate::consts::MAX_SEQ_RETRIES;
use crate::disk::key_ok;
use crate::durability::{law_commit_success, orderly, Progress};
use crate::edit::{edit_start, edited, EditEvent, EditStep, EditView};
use crate::get::{get_start, GetEventView, GetStep, GetView};
use crate::hash::fnv;
use crate::history::{filed, law_operation, settled, Files, Op};
use crate::image::{slot_for, Image};
use crate::init::{init_start, preloaded, InitEventView, InitStep, InitView};
use crate::laws::{law_put, law_remove};
use crate::preload::{law_preload, listed, listed_once};
use crate::shm::zeroed_image;
use crate::store::StoreView;

verus! {

/// The operation that a change of one variable makes on the segment.
pub open spec fn change_of(key: Seq<u8>, val: Option<Seq<u8>>) -> Op {
    match val {
        Some(v) => Op::Put { key, val: v, dirty: true },
        None => Op::Remove { key, dirty: true },
    }
}

/// A read is over, and what it hands out of `key` is `val`.
pub open spec fn hands_out(
    r: (GetView, StoreView, Image),
    key: Seq<u8>,
    val: Option<Seq<u8>>,
) -> bool {
    r.0.at == GetStep::Finish && entry_in(r.1.cache, key).value == terminated(val)
}

/// A change that the segment takes is seen by every process at once: the next
/// read of any of them, whatever it has cached, gives the new value, or says
/// that the variable is gone. That holds also where a writer died before and
/// left a counter odd.
pub proof fn law_change_is_seen_by_all(
    reader: StoreView,
    img: Image,
    key: Seq<u8>,
    val: Option<Seq<u8>>,
)
    requires
        img.sound(),
        counters_low(img, 3),
        reader.attached,
        coherent(reader, img),
        edited(img, key, val).1,
    ensures
        exists|n: nat|
            n <= MAX_SEQ_RETRIES + 3 && #[trigger] hands_out(
                quiet_run(get_start(reader, key), reader, edited(img, key, val).0, n),
                key,
                val,
            ),
{
    let o = change_of(key, val);
    let now = edited(img, key, val).0;
    assert(now == img.after(o));
    let ops = seq![o];
    assert(ops.drop_last() =~= Seq::<Op>::empty());
    reveal_with_fuel(Image::after_all, 2);
    assert(img.after_all(ops) == now);
    law_cache_stays_coherent(reader, img, ops);
    assert(0 <= slot_for(fnv(key)) < crate::consts::SLOTS);
    assert(img.slots[slot_for(fnv(key))] + 3 <= u64::MAX - 4);
    law_operation(img, o, key);
    match val {
        Some(v) => {
            law_put(img, key, v, true, key);
        },
        None => {
            law_remove(img, key, true, key);
        },
    }
    assert(counters_low(now, 0)) by {
        assert forall|s: int| 0 <= s < crate::consts::SLOTS implies #[trigger] now.slots[s] + 0
            <= u64::MAX - 4 by {
            assert(img.slots[s] + 3 <= u64::MAX - 4);
        }
    }
    let op = get_start(reader, key);
    reveal_with_fuel(quiet_run, 3);
    let c = counter(now, key);
    if c % 2 == 0 && now.arena_seq % 2 == 0 {
        law_get_reads_the_value(reader, now, key);
        assert(hands_out(quiet_run(op, reader, now, 1), key, val) || hands_out(
            quiet_run(op, reader, now, 2),
            key,
            val,
        ));
    } else if entry_in(reader.cache, key).current(c) {
        assert(coherent_at(reader, now, key));
        assert(hands_out(quiet_run(op, reader, now, 1), key, val));
    } else {
        law_get_survives_dead_writer(reader, now, key);
        assert(hands_out(quiet_run(op, reader, now, (MAX_SEQ_RETRIES + 3) as nat), key, val));
    }
}

/// A change by a process that has a segment writes no file: what is never
/// committed never reaches the disk.
pub proof fn law_attached_change_writes_no_file(
    op: EditView,
    st: StoreView,
    img: Image,
    ev: EditEvent,
)
    requires
        op.expects(ev),
        st.attached,
        op.at != EditStep::Attach,
        op.at != EditStep::WriteFile && op.at != EditStep::RemoveFile,
    ensures
        ({
            let (op2, st2, _) = op.next(st, img, ev);
            &&& st2.attached
            &&& op2.at != EditStep::Attach
            &&& op2.at != EditStep::WriteFile && op2.at != EditStep::RemoveFile
        }),
        forall|key: Seq<u8>, val: Option<Seq<u8>>|
            #![trigger edit_start(st, key, val)]
            edit_start(st, key, val).at != EditStep::Attach && edit_start(st, key, val).at
                != EditStep::WriteFile && edit_start(st, key, val).at != EditStep::RemoveFile,
{
}

/// A change by a process without a segment goes to the file, and succeeds
/// exactly when that does.
pub proof fn law_detached_change_goes_to_the_file(
    st: StoreView,
    img: Image,
    key: Seq<u8>,
    val: Option<Seq<u8>>,
    ok: bool,
)
    requires
        key_ok(key),
        !st.attached,
        !st.wants_attach(),
    ensures
        ({
            let op = edit_start(st, key, val);
            &&& op.at == if val is Some {
                EditStep::WriteFile
            } else {
                EditStep::RemoveFile
            }
            &&& op.next(st.counted(), img, EditEvent::Filed(ok)).0.at == EditStep::Finish(ok)
            &&& op.next(st.counted(), img, EditEvent::Filed(ok)).2 == img
        }),
{
}

/// A read by a process without a segment gives what is in the file now: what
/// it cached before never counts.
pub proof fn law_detached_read_is_fresh(
    st: StoreView,
    img: Image,
    key: Seq<u8>,
    contents: Option<Seq<u8>>,
)
    requires
        !st.attached,
        !st.wants_attach(),
    ensures
        ({
            let op = get_start(st, key);
            let (op2, st2, img2) = op.next(st.counted(), img, GetEventView::File(contents));
            &&& op.at == GetStep::ReadFile
            &&& op2.at == GetStep::Finish
            &&& entry_in(st2.cache, key).value == terminated(contents)
            &&& !entry_in(st2.cache, key).valid
            &&& img2 == img
        }),
{
}

/// Deleting a variable succeeds once the writer lock is held, whether there is
/// such a variable or not.
pub proof fn law_unset_succeeds(op: EditView, st: StoreView, img: Image)
    requires
        op.at == EditStep::LockWriter,
        op.val is None,
    ensures
        ({
            let (op2, st2, img2) = op.next(st, img, EditEvent::Locked(true));
            let (op3, _, _) = op2.next(st2, img2, EditEvent::Unlocked);
            op3.at == EditStep::Finish(true)
        }),
{
}

/// A variable that does not exist and one that is empty read differently.
pub proof fn law_empty_is_not_absent(v: Option<Seq<u8>>)
    ensures
        terminated(v) is None <==> v is None,
        terminated(Some(Seq::<u8>::empty())) == Some(seq![0u8]),
{
    assert(Seq::<u8>::empty().push(0) =~= seq![0u8]);
}

/// Reads do not accumulate: a step of a read adds an entry to the cache for
/// its own key only, and a value that is unchanged stays where it is.
pub proof fn law_reads_do_not_accumulate(
    op: GetView,
    st: StoreView,
    img: Image,
    ev: GetEventView,
    key: Seq<u8>,
)
    requires
        op.expects(ev),
    ensures
        ({
            let (_, st2, _) = op.next(st, img, ev);
            &&& st2.cache.contains_key(key) ==> st.cache.contains_key(key) || key == op.key
            &&& key != op.key && op.at != GetStep::Attach ==> entry_in(st2.cache, key) == entry_in(
                st.cache,
                key,
            )
        }),
        forall|e: EntryView, v: Option<Seq<u8>>, seen: u64|
            e.value == terminated(v) ==> (#[trigger] e.installed(v, seen)).value == e.value && (
            e.installed(v, seen)).retired == e.retired,
{
}

/// Bringing the store up again, in a process that has it, does nothing.
pub proof fn law_init_is_idempotent(st: StoreView)
    requires
        st.attached,
    ensures
        init_start(st).at == InitStep::Finish(true),
{
}

/// The store of a detached process after `n` more operations that found no
/// segment.
pub open spec fn counted_times(st: StoreView, n: nat) -> StoreView
    decreases n,
{
    if n == 0 {
        st
    } else {
        counted_times(st, (n - 1) as nat).counted()
    }
}

/// A process without a segment tries to attach on its first operation, and
/// then on every sixteenth.
pub proof fn law_attaching_is_throttled(n: nat)
    ensures
        counted_times(StoreView::fresh(false), n).wants_attach() <==> n % 16 == 0,
        counted_times(StoreView::fresh(false), n).detached_ops == n % 0x1_0000_0000,
        !counted_times(StoreView::fresh(false), n).attached,
    decreases n,
{
    if n > 0 {
        law_attaching_is_throttled((n - 1) as nat);
    }
}

/// What was committed survives a reboot: a segment that is populated from the
/// files of a commit that succeeded gives every variable the value that it had
/// when the commit noted what the disk owed.
pub proof fn law_committed_survives_reboot(
    img: Image,
    files: Files,
    stale: Seq<bool>,
    p: Progress,
    dev: u64,
    kvs: Seq<(Seq<u8>, Seq<u8>)>,
    key: Seq<u8>,
)
    requires
        img.sound(),
        settled(img, files),
        orderly(p, files),
        p.op.at == CommitStep::Finish(true),
        p.op.pending == img.pending(stale),
        listed_once(kvs),
        listed(kvs, kvs.len() as int, key) == filed(p.files, key),
        preloaded(zeroed_image().with_header(dev), kvs, kvs.len() as int).1,
    ensures
        preloaded(zeroed_image().with_header(dev), kvs, kvs.len() as int).0.value(key)
            == img.value(key),
        !preloaded(zeroed_image().with_header(dev), kvs, kvs.len() as int).0.owed(key),
{
    law_commit_success(p, img, files, stale, key);
    law_preload(dev, kvs, kvs.len() as int, key);
}

/// Where a process that lost the race to create the segment can get to: it
/// attaches to the segment of the one that won, or gives up. It neither
/// populates nor removes anything.
pub open spec fn after_losing(at: InitStep) -> bool {
    ||| at == InitStep::AttachTheirs
    ||| at == InitStep::Wait
    ||| at == InitStep::AttachLast
    ||| at is Finish
}

/// A process that lost the race to create the segment uses the one that is
/// there, and leaves it alone.
pub proof fn law_loser_attaches(op: InitView, st: StoreView, img: Image, ev: InitEventView)
    requires
        op.expects(ev),
        after_losing(op.at) || op.at == InitStep::Create && ev == InitEventView::Did(false),
    ensures
        after_losing(op.next(st, img, ev).0.at),
        op.next(st, img, ev).2 == img,
        op.next(st, img, ev).0.at == InitStep::Finish(true) ==> op.next(st, img, ev).1.attached,
{
}

} // verus!
