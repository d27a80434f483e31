//! What setting, deleting, reading and clearing come to, and what bringing the
//! store up and attaching to it do, from the start to the end.

use vstd::prelude::*;

use crate::cache::{entry_in, terminated};
use crate::clear::{clear_start, ClearEventView, ClearStep, ClearView};
use crate::coherence::{coherent, counter, counters_low, law_edit_step};
use crate::compaction::lemma_same_contents;
use crate::consts::INDEX_SLOTS;
use crate::disk::{
    all_read, gives, given, is_key_file, key_ok, law_loaded, law_names, loaded_upto, Found, Kind,
    Meta, Removal,
};
use crate::edit::{edit_start, EditEvent, EditStep, EditView};
use crate::get::{get_start, GetEventView, GetStep, GetView};
use crate::hash::fnv;
use crate::image::{Image, ST_EMPTY, ST_LIVE};
use crate::init::{
    attach_next, init_start, preloaded, AttachEvent, AttachStep, InitEventView, InitStep, InitView,
};
use crate::laws::{law_clear, law_ensured, law_put, law_put_fails_only_when_full, law_remove};
use crate::model::KeptView;
use crate::preload::{law_preload, lemma_preloaded_kept, listed, listed_once};
use crate::shm::zeroed_image;
use crate::store::StoreView;
use crate::update::{lemma_probed, lemma_removed, lemma_updated, Update};

verus! {

// ---------------------------------------------------- setting and deleting --

/// Which names can be set or deleted: text of one to 239 bytes that does not
/// start with a dot and has no slash in it. A change of any other is refused at
/// once, and none of these is.
pub proof fn law_which_names_can_be_set(st: StoreView, name: Seq<u8>, val: Option<Seq<u8>>)
    ensures
        edit_start(st, name, val).at is Finish <==> !({
            &&& vstd::utf8::valid_utf8(name)
            &&& 1 <= name.len() <= 239
            &&& name[0] != 46
            &&& forall|i: int| 0 <= i < name.len() ==> #[trigger] name[i] != 47
        }),
        edit_start(st, name, val).at is Finish ==> edit_start(st, name, val).at == EditStep::Finish(
            false,
        ),
        edit_start(st, name, val).key == name,
        edit_start(st, name, val).val == val,
{
    law_names(name);
}

/// The answers of a segment that nobody else is writing to.
pub open spec fn edit_answer(op: EditView, img: Image) -> EditEvent {
    match op.at {
        EditStep::LoadSlot => EditEvent::Slot(counter(img, op.key)),
        EditStep::LockWriter => EditEvent::Locked(true),
        _ => EditEvent::Unlocked,
    }
}

/// A change after `n` such answers.
pub open spec fn edit_run(op: EditView, st: StoreView, img: Image, n: nat) -> (
    EditView,
    StoreView,
    Image,
)
    decreases n,
{
    if n == 0 {
        (op, st, img)
    } else {
        let (op1, st1, img1) = edit_run(op, st, img, (n - 1) as nat);
        op1.next(st1, img1, edit_answer(op1, img1))
    }
}

/// A change by a process that has a segment is over after three answers at most.
/// If it succeeded, the variable has exactly that value, or none, for everybody,
/// and this process hands out that value; if it failed, nothing changed. No
/// other variable changes either way. A deletion succeeds; a set does as long as
/// there is room for it (see `law_put_fails_only_when_full`).
pub proof fn law_attached_change(
    st: StoreView,
    img: Image,
    key: Seq<u8>,
    val: Option<Seq<u8>>,
    other: Seq<u8>,
)
    requires
        st.attached,
        key_ok(key),
        img.sound(),
        counters_low(img, 0),
        coherent(st, img),
    ensures
        ({
            let (op3, st3, img3) = edit_run(edit_start(st, key, val), st, img, 3);
            let ok = op3.at == EditStep::Finish(true);
            &&& op3.at is Finish
            &&& img3.sound()
            &&& ok ==> img3.value(key) == val
            &&& ok ==> entry_in(st3.cache, key).value == terminated(val)
            &&& !ok ==> img3.value(key) == img.value(key)
            &&& other != key ==> img3.value(other) == img.value(other)
            &&& val is None ==> ok
            &&& img.value(key) == val ==> ok
            &&& st3.attached
            &&& val is Some && !ok ==> ({
                let fits = img.weight_upto(INDEX_SLOTS as int) + key.len() + (val->0).len()
                    <= 1048576;
                fits ==> img.value(key) is None && forall|d: int|
                    0 <= d < 64 ==> img3.index[#[trigger] ((fnv(key) as int % 8192 + d)
                        % 8192)].state != ST_EMPTY
            })
        }),
{
    reveal_with_fuel(edit_run, 4);
    let op = edit_start(st, key, val);
    law_edit_step(op, st, img, edit_answer(op, img));
    match val {
        Some(v) => {
            law_put(img, key, v, true, other);
            law_put(img, key, v, true, key);
            law_put_fails_only_when_full(img, key, v, true);
        },
        None => {
            law_remove(img, key, true, other);
            law_remove(img, key, true, key);
        },
    }
    let (op1, st1, img1) = edit_run(op, st, img, 1);
    if op1.at == EditStep::LockWriter {
        law_edit_step(op1, st1, img1, edit_answer(op1, img1));
    }
}

/// A change that does not get the writer lock fails, and changes nothing.
pub proof fn law_change_needs_the_lock(op: EditView, st: StoreView, img: Image)
    requires
        op.at == EditStep::LockWriter,
    ensures
        ({
            let (op2, st2, img2) = op.next(st, img, EditEvent::Locked(false));
            op2.at == EditStep::Finish(false) && st2 == st && img2 == img
        }),
{
}

/// A change by a process that may attach tries that first, and then goes on as
/// one that has, or has not, a segment: by the segment, or by writing or removing
/// the file.
pub proof fn law_change_attaches_first(
    st: StoreView,
    img: Image,
    key: Seq<u8>,
    val: Option<Seq<u8>>,
    ok: bool,
)
    requires
        key_ok(key),
        st.wants_attach(),
    ensures
        ({
            let op = edit_start(st, key, val);
            let (op1, st1, img1) = op.next(st, img, EditEvent::Attached(ok));
            &&& op.at == EditStep::Attach
            &&& img1 == img
            &&& st1.attached == (ok || st.attached)
            &&& op1.key == key
            &&& op1.val == val
            &&& op1.at == if ok {
                if val is Some {
                    EditStep::LoadSlot
                } else {
                    EditStep::LockWriter
                }
            } else if val is Some {
                EditStep::WriteFile
            } else {
                EditStep::RemoveFile
            }
        }),
{
}

/// A change of a process without a segment that went to the file is what this
/// process hands out; one that did not changes nothing here.
pub proof fn law_detached_change_is_kept(op: EditView, st: StoreView, img: Image, ok: bool)
    requires
        op.at == EditStep::WriteFile || op.at == EditStep::RemoveFile,
    ensures
        ({
            let (op2, st2, img2) = op.next(st, img, EditEvent::Filed(ok));
            &&& op2.at == EditStep::Finish(ok)
            &&& img2 == img
            &&& ok ==> entry_in(st2.cache, op.key).value == terminated(op.val)
            &&& !ok ==> st2 == st
        }),
{
}

// ----------------------------------------------------------------- reading --

/// What is handed out is the whole value and a zero byte behind it, and nothing
/// for a variable that does not exist.
pub proof fn law_handed_out(v: Option<Seq<u8>>)
    ensures
        terminated(v) is Some <==> v is Some,
        v is Some ==> ({
            let b = terminated(v)->0;
            &&& b.len() == (v->0).len() + 1
            &&& forall|i: int| 0 <= i < (v->0).len() ==> #[trigger] b[i] == (v->0)[i]
            &&& b[(v->0).len() as int] == 0
        }),
{
}

/// A read that finds no lock to wait behind a writer with gives what is in the
/// file, and so does one of a process without a segment; neither counts as
/// current, and neither touches the segment.
pub proof fn law_read_from_the_file(
    op: GetView,
    st: StoreView,
    img: Image,
    contents: Option<Seq<u8>>,
)
    requires
        op.at == GetStep::LockWriter || op.at == GetStep::ReadFile,
    ensures
        ({
            let (op1, st1, img1) = if op.at == GetStep::LockWriter {
                op.next(st, img, GetEventView::Locked(false))
            } else {
                (op, st, img)
            };
            let (op2, st2, img2) = op1.next(st1, img1, GetEventView::File(contents));
            &&& op1.at == GetStep::ReadFile
            &&& op2.at == GetStep::Finish
            &&& entry_in(st2.cache, op.key).value == terminated(contents)
            &&& !entry_in(st2.cache, op.key).valid
            &&& img2 == img
        }),
{
}

/// A read goes by the segment if there is one, by the file if there is none, and
/// by whatever attaching gives if it is time to try that.
pub proof fn law_read_starts(st: StoreView, img: Image, key: Seq<u8>, ok: bool)
    ensures
        get_start(st, key).key == key,
        st.attached ==> get_start(st, key).at == GetStep::LoadSlot,
        !st.attached && !st.wants_attach() ==> get_start(st, key).at == GetStep::ReadFile,
        st.wants_attach() ==> ({
            let op = get_start(st, key);
            let (op1, st1, img1) = op.next(st, img, GetEventView::Attached(ok));
            &&& op.at == GetStep::Attach
            &&& op1.key == key
            &&& img1 == img
            &&& st1.attached == (ok || st.attached)
            &&& op1.at == if ok {
                GetStep::LoadSlot
            } else {
                GetStep::ReadFile
            }
        }),
{
}

// ---------------------------------------------------------------- clearing --

/// A clear after a series of answers.
pub open spec fn clear_run(
    op: ClearView,
    st: StoreView,
    img: Image,
    evs: Seq<ClearEventView>,
) -> (ClearView, StoreView, Image)
    decreases evs.len(),
{
    if evs.len() == 0 {
        (op, st, img)
    } else {
        let (op1, st1, img1) = clear_run(op, st, img, evs.drop_last());
        op1.next(st1, img1, evs.last())
    }
}

/// A clear takes both locks, empties the segment, removes the files, and flushes
/// the filesystem, in that order, and succeeds exactly when every file went and
/// the flush did. No variable is left in the segment, and none in what this
/// process has cached. (Which files go, see `law_files`.)
pub proof fn law_clear_empties_everything(
    st: StoreView,
    img: Image,
    removed: Option<Seq<Removal>>,
    flushed: bool,
    key: Seq<u8>,
)
    requires
        img.sized(),
        !st.wants_attach(),
    ensures
        ({
            let op = clear_start(st);
            let evs = seq![
                ClearEventView::Locked(true),
                ClearEventView::Locked(true),
                ClearEventView::Removed(removed),
                ClearEventView::Unlocked,
                ClearEventView::Did(flushed),
                ClearEventView::Unlocked,
            ];
            let (end, st6, img6) = clear_run(op, st, img, evs);
            let all = removed is Some && forall|i: int|
                0 <= i < (removed->0).len() ==> #[trigger] (removed->0)[i] != Removal::Failed;
            &&& op.at == ClearStep::LockCommit
            &&& clear_run(op, st, img, evs.take(1)).0.at == ClearStep::LockWriter
            &&& clear_run(op, st, img, evs.take(2)).0.at == ClearStep::RemoveAll
            &&& clear_run(op, st, img, evs.take(3)).0.at == ClearStep::UnlockWriter
            &&& clear_run(op, st, img, evs.take(4)).0.at == ClearStep::Flush
            &&& clear_run(op, st, img, evs.take(5)).0.at == ClearStep::UnlockCommit
            &&& end.at == ClearStep::Finish(all && flushed)
            &&& st.attached ==> img6.value(key) is None && !img6.owed(key) && img6.sound()
            &&& !st.attached ==> img6 == img
            &&& entry_in(st6.cache, key).value is None
            &&& !entry_in(st6.cache, key).valid
            &&& st6.attached == st.attached
        }),
{
    let op = clear_start(st);
    let evs = seq![
        ClearEventView::Locked(true),
        ClearEventView::Locked(true),
        ClearEventView::Removed(removed),
        ClearEventView::Unlocked,
        ClearEventView::Did(flushed),
        ClearEventView::Unlocked,
    ];
    law_clear(img, key);
    lemma_clear_run(op, st, img, evs, 0);
    lemma_clear_run(op, st, img, evs, 1);
    lemma_clear_run(op, st, img, evs, 2);
    lemma_clear_run(op, st, img, evs, 3);
    lemma_clear_run(op, st, img, evs, 4);
    lemma_clear_run(op, st, img, evs, 5);
    assert(evs.take(6) =~= evs);
    assert(evs.take(0) =~= Seq::empty());
}

proof fn lemma_clear_run(
    op: ClearView,
    st: StoreView,
    img: Image,
    evs: Seq<ClearEventView>,
    n: int,
)
    requires
        0 <= n < evs.len(),
    ensures
        clear_run(op, st, img, evs.take(n + 1)) == ({
            let (op1, st1, img1) = clear_run(op, st, img, evs.take(n));
            op1.next(st1, img1, evs[n])
        }),
{
    assert(evs.take(n + 1).drop_last() =~= evs.take(n));
}

/// A clear that does not get both locks fails, and removes nothing.
pub proof fn law_clear_needs_both_locks(op: ClearView, st: StoreView, img: Image)
    requires
        op.at == ClearStep::LockCommit || op.at == ClearStep::LockWriter,
    ensures
        ({
            let (op1, st1, img1) = op.next(st, img, ClearEventView::Locked(false));
            let (op2, st2, img2) = op1.next(st1, img1, ClearEventView::Unlocked);
            &&& op.at == ClearStep::LockCommit ==> op1.at == ClearStep::Finish(false)
            &&& op.at == ClearStep::LockWriter ==> op1.at == ClearStep::UnlockCommit && op2.at
                == ClearStep::Finish(false)
            &&& st1 == st && st2 == st
            &&& img1 == img && img2 == img
        }),
{
}

// --------------------------------------------------------------- attaching --

/// Attaching succeeds exactly if the object can be opened, is large enough and
/// can be mapped, and the segment in it is ready, is one of these, and is of the
/// filesystem that the store is on. If it is not ready at first, whoever is
/// filling it is waited for, once.
pub proof fn law_attaching(
    size: Option<u64>,
    first: Image,
    then: Image,
    dev: Option<u64>,
    opened: bool,
    mapped: bool,
)
    ensures
        ({
            let a1 = attach_next(AttachStep::Open, first, AttachEvent::Did(opened));
            let a2 = attach_next(a1, first, AttachEvent::Size(size));
            let a3 = attach_next(a2, first, AttachEvent::Did(mapped));
            let a4 = attach_next(a3, first, AttachEvent::Looked);
            let a5 = attach_next(a4, first, AttachEvent::Waited);
            let a6 = attach_next(a5, then, AttachEvent::Checked(dev));
            &&& !opened ==> a1 == AttachStep::Finish(false)
            &&& opened ==> a1 == AttachStep::Size
            &&& opened && !(size is Some && size->0 >= 1343560) ==> a2 == AttachStep::Finish(false)
            &&& opened && size is Some && size->0 >= 1343560 ==> {
                &&& a2 == AttachStep::Mmap
                &&& !mapped ==> a3 == AttachStep::Finish(false)
                &&& mapped ==> {
                    &&& a3 == AttachStep::Look
                    &&& a4 == if first.ready == 0 {
                        AttachStep::Wait
                    } else {
                        AttachStep::Check
                    }
                    &&& a5 == AttachStep::Check
                    &&& a6 == AttachStep::Finish(
                        then.ready != 0 && then.magic == 0x4E56_524D && then.version == 2 && dev
                            == Some(then.store_dev),
                    )
                }
            }
        }),
{
}

// ------------------------------------------------------------- bringing up --

/// Bringing the segment up, after a series of answers.
pub open spec fn init_run(
    op: InitView,
    st: StoreView,
    img: Image,
    evs: Seq<InitEventView>,
) -> (InitView, StoreView, Image)
    decreases evs.len(),
{
    if evs.len() == 0 {
        (op, st, img)
    } else {
        let (op1, st1, img1) = init_run(op, st, img, evs.drop_last());
        op1.next(st1, img1, evs.last())
    }
}

proof fn lemma_init_run(op: InitView, st: StoreView, img: Image, evs: Seq<InitEventView>, n: int)
    requires
        0 <= n < evs.len(),
    ensures
        init_run(op, st, img, evs.take(n + 1)) == ({
            let (op1, st1, img1) = init_run(op, st, img, evs.take(n));
            op1.next(st1, img1, evs[n])
        }),
{
    assert(evs.take(n + 1).drop_last() =~= evs.take(n));
}

/// The answers to bringing up a segment where there is none, if nothing fails:
/// the directory is there and has a device, there is nothing to attach to, the
/// object is created, locked, sized and mapped, the device is `dev`, and the
/// directory holds `fs`.
pub open spec fn smooth(len: u64, dev: u64, size: u64, fs: Seq<Found>) -> Seq<InitEventView> {
    seq![
        InitEventView::Seen(Some(Meta { kind: Kind::Directory, len }), Some(dev)),
        InitEventView::Did(false),
        InitEventView::Did(true),
        InitEventView::Did(true),
        InitEventView::Did(true),
        InitEventView::Did(true),
        InitEventView::Size(Some(size)),
        InitEventView::Did(true),
        InitEventView::Device(Some(dev)),
        InitEventView::Loaded(Some(fs)),
    ]
}

/// What the files of keys among `fs` give `key`.
pub open spec fn on_disk(fs: Seq<Found>, key: Seq<u8>, v: Option<Seq<u8>>) -> bool {
    match v {
        Some(v) => exists|i: int| 0 <= i < fs.len() && #[trigger] gives(fs[i], (key, v)),
        None => forall|i: int|
            0 <= i < fs.len() && (#[trigger] fs[i]).entry.name@ == key ==> !is_key_file(
                fs[i].entry.name@,
                fs[i].entry.is_file,
            ),
    }
}

/// Bringing the store up where there is no segment makes one of the files: it
/// creates, locks and fills it, publishes it last, and succeeds if every key's
/// file could be read and was put in; it gives up only if one of them did not go
/// in (see `law_put_fails_only_when_full`). Every variable then has the whole contents
/// of its file, nothing else has a value, nothing is owed to the disk, and the
/// process is attached.
pub proof fn law_bring_up(
    st: StoreView,
    len: u64,
    dev: u64,
    size: u64,
    fs: Seq<Found>,
    done: bool,
    key: Seq<u8>,
    v: Option<Seq<u8>>,
)
    requires
        !st.attached,
        size >= 1343560,
        forall|i: int|
            0 <= i < fs.len() && is_key_file((#[trigger] fs[i]).entry.name@, fs[i].entry.is_file)
                ==> fs[i].contents is Some,
        forall|a: int, b: int|
            0 <= a < b < fs.len() ==> (#[trigger] fs[a]).entry.name@ != (
            #[trigger] fs[b]).entry.name@,
        on_disk(fs, key, v),
    ensures
        ({
            let evs = smooth(len, dev, size, fs);
            let (op, st1, img) = init_run(init_start(st), st, zeroed_image(), evs);
            let (end, st2, img2) = op.next(st1, img, InitEventView::Did(done));
            &&& op.at == InitStep::Publish || op.at == InitStep::Unlock
            &&& op.at == InitStep::Unlock ==> img.ready == 0 && exists|m: int|
                0 <= m < loaded_upto(fs, fs.len() as int).len() && #[trigger] did_not_go_in(
                    zeroed_image().with_header(dev),
                    loaded_upto(fs, fs.len() as int),
                    m,
                )
            &&& op.at == InitStep::Publish ==> {
                &&& end.at == InitStep::Finish(true)
                &&& st2.attached
                &&& img2 == img
                &&& img.sound()
                &&& img.ready != 0 && img.magic == 0x4E56_524D && img.version == 2 && img.store_dev
                    == dev
                &&& img.value(key) == v
                &&& !img.owed(key)
            }
        }),
{
    let evs = smooth(len, dev, size, fs);
    let headed = zeroed_image().with_header(dev);
    law_loaded(fs, fs.len() as int);
    assert(all_read(fs));
    lemma_smooth(st, len, dev, size, fs);
    lemma_init_run(init_start(st), st, zeroed_image(), evs, 9);
    assert(evs.take(10) =~= evs);
    lemma_filled(dev, fs, key, v);
    let kvs = loaded_upto(fs, fs.len() as int);
    if !preloaded(headed, kvs, kvs.len() as int).1 {
        law_preload_fails_only_when_full(headed, kvs, kvs.len() as int);
    }
}

/// Up to the load of the files.
proof fn lemma_smooth(st: StoreView, len: u64, dev: u64, size: u64, fs: Seq<Found>)
    requires
        !st.attached,
        size >= 1343560,
    ensures
        init_run(init_start(st), st, zeroed_image(), smooth(len, dev, size, fs).take(9)) == (
            (InitView { at: InitStep::Load, held: true, unlock_first: false }),
            st,
            zeroed_image().with_header(dev),
        ),
{
    let evs = smooth(len, dev, size, fs);
    let op = init_start(st);
    let img = zeroed_image();
    assert(evs.take(0) =~= Seq::empty());
    lemma_init_run(op, st, img, evs, 0);
    lemma_init_run(op, st, img, evs, 1);
    lemma_init_run(op, st, img, evs, 2);
    lemma_init_run(op, st, img, evs, 3);
    lemma_init_run(op, st, img, evs, 4);
    lemma_init_run(op, st, img, evs, 5);
    lemma_init_run(op, st, img, evs, 6);
    lemma_init_run(op, st, img, evs, 7);
    lemma_init_run(op, st, img, evs, 8);
}

/// What a segment holds that was filled from the files.
proof fn lemma_filled(dev: u64, fs: Seq<Found>, key: Seq<u8>, v: Option<Seq<u8>>)
    requires
        forall|a: int, b: int|
            0 <= a < b < fs.len() ==> (#[trigger] fs[a]).entry.name@ != (
            #[trigger] fs[b]).entry.name@,
        on_disk(fs, key, v),
    ensures
        ({
            let kvs = loaded_upto(fs, fs.len() as int);
            let (filled, ok) = preloaded(
                zeroed_image().with_header(dev),
                kvs,
                kvs.len() as int,
            );
            let img = Image { ready: 1, ..filled };
            &&& filled.ready == 0
            &&& img.magic == 0x4E56_524D && img.version == 2 && img.store_dev == dev
            &&& ok ==> img.sound() && img.value(key) == v && !img.owed(key)
        }),
{
    let kvs = loaded_upto(fs, fs.len() as int);
    let n = kvs.len() as int;
    let headed = zeroed_image().with_header(dev);
    let filled = preloaded(headed, kvs, n).0;
    lemma_preloaded_kept(headed, kvs, n);
    law_loaded(fs, fs.len() as int);
    if preloaded(headed, kvs, n).1 {
        assert(listed_once(kvs)) by {
            assert forall|a: int, b: int|
                0 <= a < kvs.len() && 0 <= b < kvs.len() && (#[trigger] kvs[a]).0 == (
                #[trigger] kvs[b]).0 implies a == b by {
                if a < b {
                    assert(kvs[a].0 != kvs[b].0);
                }
                if b < a {
                    assert(kvs[b].0 != kvs[a].0);
                }
            }
        }
        law_preload(dev, kvs, n, key);
        lemma_listed(fs, key, v);
        let published = Image { ready: 1, ..filled };
        lemma_same_contents(filled, published);
        assert(published.value(key) == filled.value(key));
        assert(published.owed(key) == filled.owed(key));
    }
}

proof fn lemma_listed_in(kvs: Seq<(Seq<u8>, Seq<u8>)>, n: int, key: Seq<u8>)
    requires
        listed_once(kvs),
        0 <= n <= kvs.len(),
    ensures
        match listed(kvs, n, key) {
            Some(v) => kvs.contains((key, v)),
            None => forall|j: int| 0 <= j < n ==> (#[trigger] kvs[j]).0 != key,
        },
    decreases n,
{
    if n > 0 {
        lemma_listed_in(kvs, n - 1, key);
        if kvs[n - 1].0 == key {
            assert(kvs[n - 1] == (key, kvs[n - 1].1));
        }
    }
}

proof fn lemma_listed(fs: Seq<Found>, key: Seq<u8>, v: Option<Seq<u8>>)
    requires
        listed_once(loaded_upto(fs, fs.len() as int)),
        on_disk(fs, key, v),
    ensures
        listed(
            loaded_upto(fs, fs.len() as int),
            loaded_upto(fs, fs.len() as int).len() as int,
            key,
        ) == v,
{
    let kvs = loaded_upto(fs, fs.len() as int);
    let n = kvs.len() as int;
    law_loaded(fs, fs.len() as int);
    lemma_listed_in(kvs, n, key);
    match v {
        Some(w) => {
            let i = choose|i: int| 0 <= i < fs.len() && #[trigger] gives(fs[i], (key, w));
            assert(kvs.contains((fs[i].entry.name@, w)));
            let j = choose|j: int| 0 <= j < kvs.len() && kvs[j] == (key, w);
            assert(kvs[j].0 == key);
            match listed(kvs, n, key) {
                Some(u) => {
                    let l = choose|l: int| 0 <= l < kvs.len() && kvs[l] == (key, u);
                    assert(kvs[l].0 == kvs[j].0);
                },
                None => {},
            }
        },
        None => {
            match listed(kvs, n, key) {
                Some(u) => {
                    let l = choose|l: int| 0 <= l < kvs.len() && kvs[l] == (key, u);
                    assert(given(fs, fs.len() as int, kvs[l]));
                    let i = choose|i: int| 0 <= i < fs.len() && #[trigger] gives(fs[i], kvs[l]);
                    assert(fs[i].entry.name@ == key);
                },
                None => {},
            }
        },
    }
}

/// If bringing the store up fails though every key's file could be read, one of
/// them did not go in: the put of it failed, which it does only when the segment
/// is full (see `law_put_fails_only_when_full`).
pub proof fn law_preload_fails_only_when_full(
    img: Image,
    kvs: Seq<(Seq<u8>, Seq<u8>)>,
    n: int,
)
    requires
        0 <= n <= kvs.len(),
        !preloaded(img, kvs, n).1,
    ensures
        exists|m: int| 0 <= m < n && #[trigger] did_not_go_in(img, kvs, m),
    decreases n,
{
    if n > 0 {
        if preloaded(img, kvs, n - 1).1 {
            assert(did_not_go_in(img, kvs, n - 1));
        } else {
            law_preload_fails_only_when_full(img, kvs, n - 1);
            let m = choose|m: int| 0 <= m < n - 1 && #[trigger] did_not_go_in(img, kvs, m);
            assert(did_not_go_in(img, kvs, m));
        }
    }
}

/// The put of the `m`-th key failed.
pub open spec fn did_not_go_in(img: Image, kvs: Seq<(Seq<u8>, Seq<u8>)>, m: int) -> bool {
    !preloaded(img, kvs, m).0.put(kvs[m].0, kvs[m].1, false).1
}

/// Whatever goes wrong while the store is brought up, it fails, and gives up what
/// it made: the name of the segment is removed, and the lock released.
pub proof fn law_bring_up_gives_up(op: InitView, st: StoreView, img: Image, ev: InitEventView)
    requires
        op.expects(ev),
        ({
            ||| op.at == InitStep::Lock && ev == InitEventView::Did(false)
            ||| op.at == InitStep::Resize && ev == InitEventView::Did(false)
            ||| op.at == InitStep::Size && !(ev->Size_0 is Some && ev->Size_0->0 >= 1343560)
            ||| op.at == InitStep::Mmap && ev == InitEventView::Did(false)
            ||| op.at == InitStep::Device && ev == InitEventView::Device(None)
            ||| op.at == InitStep::Load && ev == InitEventView::Loaded(None)
        }),
    ensures
        ({
            let (op1, st1, img1) = op.next(st, img, ev);
            let (op2, st2, img2) = op1.next(st1, img1, InitEventView::Did(true));
            let (op3, st3, img3) = op2.next(st2, img2, InitEventView::Did(true));
            &&& op1.at == InitStep::Remove && op2.at == InitStep::Unlock || op1.at
                == InitStep::Unlock && op2.at == InitStep::Remove
            &&& op3.at == InitStep::Finish(false)
            &&& !op3.held || op.held
            &&& st3 == st
            &&& img3 == img
        }),
{
}

/// Bringing the store up starts with a look at the directory, unless the process
/// is attached; without a directory, or its device, it fails. Where there is a
/// segment that can be used, it is used.
pub proof fn law_bring_up_starts(
    st: StoreView,
    img: Image,
    meta: Option<Meta>,
    dev: Option<u64>,
    attached: bool,
)
    requires
        !st.attached,
    ensures
        ({
            let op = init_start(st);
            let (op1, st1, _) = op.next(st, img, InitEventView::Seen(meta, dev));
            let (op2, st2, _) = op1.next(st1, img, InitEventView::Did(attached));
            let usable = meta is Some && (meta->0).kind == Kind::Directory && dev is Some;
            &&& op.at == InitStep::Available
            &&& st1 == st
            &&& !usable ==> op1.at == InitStep::Finish(false)
            &&& usable ==> op1.at == InitStep::Attach
            &&& usable && attached ==> op2.at == InitStep::Finish(true) && st2.attached
            &&& usable && !attached ==> op2.at == InitStep::Retire && st2 == st
        }),
{
}

/// A segment is not published with a key missing: if the file of a key could not
/// be read, bringing the store up gives up, and removes what it made.
pub proof fn law_bring_up_refuses_part(
    op: InitView,
    st: StoreView,
    img: Image,
    fs: Seq<Found>,
    i: int,
)
    requires
        op.at == InitStep::Load,
        0 <= i < fs.len(),
        is_key_file(fs[i].entry.name@, fs[i].entry.is_file),
        fs[i].contents is None,
    ensures
        ({
            let (op1, st1, img1) = op.next(st, img, InitEventView::Loaded(Some(fs)));
            let (op2, st2, img2) = op1.next(st1, img1, InitEventView::Did(true));
            let (op3, st3, img3) = op2.next(st2, img2, InitEventView::Did(true));
            &&& op1.at == InitStep::Unlock
            &&& op2.at == InitStep::Remove
            &&& op3.at == InitStep::Finish(false)
            &&& st3 == st
            &&& img3 == img
        }),
{
    law_loaded(fs, fs.len() as int);
    assert(!all_read(fs));
}

/// A process that finds, when it creates the segment, that another was faster
/// attaches to that one, waits for it to be filled if it cannot yet, and then
/// tries once more; it succeeds exactly when it attached.
pub proof fn law_loser_waits_and_attaches(
    op: InitView,
    st: StoreView,
    img: Image,
    first: bool,
    waited: bool,
    last: bool,
)
    requires
        op.at == InitStep::Create,
        !st.attached,
    ensures
        ({
            let (op1, st1, img1) = op.next(st, img, InitEventView::Did(false));
            let (op2, st2, img2) = op1.next(st1, img1, InitEventView::Did(first));
            let (op3, st3, img3) = op2.next(st2, img2, InitEventView::Did(waited));
            let (op4, st4, img4) = op3.next(st3, img3, InitEventView::Did(last));
            &&& op1.at == InitStep::AttachTheirs
            &&& first ==> op2.at == InitStep::Finish(true) && st2.attached
            &&& !first ==> {
                &&& op2.at == InitStep::Wait
                &&& op3.at == InitStep::AttachLast
                &&& op4.at == InitStep::Finish(last)
                &&& st4.attached == last
            }
            &&& img4 == img
        }),
{
}

/// A clear by a process that may attach tries that first, and goes on whether it
/// did or not.
pub proof fn law_clear_attaches_first(st: StoreView, img: Image, ok: bool)
    requires
        st.wants_attach(),
    ensures
        ({
            let op = clear_start(st);
            let (op1, st1, img1) = op.next(st, img, ClearEventView::Attached(ok));
            &&& op.at == ClearStep::Attach
            &&& op1.at == ClearStep::LockCommit
            &&& op1.ok == op.ok
            &&& st1.attached == ok
            &&& img1 == img
        }),
{
}

/// A process that attaches uses the segment from then on, and nothing that it had
/// cached counts any more; what it had handed out is kept back. One that could
/// not attach is as it was.
pub proof fn law_attached(st: StoreView, key: Seq<u8>, counter: u64)
    ensures
        st.tried(true).attached,
        st.tried(true).detached_ops == 0,
        !entry_in(st.tried(true).cache, key).current(counter),
        entry_in(st.tried(true).cache, key).value is None,
        entry_in(st.cache, key).value is Some ==> entry_in(st.tried(true).cache, key).retired
            == entry_in(st.cache, key).value,
        st.tried(false) == st,
{
}

// ---------------------------------------------------------------- counting --

/// Every change of a variable, and every clear, is counted, by one; what changes
/// no variable is not.
pub proof fn law_changes_are_counted(img: Image, key: Seq<u8>, val: Seq<u8>, dirty: bool)
    requires
        img.sound(),
    ensures
        ({
            let (now, ok) = img.put(key, val, dirty);
            now.global_gen == if ok && img.value(key) != Some(val) {
                if img.global_gen == u64::MAX {
                    0
                } else {
                    (img.global_gen + 1) as u64
                }
            } else {
                img.global_gen
            }
        }),
        ({
            let (now, was_there) = img.removed(key, dirty);
            now.global_gen == if img.value(key) is Some {
                if img.global_gen == u64::MAX {
                    0
                } else {
                    (img.global_gen + 1) as u64
                }
            } else {
                img.global_gen
            }
        }),
        img.cleared().global_gen == if img.global_gen == u64::MAX {
            0
        } else {
            (img.global_gen + 1) as u64
        },
{
    assert(img.has_value(key, val) <==> img.value(key) == Some(val)) by {
        reveal(Image::value);
    }
    lemma_put_counted(img, key, val, dirty);
    assert(img.removed(key, dirty).0.global_gen == if img.value(key) is Some {
        img.global_gen.wrapping_add(1)
    } else {
        img.global_gen
    }) by {
        reveal(Image::removed);
        law_remove(img, key, dirty, key);
        match img.probe(key, fnv(key)) {
            Some((i, true)) => {
                let u = Update { i, found: true, key, val };
                lemma_probed(img, u);
                if img.index[i].state == ST_LIVE {
                    lemma_removed(img, i, key, dirty);
                }
            },
            _ => {},
        }
    }
}

proof fn lemma_put_counted(img: Image, key: Seq<u8>, val: Seq<u8>, dirty: bool)
    requires
        img.sound(),
    ensures
        ({
            let (now, ok) = img.put(key, val, dirty);
            now.global_gen == if ok && !img.has_value(key, val) {
                img.global_gen.wrapping_add(1)
            } else {
                img.global_gen
            }
        }),
{
    reveal(Image::put);
    let need = (key.len() + val.len()) as int;
    law_ensured(img, need, key);
    lemma_compacted_gen(img);
    match img.put_bucket(key, val) {
        None => {},
        Some((roomy, i, found)) => {
            lemma_updated(roomy, Update { i, found, key, val }, dirty);
        },
    }
}

proof fn lemma_compacted_gen(img: Image)
    ensures
        img.compacted().global_gen == img.global_gen,
{
    reveal(Image::compacted);
    let all = img.kept() + img.gone();
    lemma_carried_gen(img.emptied(), img.kept(), img.kept().len() as int);
    lemma_carried_gen(img.rebuilt().wiped(), all, all.len() as int);
}

proof fn lemma_carried_gen(img: Image, ks: Seq<KeptView>, n: int)
    ensures
        img.placed_upto(ks, n).global_gen == img.global_gen,
        img.seated_upto(ks, n).global_gen == img.global_gen,
    decreases n,
{
    if n > 0 {
        lemma_carried_gen(img, ks, n - 1);
    }
}

} // verus!
