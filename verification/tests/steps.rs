//! Operations that do not go well, step by step.

use nvram::clear::{ClearEvent, ClearStep};
use nvram::commit::{CommitEvent, CommitOp, CommitStep};
use nvram::consts::{ARENA_SIZE, INDEX_SLOTS};
use nvram::disk::{DirEntry, Found, Kind, Meta, Removal};
use nvram::edit::{EditEvent, EditStep};
use nvram::get::{GetEvent, GetStep};
use nvram::getall::{GetallEvent, GetallStep};
use nvram::hash::fnv1a;
use nvram::image::{IndexEntry, ST_LIVE};
use nvram::init::{AttachEvent, AttachStep, InitEvent, InitStep};
use nvram::peek::{PeekEvent, PeekOp, PeekStep};
use nvram::shm::{Read, Segment, SEGMENT_SIZE};
use nvram::store::{poison_slot, Store};

/// Looks at a key, and finds these counters when it loads them again.
fn peek(seg: &Segment, key: &[u8], after: (u64, u64)) -> Read {
    let mut op = PeekOp::new(key);
    let slot = op.slot();
    loop {
        let ev = match op.now() {
            PeekStep::Counters => PeekEvent::Counters(seg.slot_value(slot), seg.arena_value()),
            PeekStep::Entry(i) => PeekEvent::Entry(seg.index()[i]),
            PeekStep::Key { off, len } | PeekStep::Value { off, len } => {
                PeekEvent::Bytes(seg.arena()[off..off + len].to_vec())
            }
            PeekStep::Recheck => PeekEvent::Counters(after.0, after.1),
            PeekStep::Finish => return op.read(),
        };
        op.step(ev);
    }
}

/// A look at parts of a segment concludes what the whole of it says.
#[test]
fn a_look_agrees_with_the_segment() {
    let mut seg = published();
    for i in 0..300 {
        seg.put(format!("key{}", i).as_bytes(), format!("value{}", i).as_bytes(), true).unwrap();
    }
    for i in 0..100 {
        assert!(seg.remove(format!("key{}", 3 * i).as_bytes(), true));
    }
    seg.put(b"empty", b"", true).unwrap();
    poison_slot(&Store::new(true), &mut seg, b"key1");
    let keys = (0..310).map(|i| format!("key{}", i)).chain(["empty".to_string()]);
    let mut kinds = [0, 0, 0];
    for key in keys {
        let key = key.as_bytes();
        let slot = seg.slot_value(seg.slot_of(fnv1a(key)));
        for after in [(slot, 0), (slot + 2, 0), (slot, 2)] {
            let whole = seg.read_value(key, fnv1a(key), after.0, after.1);
            let look = peek(&seg, key, after);
            assert_eq!(format!("{:?}", look), format!("{:?}", whole));
            kinds[match look {
                Read::Value(_) => 0,
                Read::Absent => 1,
                Read::Torn => 2,
            }] += 1;
        }
    }
    assert_eq!(kinds[0] + kinds[1] + kinds[2], 933);
    assert!(kinds[0] >= 195 && kinds[1] >= 105 && kinds[2] >= 622, "{:?}", kinds);
}

/// A look does not go on once it is clear that a writer is active.
#[test]
fn a_look_is_over_at_an_odd_counter() {
    for (slot, arena) in [(1, 0), (0, 1), (3, 5)] {
        let mut op = PeekOp::new(b"k");
        assert_eq!(op.step(PeekEvent::Counters(slot, arena)), PeekStep::Finish);
        assert!(matches!(op.read(), Read::Torn));
    }
    let mut op = PeekOp::new(b"k");
    let first = op.step(PeekEvent::Counters(4, 2));
    let home = (fnv1a(b"k") % INDEX_SLOTS as u64) as usize;
    assert_eq!(first, PeekStep::Entry(home));
    let e = IndexEntry {
        hash: fnv1a(b"k"),
        key_off: 8,
        key_len: 1,
        val_off: ARENA_SIZE as u32,
        val_len: 1,
        state: ST_LIVE,
        flags: 0,
    };
    assert_eq!(op.step(PeekEvent::Entry(e)), PeekStep::Key { off: 8, len: 1 });
    assert_eq!(op.step(PeekEvent::Bytes(b"k".to_vec())), PeekStep::Finish);
    assert!(matches!(op.read(), Read::Torn), "a value outside the arena");
}

/// A published segment on device 5.
fn published() -> Segment {
    let mut s = Segment::zeroed();
    s.init_header(5);
    s.publish();
    s
}

// --------------------------------------------------------------- attaching --

fn attach(seg: &Segment, events: &[AttachEvent]) -> AttachStep {
    let mut op = Segment::attach();
    for ev in events {
        op.step(seg, *ev);
    }
    op.now()
}

#[test]
fn attaching_needs_a_segment_of_the_right_size() {
    let s = published();
    let size = SEGMENT_SIZE as u64;
    let did = AttachEvent::Did;
    assert_eq!(attach(&s, &[]), AttachStep::Open);
    assert_eq!(attach(&s, &[did(false)]), AttachStep::Finish(false));
    assert_eq!(attach(&s, &[did(true), AttachEvent::Size(None)]), AttachStep::Finish(false));
    assert_eq!(
        attach(&s, &[did(true), AttachEvent::Size(Some(size - 1))]),
        AttachStep::Finish(false)
    );
    assert_eq!(
        attach(&s, &[did(true), AttachEvent::Size(Some(size)), did(false)]),
        AttachStep::Finish(false)
    );
}

#[test]
fn attaching_checks_the_segment() {
    let up_to_look = [AttachEvent::Did(true), AttachEvent::Size(Some(1 << 40)), AttachEvent::Did(true)];
    let with = |rest: &[AttachEvent]| -> Vec<AttachEvent> {
        up_to_look.iter().chain(rest.iter()).copied().collect()
    };
    let s = published();
    assert_eq!(attach(&s, &with(&[AttachEvent::Looked])), AttachStep::Check);
    let checked = |dev| with(&[AttachEvent::Looked, AttachEvent::Checked(dev)]);
    assert_eq!(attach(&s, &checked(Some(5))), AttachStep::Finish(true));
    assert_eq!(attach(&s, &checked(Some(6))), AttachStep::Finish(false));
    assert_eq!(attach(&s, &checked(None)), AttachStep::Finish(false));

    let blank = Segment::zeroed();
    assert_eq!(attach(&blank, &with(&[AttachEvent::Looked])), AttachStep::Wait);
    let waited =
        with(&[AttachEvent::Looked, AttachEvent::Waited, AttachEvent::Checked(Some(0))]);
    assert_eq!(attach(&blank, &waited), AttachStep::Finish(false));
}

/// A segment that becomes ready while its creator is waited for is used.
#[test]
fn attaching_waits_for_the_creator() {
    let mut op = Segment::attach();
    let blank = Segment::zeroed();
    op.step(&blank, AttachEvent::Did(true));
    op.step(&blank, AttachEvent::Size(Some(SEGMENT_SIZE as u64)));
    op.step(&blank, AttachEvent::Did(true));
    assert_eq!(op.step(&blank, AttachEvent::Looked), AttachStep::Wait);
    let s = published();
    assert_eq!(op.step(&s, AttachEvent::Waited), AttachStep::Check);
    assert_eq!(op.step(&s, AttachEvent::Checked(Some(5))), AttachStep::Finish(true));
}

// ------------------------------------------------------------- bringing up --

fn did(ok: bool) -> InitEvent {
    InitEvent::Did(ok)
}

/// Runs an initialisation, and gives its steps, its store and its segment.
fn init(events: Vec<InitEvent>) -> (Vec<InitStep>, Store, Segment) {
    let mut store = Store::new(false);
    let mut seg = Segment::zeroed();
    let mut op = store.init();
    let mut steps = vec![op.now()];
    for ev in events {
        steps.push(op.step(&mut store, &mut seg, ev));
    }
    (steps, store, seg)
}

fn seen(kind: Kind, dev: Option<u64>) -> InitEvent {
    InitEvent::Seen(Some(Meta { kind, len: 0 }), dev)
}

fn sized() -> InitEvent {
    InitEvent::Size(Some(SEGMENT_SIZE as u64))
}

fn created() -> Vec<InitEvent> {
    vec![seen(Kind::Directory, Some(9)), did(false), did(true), did(true)]
}

/// What a load finds of files with these contents.
fn found(kvs: Vec<(Vec<u8>, Option<Vec<u8>>)>) -> Vec<Found> {
    kvs.into_iter()
        .map(|(name, contents)| Found { entry: DirEntry { name, is_file: true }, contents })
        .collect()
}

#[test]
fn init_uses_a_segment_that_is_there() {
    let (steps, store, _) = init(vec![seen(Kind::Directory, Some(9)), did(true)]);
    assert_eq!(steps, vec![InitStep::Available, InitStep::Attach, InitStep::Finish(true)]);
    assert!(!store.degraded());
    assert_eq!(store.init().now(), InitStep::Finish(true));
    for bad in [
        seen(Kind::File, Some(9)),
        seen(Kind::Other, Some(9)),
        seen(Kind::Directory, None),
        InitEvent::Seen(None, Some(9)),
    ] {
        assert_eq!(init(vec![bad]).0[1], InitStep::Finish(false));
    }
}

#[test]
fn init_populates_and_publishes_last() {
    let mut events = created();
    events.extend([did(true), did(true), sized(), did(true)]);
    events.push(InitEvent::Device(Some(9)));
    events.push(InitEvent::Loaded(Some(found(vec![(b"k".to_vec(), Some(b"v".to_vec()))]))));
    events.push(did(true));
    let (steps, store, mut seg) = init(events);
    assert_eq!(
        steps,
        vec![
            InitStep::Available,
            InitStep::Attach,
            InitStep::Retire,
            InitStep::Create,
            InitStep::Lock,
            InitStep::Resize,
            InitStep::Size,
            InitStep::Mmap,
            InitStep::Device,
            InitStep::Load,
            InitStep::Publish,
            InitStep::Finish(true),
        ]
    );
    assert!(!store.degraded());
    assert_eq!(seg.validate(Some(9)), Ok(()));
    assert_eq!(seg.for_each_live(), vec![(b"k".to_vec(), b"v".to_vec())]);
    assert!(seg.commit_snapshot(&[false]).is_empty(), "what came from disk is not owed to it");
    let writes = seg.take_writes();
    assert_eq!(format!("{:?}", writes[writes.len() - 1]), "Ready(1)");
    assert_eq!(writes.iter().filter(|w| format!("{:?}", w).starts_with("Ready")).count(), 1);
}

#[test]
fn the_loser_of_the_race_attaches() {
    let lost = || vec![seen(Kind::Directory, Some(9)), did(false), did(true), did(false)];
    let mut events = lost();
    events.push(did(true));
    let (steps, store, _) = init(events);
    assert_eq!(steps[4..], [InitStep::AttachTheirs, InitStep::Finish(true)]);
    assert!(!store.degraded());
    let mut events = lost();
    events.extend([did(false), did(true), did(true)]);
    let (steps, store, _) = init(events);
    assert_eq!(steps[5..], [InitStep::Wait, InitStep::AttachLast, InitStep::Finish(true)]);
    assert!(!store.degraded());
    let mut events = lost();
    events.extend([did(false), did(true), did(false)]);
    let (steps, store, _) = init(events);
    assert_eq!(steps[7], InitStep::Finish(false));
    assert!(store.degraded());
}

#[test]
fn a_segment_that_cannot_be_made_is_removed() {
    for last in [
        vec![did(false)],
        vec![did(true), InitEvent::Size(None)],
        vec![did(true), InitEvent::Size(Some(SEGMENT_SIZE as u64 - 1))],
        vec![did(true), sized(), did(false)],
    ] {
        let mut events = created();
        events.push(did(true));
        events.extend(last);
        events.extend([did(true), did(true)]);
        let (steps, store, seg) = init(events);
        let n = steps.len();
        assert_eq!(
            steps[n - 3..],
            [InitStep::Remove, InitStep::Unlock, InitStep::Finish(false)]
        );
        assert!(store.degraded());
        assert!(!seg.is_ready());
    }
}

#[test]
fn a_segment_that_cannot_be_filled_is_never_published() {
    let too_big = found(vec![(b"k".to_vec(), Some(vec![1u8; ARENA_SIZE]))]);
    let fits_not = found(vec![
        (b"a".to_vec(), Some(vec![1u8; ARENA_SIZE / 2])),
        (b"b".to_vec(), Some(vec![1u8; ARENA_SIZE / 2])),
        (b"c".to_vec(), Some(b"small".to_vec())),
    ]);
    let unread = found(vec![
        (b"a".to_vec(), Some(b"1".to_vec())),
        (b"b".to_vec(), None),
        (b"c".to_vec(), Some(b"3".to_vec())),
    ]);
    let bad = vec![
        vec![InitEvent::Device(None)],
        vec![InitEvent::Device(Some(1)), InitEvent::Loaded(None)],
        vec![InitEvent::Device(Some(1)), InitEvent::Loaded(Some(too_big))],
        vec![InitEvent::Device(Some(1)), InitEvent::Loaded(Some(fits_not))],
        vec![InitEvent::Device(Some(1)), InitEvent::Loaded(Some(unread))],
    ];
    for last in bad {
        let mut events = created();
        events.extend([did(true), did(true), sized(), did(true)]);
        events.extend(last);
        events.extend([did(true), did(true)]);
        let (steps, store, seg) = init(events);
        let n = steps.len();
        assert_eq!(
            steps[n - 3..],
            [InitStep::Unlock, InitStep::Remove, InitStep::Finish(false)]
        );
        assert!(store.degraded());
        assert!(!seg.is_ready());
    }
}

/// Without the lock nobody could tell a segment that is being filled from one
/// whose creator died.
#[test]
fn init_without_the_lock_fails() {
    let mut events = created();
    events.extend([did(false), did(true), did(true)]);
    let (steps, store, mut seg) = init(events);
    assert_eq!(
        steps[4..],
        [InitStep::Lock, InitStep::Remove, InitStep::Unlock, InitStep::Finish(false)]
    );
    assert!(store.degraded());
    assert!(seg.take_writes().is_empty());
}

#[test]
fn the_lock_is_held_while_the_segment_is_filled() {
    let mut store = Store::new(false);
    let mut seg = Segment::zeroed();
    let mut op = store.init();
    for ev in created() {
        assert!(!op.held());
        op.step(&mut store, &mut seg, ev);
    }
    let rest = vec![
        did(true),
        sized(),
        did(true),
        InitEvent::Device(Some(9)),
        InitEvent::Loaded(Some(Vec::new())),
    ];
    op.step(&mut store, &mut seg, did(true));
    for ev in rest {
        assert!(op.held());
        op.step(&mut store, &mut seg, ev);
    }
    assert!(op.held());
    assert_eq!(op.now(), InitStep::Publish);
    op.step(&mut store, &mut seg, did(true));
    assert!(!op.held());
}

// --------------------------------------------------------------- committing --

/// A store and a segment with three variables, one of them deleted again.
fn owing() -> (Store, Segment) {
    let mut seg = published();
    seg.put(b"a", b"1", true).unwrap();
    seg.put(b"b", b"22", true).unwrap();
    seg.put(b"gone", b"333", true).unwrap();
    assert!(seg.remove(b"gone", true));
    (Store::new(true), seg)
}

fn did_c(ok: bool) -> CommitEvent {
    CommitEvent::Did(ok)
}

/// A commit that has looked at the files.
fn looked(store: &mut Store, seg: &mut Segment) -> CommitOp {
    let mut op = store.commit();
    assert_eq!(op.now(), CommitStep::LockCommit);
    assert_eq!(op.step(store, seg, CommitEvent::Locked(true)), CommitStep::LockWriter);
    assert_eq!(op.step(store, seg, CommitEvent::Locked(true)), CommitStep::Look);
    let metas: Vec<Option<Meta>> = op.queries().iter().map(|_| None).collect();
    assert_eq!(op.step(store, seg, CommitEvent::Looked(metas)), CommitStep::UnlockWriter);
    op
}

/// Runs a commit to its end, answering by `f`, and lists its steps.
fn run(
    op: &mut CommitOp,
    store: &mut Store,
    seg: &mut Segment,
    f: impl Fn(CommitStep) -> CommitEvent,
) -> Vec<CommitStep> {
    let mut steps = vec![op.now()];
    while !matches!(op.now(), CommitStep::Finish(_)) {
        let ev = f(op.now());
        steps.push(op.step(store, seg, ev));
    }
    steps
}

fn fine(at: CommitStep) -> CommitEvent {
    match at {
        CommitStep::LockAgain => CommitEvent::Locked(true),
        CommitStep::UnlockWriter | CommitStep::UnlockAgain | CommitStep::UnlockCommit => {
            CommitEvent::Unlocked
        }
        _ => did_c(true),
    }
}

fn owed(seg: &Segment) -> usize {
    let n = seg.commit_queries().len();
    seg.commit_snapshot(&vec![false; n]).len()
}

#[test]
fn a_commit_flushes_between_staging_and_publishing() {
    let (mut store, mut seg) = owing();
    assert_eq!(owed(&seg), 3);
    let mut op = looked(&mut store, &mut seg);
    let steps = run(&mut op, &mut store, &mut seg, fine);
    let flush = steps.iter().position(|s| *s == CommitStep::FlushStaged).unwrap();
    assert_eq!(steps.iter().filter(|s| matches!(s, CommitStep::Stage(_))).count(), 2);
    for (n, s) in steps.iter().enumerate() {
        match s {
            CommitStep::Stage(_) => assert!(n < flush),
            CommitStep::Publish(_) | CommitStep::Unlink(_) => assert!(n > flush),
            _ => {}
        }
    }
    let n = steps.len();
    assert_eq!(
        steps[n - 5..],
        [
            CommitStep::LockAgain,
            CommitStep::UnlockAgain,
            CommitStep::Flush,
            CommitStep::UnlockCommit,
            CommitStep::Finish(true)
        ]
    );
    assert_eq!(owed(&seg), 0);
}

#[test]
fn a_failed_flush_discards_what_was_staged() {
    let (mut store, mut seg) = owing();
    let mut op = looked(&mut store, &mut seg);
    let steps = run(&mut op, &mut store, &mut seg, |at| match at {
        CommitStep::FlushStaged => did_c(false),
        at => fine(at),
    });
    assert_eq!(steps.iter().filter(|s| matches!(s, CommitStep::Discard(_))).count(), 2);
    assert!(!steps.iter().any(|s| matches!(s, CommitStep::Publish(_) | CommitStep::Unlink(_))));
    let n = steps.len();
    assert_eq!(steps[n - 2..], [CommitStep::UnlockCommit, CommitStep::Finish(false)]);
    assert_eq!(owed(&seg), 3);
}

#[test]
fn what_could_not_be_written_stays_owed() {
    let (mut store, mut seg) = owing();
    let mut op = looked(&mut store, &mut seg);
    let first = op.pending().iter().position(|p| p.val.is_some()).unwrap();
    let steps = run(&mut op, &mut store, &mut seg, |at| match at {
        CommitStep::Stage(i) => did_c(i != first),
        at => fine(at),
    });
    assert_eq!(steps[steps.len() - 1], CommitStep::Finish(false));
    assert!(!steps.contains(&CommitStep::Publish(first)));
    assert_eq!(owed(&seg), 1);

    let (mut store, mut seg) = owing();
    let mut op = looked(&mut store, &mut seg);
    let steps = run(&mut op, &mut store, &mut seg, |at| match at {
        CommitStep::Unlink(_) => did_c(false),
        at => fine(at),
    });
    assert_eq!(steps[steps.len() - 1], CommitStep::Finish(false));
    assert_eq!(owed(&seg), 1);
}

#[test]
fn nothing_staged_needs_no_flush_before_publishing() {
    let mut seg = published();
    seg.put(b"gone", b"x", true).unwrap();
    assert!(seg.remove(b"gone", true));
    let mut store = Store::new(true);
    let mut op = looked(&mut store, &mut seg);
    let steps = run(&mut op, &mut store, &mut seg, fine);
    assert_eq!(
        steps,
        vec![
            CommitStep::UnlockWriter,
            CommitStep::Unlink(0),
            CommitStep::LockAgain,
            CommitStep::UnlockAgain,
            CommitStep::Flush,
            CommitStep::UnlockCommit,
            CommitStep::Finish(true)
        ]
    );
}

#[test]
fn a_commit_that_loses_its_locks_fails() {
    let (mut store, mut seg) = owing();
    let mut op = store.commit();
    assert_eq!(
        op.step(&mut store, &mut seg, CommitEvent::Locked(false)),
        CommitStep::Finish(false)
    );
    let mut op = store.commit();
    op.step(&mut store, &mut seg, CommitEvent::Locked(true));
    assert_eq!(
        op.step(&mut store, &mut seg, CommitEvent::Locked(false)),
        CommitStep::UnlockCommit
    );
    assert_eq!(
        op.step(&mut store, &mut seg, CommitEvent::Unlocked),
        CommitStep::Finish(false)
    );
    let mut op = looked(&mut store, &mut seg);
    let steps = run(&mut op, &mut store, &mut seg, |at| match at {
        CommitStep::LockAgain => CommitEvent::Locked(false),
        at => fine(at),
    });
    let n = steps.len();
    assert_eq!(
        steps[n - 3..],
        [CommitStep::LockAgain, CommitStep::UnlockCommit, CommitStep::Finish(false)]
    );
    assert_eq!(owed(&seg), 3, "paid, but not noted: it is written once more next time");
}

#[test]
fn a_detached_commit_only_flushes() {
    let mut store = Store::new(false);
    let mut seg = Segment::zeroed();
    let mut op = store.commit();
    assert_eq!(op.now(), CommitStep::Attach);
    assert_eq!(
        op.step(&mut store, &mut seg, CommitEvent::Attached(false)),
        CommitStep::Flush
    );
    assert_eq!(op.step(&mut store, &mut seg, did_c(false)), CommitStep::Finish(false));
    let mut op = store.commit();
    assert_eq!(op.now(), CommitStep::Flush, "no second attempt so soon");
    assert_eq!(op.step(&mut store, &mut seg, did_c(true)), CommitStep::Finish(true));
}

// ------------------------------------------------------------------ others --

/// A read that cannot have the lock either comes from the file, and does not
/// count as current.
#[test]
fn a_read_without_the_lock_comes_from_the_file() {
    let mut seg = published();
    seg.put(b"k", b"v", true).unwrap();
    let mut store = Store::new(true);
    assert!(poison_slot(&store, &mut seg, b"k"));
    let counter = seg.slot_value(seg.slot_of(nvram::hash::fnv1a(b"k")));
    let arena = seg.arena_value();
    let mut op = store.get(b"k");
    assert_eq!(op.now(), GetStep::LoadSlot);
    op.step(&mut store, &mut seg, GetEvent::Slot(counter));
    for n in 0..1000 {
        assert_eq!(op.now(), GetStep::Sample, "try {}", n);
        let read = peek(&seg, b"k", (counter, arena));
        op.step(&mut store, &mut seg, GetEvent::Sampled { before: counter, read });
    }
    assert_eq!(op.now(), GetStep::LockWriter);
    assert_eq!(op.step(&mut store, &mut seg, GetEvent::Locked(false)), GetStep::ReadFile);
    op.step(&mut store, &mut seg, GetEvent::File(Some(b"on disk".to_vec())));
    assert_eq!(op.now(), GetStep::Finish);
    assert_eq!(store.cached(b"k"), Some(&b"on disk\0".to_vec()));
    let mut op = store.get(b"k");
    assert_eq!(op.step(&mut store, &mut seg, GetEvent::Slot(0)), GetStep::Sample);
}

/// What is recorded is the counter from before the copy: a value read while
/// the counter moved on is read again.
#[test]
fn a_value_is_tagged_with_the_counter_from_before() {
    let mut seg = published();
    seg.put(b"k", b"v", true).unwrap();
    let mut store = Store::new(true);
    let mut op = store.get(b"k");
    op.step(&mut store, &mut seg, GetEvent::Slot(0));
    let ev = GetEvent::Sampled { before: 0, read: peek(&seg, b"k", (2, 0)) };
    assert_eq!(op.step(&mut store, &mut seg, ev), GetStep::Finish);
    assert_eq!(store.cached(b"k"), Some(&b"v\0".to_vec()));
    let mut op = store.get(b"k");
    assert_eq!(op.step(&mut store, &mut seg, GetEvent::Slot(2)), GetStep::Sample);
}

#[test]
fn a_change_without_the_lock_fails() {
    let mut seg = published();
    let mut store = Store::new(true);
    let mut op = store.set(b"k", b"v");
    assert_eq!(op.step(&mut store, &mut seg, EditEvent::Slot(0)), EditStep::LockWriter);
    assert_eq!(
        op.step(&mut store, &mut seg, EditEvent::Locked(false)),
        EditStep::Finish(false)
    );
    let mut op = store.unset(b"k");
    assert_eq!(op.now(), EditStep::LockWriter);
    assert_eq!(
        op.step(&mut store, &mut seg, EditEvent::Locked(false)),
        EditStep::Finish(false)
    );
    assert!(seg.for_each_live().is_empty());
}

#[test]
fn a_value_that_does_not_fit_is_refused() {
    let mut seg = published();
    let mut store = Store::new(true);
    let mut op = store.set(b"k", &vec![1u8; ARENA_SIZE]);
    op.step(&mut store, &mut seg, EditEvent::Slot(0));
    assert_eq!(
        op.step(&mut store, &mut seg, EditEvent::Locked(true)),
        EditStep::UnlockWriter
    );
    assert_eq!(
        op.step(&mut store, &mut seg, EditEvent::Unlocked),
        EditStep::Finish(false)
    );
    assert_eq!(store.cached(b"k"), None);
}

#[test]
fn a_failed_file_fails_a_detached_change() {
    let mut seg = Segment::zeroed();
    let mut store = Store::new(false);
    let mut op = store.set(b"k", b"v");
    assert_eq!(op.now(), EditStep::Attach);
    assert_eq!(
        op.step(&mut store, &mut seg, EditEvent::Attached(false)),
        EditStep::WriteFile
    );
    assert_eq!(
        op.step(&mut store, &mut seg, EditEvent::Filed(false)),
        EditStep::Finish(false)
    );
    assert_eq!(store.cached(b"k"), None);
    assert!(!poison_slot(&store, &mut seg, b"k"));
}

#[test]
fn a_clear_without_its_locks_fails() {
    let (mut store, mut seg) = owing();
    let mut op = store.clear();
    assert_eq!(
        op.step(&mut store, &mut seg, ClearEvent::Locked(false)),
        ClearStep::Finish(false)
    );
    let mut op = store.clear();
    op.step(&mut store, &mut seg, ClearEvent::Locked(true));
    assert_eq!(
        op.step(&mut store, &mut seg, ClearEvent::Locked(false)),
        ClearStep::UnlockCommit
    );
    assert_eq!(
        op.step(&mut store, &mut seg, ClearEvent::Unlocked),
        ClearStep::Finish(false)
    );
    assert_eq!(seg.for_each_live().len(), 2);
}

#[test]
fn a_clear_reports_what_failed() {
    for (removed, flushed) in [(true, true), (false, true), (true, false)] {
        let (mut store, mut seg) = owing();
        let mut op = store.clear();
        op.step(&mut store, &mut seg, ClearEvent::Locked(true));
        op.step(&mut store, &mut seg, ClearEvent::Locked(true));
        assert!(seg.for_each_live().is_empty());
        assert_eq!(owed(&seg), 0);
        let outcome = if removed { Removal::Removed } else { Removal::Failed };
        let outcomes = vec![Removal::NotFound, outcome, Removal::Removed];
        op.step(&mut store, &mut seg, ClearEvent::Removed(Some(outcomes)));
        op.step(&mut store, &mut seg, ClearEvent::Unlocked);
        op.step(&mut store, &mut seg, ClearEvent::Did(flushed));
        assert_eq!(
            op.step(&mut store, &mut seg, ClearEvent::Unlocked),
            ClearStep::Finish(removed && flushed)
        );
    }
}

#[test]
fn a_listing_into_no_room_fails() {
    let mut store = Store::new(true);
    assert_eq!(store.getall(0).now(), GetallStep::Finish(false));
    let mut store = Store::new(false);
    let mut op = store.getall(0);
    assert_eq!(op.now(), GetallStep::Attach);
    let seg = Segment::zeroed();
    assert_eq!(
        op.step(&mut store, &seg, GetallEvent::Attached(true)),
        GetallStep::Finish(false)
    );
    assert_eq!(op.out(), None);
}
