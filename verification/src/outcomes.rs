//! What each call comes to, from its start to its end: what it does to the
//! variables and to the files, when it succeeds and when it does not.

use vstd::prelude::*;

use crate::commit::{
    chosen, next_set, publishes, staleness, writes, CommitEventView, CommitStep, CommitView,
};
use crate::consts::INDEX_SLOTS;
use crate::disk::{differs, key_ok, Meta};
use crate::durability::{
    commit_run, fitting, law_commit_heals, law_commit_run, law_commit_step, law_commit_success,
    lemma_chosen_all, lemma_next_set, lemma_pending_len, orderly, Answer, Progress,
};
use crate::history::{
    filed, lemma_owed_noted, lemma_paid, lemma_pending, looked_truly, lemma_pending_why,
    lemma_queries_prefix, lemma_retired, notes, settled, Files,
};
use crate::edit::edited;
use crate::hash::fnv;
use crate::image::{slot_for, Image};
use crate::init::preloaded;
use crate::laws::{law_put, law_remove};
use crate::model::PendingView;
use crate::preload::{law_preload, listed, listed_once};
use crate::shm::zeroed_image;
use crate::sound::lemma_value_held;
use crate::store::StoreView;

verus! {

// ------------------------------------------------------------------ commit --

/// A commit after the first `k` answers.
pub open spec fn commit_at(st: StoreView, files: Files, answers: Seq<Answer>, k: int) -> Progress {
    commit_run(Progress::start(st, files), answers.take(k))
}

/// The `k`-th answer is what the commit found when it looked at the files.
pub open spec fn looks(st: StoreView, files: Files, answers: Seq<Answer>, k: int) -> bool {
    0 <= k < answers.len() && commit_at(st, files, answers, k).op.at == CommitStep::Look
}

/// The commit has not looked at the files yet.
pub open spec fn before_look(at: CommitStep) -> bool {
    ||| at == CommitStep::Attach
    ||| at == CommitStep::LockCommit
    ||| at == CommitStep::LockWriter
    ||| at == CommitStep::Look
}

/// The process has a segment: it had one when the commit started, or attached to
/// one first.
pub open spec fn joined(st: StoreView, answers: Seq<Answer>) -> bool {
    ||| st.attached
    ||| st.wants_attach() && answers.len() > 0 && answers[0].ev == CommitEventView::Attached(true)
}

/// Where a commit can be that has not looked at the files.
pub open spec fn blank(op: CommitView) -> bool {
    ||| before_look(op.at)
    ||| op.at == CommitStep::Flush && !op.held
    ||| op.at == CommitStep::UnlockCommit && !op.result
    ||| op.at is Finish
}

/// What a commit has noted, by the answers so far: nothing before it has looked
/// at the files, and then what the segment owed at that time.
pub open spec fn well_noted(st: StoreView, files: Files, answers: Seq<Answer>, op: CommitView) -> bool {
    ||| {
        &&& forall|k: int| !#[trigger] looks(st, files, answers, k)
        &&& op.pending.len() == 0
        &&& blank(op)
        &&& joined(st, answers) ==> before_look(op.at) || op.at == CommitStep::UnlockCommit
            && !op.result || op.at == CommitStep::Finish(false)
        &&& op.at == CommitStep::Attach ==> answers.len() == 0 && st.wants_attach()
        &&& op.at == CommitStep::LockWriter || op.at == CommitStep::Look ==> op.held
        &&& op.at == CommitStep::Attach || op.at == CommitStep::LockCommit ==> !op.held
    }
    ||| {
        &&& !before_look(op.at)
        &&& exists|k: int|
            {
                &&& #[trigger] looks(st, files, answers, k)
                &&& op.pending == noted_at(answers[k])
                &&& forall|j: int| looks(st, files, answers, j) ==> j == k
            }
    }
}

/// What the segment owed the disk when the commit looked at the files.
pub open spec fn noted_at(a: Answer) -> Seq<PendingView> {
    a.img.pending(staleness(a.img.queries(), a.ev->Looked_0))
}

proof fn lemma_looks_prefix(st: StoreView, files: Files, answers: Seq<Answer>, k: int)
    requires
        answers.len() > 0,
    ensures
        looks(st, files, answers.drop_last(), k) == (looks(st, files, answers, k) && k
            < answers.len() - 1),
{
    if 0 <= k < answers.len() - 1 {
        assert(answers.drop_last().take(k) =~= answers.take(k));
    }
}

/// How a commit that has not looked at the files goes on.
pub open spec fn blank_on(op: CommitView, now: CommitView) -> bool {
    &&& blank(now)
    &&& op.at != CommitStep::Flush && !(op.at == CommitStep::Attach && now.at == CommitStep::Flush)
        ==> before_look(now.at) || now.at == CommitStep::UnlockCommit && !now.result || now.at
        == CommitStep::Finish(false)
    &&& now.at == CommitStep::LockWriter || now.at == CommitStep::Look ==> now.held
    &&& now.at == CommitStep::Attach || now.at == CommitStep::LockCommit ==> !now.held
    &&& now.at != CommitStep::Attach
}

/// What one answer does to what a commit has noted.
proof fn lemma_note_step(op: CommitView, st: StoreView, img: Image, ev: CommitEventView)
    requires
        op.expects(img, ev),
    ensures
        ({
            let now = op.next(st, img, ev).0;
            &&& op.at == CommitStep::Look ==> now.pending == img.pending(
                staleness(img.queries(), ev->Looked_0),
            ) && !before_look(now.at)
            &&& op.at != CommitStep::Look ==> now.pending == op.pending
            &&& !before_look(op.at) ==> !before_look(now.at)
        }),
{
}

/// What one answer does to a commit that has not looked at the files.
proof fn lemma_early_step(op: CommitView, st: StoreView, img: Image, ev: CommitEventView)
    requires
        op.expects(img, ev),
        op.at != CommitStep::Look,
        blank(op) && !(op.at is Finish),
        op.at == CommitStep::LockWriter ==> op.held,
        op.at == CommitStep::Attach || op.at == CommitStep::LockCommit ==> !op.held,
    ensures
        blank_on(op, op.next(st, img, ev).0),
        op.at == CommitStep::Attach && ev == CommitEventView::Attached(true) ==> op.next(
            st,
            img,
            ev,
        ).0.at != CommitStep::Flush,
{
}

proof fn lemma_well_noted(st: StoreView, files: Files, answers: Seq<Answer>)
    requires
        fitting(Progress::start(st, files), answers),
    ensures
        well_noted(st, files, answers, commit_run(Progress::start(st, files), answers).op),
    decreases answers.len(),
{
    let start = Progress::start(st, files);
    if answers.len() == 0 {
        assert forall|k: int| !#[trigger] looks(st, files, answers, k) by {}
    } else {
        let rest = answers.drop_last();
        let a = answers.last();
        lemma_well_noted(st, files, rest);
        let op = commit_run(start, rest).op;
        let now = commit_run(start, answers).op;
        assert(now == op.next(a.st, a.img, a.ev).0);
        lemma_note_step(op, a.st, a.img, a.ev);
        if !(exists|k: int| #[trigger] looks(st, files, rest, k)) && op.at != CommitStep::Look {
            lemma_early_step(op, a.st, a.img, a.ev);
        }
        lemma_noted_on(st, files, answers, op, now);
    }
}

proof fn lemma_noted_on(
    st: StoreView,
    files: Files,
    answers: Seq<Answer>,
    op: CommitView,
    now: CommitView,
)
    requires
        answers.len() > 0,
        op == commit_run(Progress::start(st, files), answers.drop_last()).op,
        well_noted(st, files, answers.drop_last(), op),
        op.at == CommitStep::Look ==> now.pending == noted_at(answers.last()) && !before_look(
            now.at,
        ),
        op.at != CommitStep::Look ==> now.pending == op.pending,
        !before_look(op.at) ==> !before_look(now.at),
        !(exists|k: int| #[trigger] looks(st, files, answers.drop_last(), k)) && op.at
            != CommitStep::Look ==> blank_on(op, now),
        op.at == CommitStep::Attach && answers.last().ev == CommitEventView::Attached(true)
            ==> now.at != CommitStep::Flush,
        op.at == CommitStep::Attach ==> answers.last().ev is Attached,
    ensures
        well_noted(st, files, answers, now),
{
    let rest = answers.drop_last();
    let n = answers.len() - 1;
    assert(answers.take(n) =~= rest);
    assert forall|k: int| #[trigger] looks(st, files, answers, k) implies looks(st, files, rest, k)
        || k == n && op.at == CommitStep::Look by {
        lemma_looks_prefix(st, files, answers, k);
    }
    if op.at == CommitStep::Look {
        assert(looks(st, files, answers, n));
        assert forall|j: int| looks(st, files, answers, j) implies j == n by {
            if looks(st, files, rest, j) {
                assert(before_look(op.at));
            }
        }
    } else if exists|k: int| #[trigger] looks(st, files, rest, k) {
        let k = choose|k: int|
            {
                &&& #[trigger] looks(st, files, rest, k)
                &&& op.pending == noted_at(rest[k])
                &&& forall|j: int| looks(st, files, rest, j) ==> j == k
            };
        lemma_looks_prefix(st, files, answers, k);
        assert(looks(st, files, answers, k));
        assert(rest[k] == answers[k]);
        assert forall|j: int| looks(st, files, answers, j) implies j == k by {
            assert(looks(st, files, rest, j));
        }
    } else {
        assert forall|k: int| !#[trigger] looks(st, files, answers, k) by {
            if looks(st, files, answers, k) {
                assert(looks(st, files, rest, k));
            }
        }
    }
}

/// What a commit that succeeded has made of the file of `key`, if `img` is the
/// segment as it was when the commit looked at the files, and `metas` is what it
/// found.
///
/// The file of a key that was owed is the value, all of it, or is gone if the
/// key has none; that of a key that is as it should be is not touched; and a
/// file that was missing, or of another length than the value, is made anew.
pub open spec fn committed(
    img: Image,
    metas: Seq<Option<Meta>>,
    files: Files,
    now: Files,
    key: Seq<u8>,
) -> bool {
    &&& img.owed(key) ==> filed(now, key) == img.value(key)
    &&& img.value(key) is None && !img.owed(key) ==> filed(now, key) == filed(files, key)
    &&& filed(now, key) == filed(files, key) || filed(now, key) == img.value(key)
    &&& settled(img, files) ==> filed(now, key) == img.value(key)
    &&& key_ok(key) && looked_truly(img, metas, files, key) && img.value(key) is Some ==> ({
        let v = img.value(key)->0;
        let same_length = files.contains_key(key) && files[key].len() == v.len();
        &&& !same_length ==> filed(now, key) == Some(v)
        &&& same_length && !img.owed(key) ==> filed(now, key) == filed(files, key)
    })
}

/// A commit by a process that has a segment, or attached to one first, and that
/// says it succeeded, has looked at the files once, and has written what the
/// segment owed at that time.
pub proof fn law_commit_writes_the_values(
    st: StoreView,
    files: Files,
    answers: Seq<Answer>,
    key: Seq<u8>,
)
    requires
        joined(st, answers),
        fitting(Progress::start(st, files), answers),
        commit_run(Progress::start(st, files), answers).op.at == CommitStep::Finish(true),
        forall|k: int| #[trigger] looks(st, files, answers, k) ==> answers[k].img.sound(),
    ensures
        exists|k: int| #[trigger] looks(st, files, answers, k),
        forall|k: int| #[trigger]
            looks(st, files, answers, k) ==> committed(
                answers[k].img,
                answers[k].ev->Looked_0,
                files,
                commit_run(Progress::start(st, files), answers).files,
                key,
            ),
{
    let p = commit_run(Progress::start(st, files), answers);
    lemma_well_noted(st, files, answers);
    law_commit_run(st, files, answers);
    let k = choose|k: int|
        {
            &&& #[trigger] looks(st, files, answers, k)
            &&& p.op.pending == noted_at(answers[k])
            &&& forall|j: int| looks(st, files, answers, j) ==> j == k
        };
    lemma_committed(p, answers[k].img, answers[k].ev->Looked_0, files, key);
}

proof fn lemma_committed(
    p: Progress,
    img: Image,
    metas: Seq<Option<Meta>>,
    files: Files,
    key: Seq<u8>,
)
    requires
        img.sound(),
        orderly(p, files),
        p.op.at == CommitStep::Finish(true),
        p.op.pending == img.pending(staleness(img.queries(), metas)),
    ensures
        committed(img, metas, files, p.files, key),
{
    let stale = staleness(img.queries(), metas);
    let ps = img.pending(stale);
    let n = ps.len() as int;
    lemma_chosen_all(ps, p.op.done, n);
    assert(ps.subrange(0, n) =~= ps);
    lemma_pending(img, stale, INDEX_SLOTS as int);
    lemma_paid(files, ps, n, key);
    if exists|m: int| 0 <= m < n && (#[trigger] ps[m]).key == key {
        let m = choose|m: int| 0 <= m < n && (#[trigger] ps[m]).key == key;
        assert(notes(img, img.pending_upto(stale, INDEX_SLOTS as int)[m]));
        assert(filed(p.files, key) == img.value(key));
        lemma_noted_has_value(img, stale, m);
        if !img.owed(key) && looked_truly(img, metas, files, key) && key_ok(key) {
            lemma_noted_for_a_reason(img, metas, files, m);
        }
    } else if img.owed(key) {
        lemma_owed_noted(img, stale, key);
    }
    if settled(img, files) {
        law_commit_success(p, img, files, stale, key);
    }
    if key_ok(key) && looked_truly(img, metas, files, key) {
        law_commit_heals(p, img, files, metas, key);
    }
}

/// A commit notes a key that is owed nothing only if it has a value.
proof fn lemma_noted_has_value(img: Image, stale: Seq<bool>, m: int)
    requires
        img.sound(),
        0 <= m < img.pending(stale).len(),
    ensures
        img.owed(img.pending(stale)[m].key) || img.value(img.pending(stale)[m].key) is Some,
{
    let key = img.pending(stale)[m].key;
    lemma_pending_why(img, stale, INDEX_SLOTS as int, m);
    let i = choose|i: int|
        0 <= i < INDEX_SLOTS && #[trigger] img.pending_at(
            i,
            stale[img.queries_upto(i).len() as int],
        ) == Some(img.pending_upto(stale, INDEX_SLOTS as int)[m]);
    assert(img.entry_ok(i));
    assert(img.holds(i, key));
    lemma_value_held(img, i, key);
}

/// A commit notes a key that is owed nothing only if its file is missing, or of
/// another length than the value.
proof fn lemma_noted_for_a_reason(img: Image, metas: Seq<Option<Meta>>, files: Files, m: int)
    requires
        img.sound(),
        0 <= m < img.pending(staleness(img.queries(), metas)).len(),
        ({
            let key = img.pending(staleness(img.queries(), metas))[m].key;
            key_ok(key) && looked_truly(img, metas, files, key) && !img.owed(key)
        }),
    ensures
        ({
            let key = img.pending(staleness(img.queries(), metas))[m].key;
            img.value(key) is Some && !(files.contains_key(key) && files[key].len()
                == (img.value(key)->0).len())
        }),
{
    let stale = staleness(img.queries(), metas);
    let key = img.pending(stale)[m].key;
    lemma_pending_why(img, stale, INDEX_SLOTS as int, m);
    let i = choose|i: int|
        0 <= i < INDEX_SLOTS && #[trigger] img.pending_at(
            i,
            stale[img.queries_upto(i).len() as int],
        ) == Some(img.pending_upto(stale, INDEX_SLOTS as int)[m]);
    assert(img.entry_ok(i));
    assert(img.holds(i, key));
    lemma_value_held(img, i, key);
    let q = img.queries_upto(i).len() as int;
    assert(img.query_at(i) == Some((key, img.index[i].val_len)));
    lemma_queries_prefix(img, i, INDEX_SLOTS as int);
    assert(img.queries()[q].0 == key);
    assert(stale[q] == differs(key, metas[q], img.index[i].val_len));
}

/// The answer is a good one: whatever was asked for was done.
pub open spec fn good(ev: CommitEventView) -> bool {
    match ev {
        CommitEventView::Locked(ok) => ok,
        CommitEventView::Did(ok) => ok,
        _ => true,
    }
}

/// A commit to which nothing bad has happened.
pub open spec fn thriving(op: CommitView) -> bool {
    match op.at {
        CommitStep::Discard(_) => false,
        CommitStep::UnlockCommit => op.result,
        CommitStep::Finish(ok) => ok,
        _ => op.all_ok,
    }
}

/// A commit to which something bad has happened.
pub open spec fn doomed(op: CommitView) -> bool {
    match op.at {
        CommitStep::Discard(_) => true,
        CommitStep::UnlockCommit => !op.result,
        CommitStep::Finish(ok) => !ok,
        _ => !op.all_ok,
    }
}

proof fn lemma_thriving_step(op: CommitView, st: StoreView, img: Image, ev: CommitEventView)
    requires
        op.expects(img, ev),
    ensures
        thriving(op) && good(ev) ==> thriving(op.next(st, img, ev).0),
        doomed(op) ==> doomed(op.next(st, img, ev).0),
        !good(ev) ==> doomed(op.next(st, img, ev).0),
{
}

/// A commit succeeds if nothing that it asks for fails, and fails if anything
/// does: a lock, a file or a flush.
pub proof fn law_commit_result(st: StoreView, files: Files, answers: Seq<Answer>)
    requires
        fitting(Progress::start(st, files), answers),
    ensures
        ({
            let end = commit_run(Progress::start(st, files), answers).op;
            &&& (forall|k: int| 0 <= k < answers.len() ==> good((#[trigger] answers[k]).ev))
                ==> end.at != CommitStep::Finish(false)
            &&& (exists|k: int| 0 <= k < answers.len() && !good((#[trigger] answers[k]).ev))
                ==> end.at != CommitStep::Finish(true)
        }),
{
    lemma_result(st, files, answers);
}

proof fn lemma_result(st: StoreView, files: Files, answers: Seq<Answer>)
    requires
        fitting(Progress::start(st, files), answers),
    ensures
        ({
            let end = commit_run(Progress::start(st, files), answers).op;
            &&& (forall|k: int| 0 <= k < answers.len() ==> good((#[trigger] answers[k]).ev))
                ==> thriving(end)
            &&& (exists|k: int| 0 <= k < answers.len() && !good((#[trigger] answers[k]).ev))
                ==> doomed(end)
        }),
    decreases answers.len(),
{
    if answers.len() > 0 {
        let rest = answers.drop_last();
        let a = answers.last();
        lemma_result(st, files, rest);
        let op = commit_run(Progress::start(st, files), rest).op;
        lemma_thriving_step(op, a.st, a.img, a.ev);
        assert forall|k: int| 0 <= k < rest.len() implies #[trigger] rest[k] == answers[k] by {}
        if forall|k: int| 0 <= k < answers.len() ==> good((#[trigger] answers[k]).ev) {
            assert(good(answers[answers.len() - 1].ev));
            assert forall|k: int| 0 <= k < rest.len() implies good((#[trigger] rest[k]).ev) by {
                assert(good(answers[k].ev));
            }
        }
        if exists|k: int| 0 <= k < answers.len() && !good((#[trigger] answers[k]).ev) {
            let k = choose|k: int| 0 <= k < answers.len() && !good((#[trigger] answers[k]).ev);
            if k < rest.len() {
                assert(!good(rest[k].ev));
            }
        }
    }
}

/// How many more answers a commit takes at most.
pub open spec fn commit_left(op: CommitView) -> int {
    let n = op.pending.len() as int;
    match op.at {
        CommitStep::Attach => 2 * INDEX_SLOTS + 10,
        CommitStep::LockCommit => 2 * INDEX_SLOTS + 9,
        CommitStep::LockWriter => 2 * INDEX_SLOTS + 8,
        CommitStep::Look => 2 * INDEX_SLOTS + 7,
        CommitStep::UnlockWriter => 2 * n + 6,
        CommitStep::Stage(i) => 2 * n - i + 5,
        CommitStep::FlushStaged => n + 5,
        CommitStep::Discard(i) => n - i + 1,
        CommitStep::Publish(i) => n - i + 4,
        CommitStep::Unlink(i) => n - i + 4,
        CommitStep::LockAgain => 4,
        CommitStep::UnlockAgain => 3,
        CommitStep::Flush => 2,
        CommitStep::UnlockCommit => 1,
        CommitStep::Finish(_) => 0,
    }
}

/// A commit comes to an end: every answer takes it closer.
pub proof fn law_commit_ends(
    p: Progress,
    files: Files,
    st: StoreView,
    img: Image,
    ev: CommitEventView,
)
    requires
        orderly(p, files),
        p.op.expects(img, ev),
    ensures
        0 <= commit_left(p.op.next(st, img, ev).0) < commit_left(p.op),
{
    let op = p.op;
    let now = op.next(st, img, ev).0;
    match op.at {
        CommitStep::Look => {
            lemma_pending_len(img, staleness(op.queries, ev->Looked_0), INDEX_SLOTS as int);
        },
        CommitStep::UnlockWriter => {
            lemma_stage_left(op, 0);
        },
        CommitStep::Stage(i) => {
            let staged = CommitView {
                staged: op.staged.update(i as int, ev->Did_0),
                all_ok: op.all_ok && ev->Did_0,
                ..op
            };
            lemma_stage_left(staged, i + 1);
        },
        CommitStep::FlushStaged => {
            lemma_next_set(op.staged, 0);
            lemma_publish_left(op, 0);
        },
        CommitStep::Discard(i) => {
            lemma_next_set(op.staged, i + 1);
        },
        CommitStep::Publish(i) => {
            let done = CommitView {
                done: op.done.update(i as int, ev->Did_0),
                all_ok: op.all_ok && ev->Did_0,
                ..op
            };
            lemma_publish_left(done, i + 1);
        },
        CommitStep::Unlink(i) => {
            let done = CommitView {
                done: op.done.update(i as int, ev->Did_0),
                all_ok: op.all_ok && ev->Did_0,
                ..op
            };
            lemma_publish_left(done, i + 1);
        },
        _ => {},
    }
}

proof fn lemma_publish_left(op: CommitView, i: int)
    requires
        op.wf(),
        op.pending.len() <= INDEX_SLOTS,
        0 <= i <= op.pending.len(),
    ensures
        0 <= commit_left(op.publish_from(i)) <= op.pending.len() - i + 4,
{
    lemma_next_set(publishes(op.pending, op.staged), i);
}

proof fn lemma_stage_left(op: CommitView, i: int)
    requires
        op.wf(),
        op.pending.len() <= INDEX_SLOTS,
        0 <= i <= op.pending.len(),
    ensures
        0 <= commit_left(op.stage_from(i)) <= 2 * op.pending.len() - i + 5,
{
    lemma_next_set(writes(op.pending), i);
    lemma_publish_left(op, 0);
}

/// A commit by a process without a segment has nothing to write: its changes went
/// to the files already. It flushes, touches no file, and succeeds exactly when
/// the flush does.
pub proof fn law_detached_commit(st: StoreView, files: Files, img: Image, ok: bool)
    requires
        !st.attached,
        !st.wants_attach(),
    ensures
        ({
            let p = Progress::start(st, files);
            let now = p.advanced(st, img, CommitEventView::Did(ok));
            &&& p.op.at == CommitStep::Flush
            &&& now.op.at == CommitStep::Finish(ok)
            &&& now.files == files
        }),
{
}

/// What was committed survives a reboot: a segment that is populated from the
/// files that a commit left gives every variable the value that it had when the
/// commit looked at the files, if all that was not owed was on disk before.
pub proof fn law_commit_then_reboot(
    st: StoreView,
    files: Files,
    answers: Seq<Answer>,
    k: int,
    dev: u64,
    kvs: Seq<(Seq<u8>, Seq<u8>)>,
    key: Seq<u8>,
)
    requires
        joined(st, answers),
        fitting(Progress::start(st, files), answers),
        commit_run(Progress::start(st, files), answers).op.at == CommitStep::Finish(true),
        looks(st, files, answers, k),
        answers[k].img.sound(),
        settled(answers[k].img, files),
        listed_once(kvs),
        listed(kvs, kvs.len() as int, key) == filed(
            commit_run(Progress::start(st, files), answers).files,
            key,
        ),
        preloaded(zeroed_image().with_header(dev), kvs, kvs.len() as int).1,
    ensures
        preloaded(zeroed_image().with_header(dev), kvs, kvs.len() as int).0.value(key)
            == answers[k].img.value(key),
{
    let p = commit_run(Progress::start(st, files), answers);
    lemma_well_noted(st, files, answers);
    law_commit_run(st, files, answers);
    let j = choose|j: int|
        {
            &&& #[trigger] looks(st, files, answers, j)
            &&& p.op.pending == noted_at(answers[j])
            &&& forall|i: int| looks(st, files, answers, i) ==> i == j
        };
    assert(j == k);
    lemma_committed(p, answers[k].img, answers[k].ev->Looked_0, files, key);
    law_preload(dev, kvs, kvs.len() as int, key);
}

/// What a change makes of a segment keeps every key that is owed nothing on disk
/// as it is in memory: whatever it changes, it owes.
pub proof fn law_change_is_owed(img: Image, files: Files, key: Seq<u8>, val: Option<Seq<u8>>)
    requires
        img.sound(),
        settled(img, files),
    ensures
        settled(edited(img, key, val).0, files),
        edited(img, key, val).0.sound(),
{
    let now = edited(img, key, val).0;
    match val {
        Some(v) => {
            law_put(img, key, v, true, key);
        },
        None => {
            law_remove(img, key, true, key);
        },
    }
    assert forall|k: Seq<u8>| !#[trigger] now.owed(k) implies filed(files, k) == now.value(k) by {
        match val {
            Some(v) => {
                law_put(img, key, v, true, k);
                if k == key && img.put(key, v, true).1 && !img.has_value(key, v) {
                    assert(now.owed(key));
                }
                if img.has_value(key, v) {
                    assert(now == img);
                }
            },
            None => {
                law_remove(img, key, true, k);
            },
        }
        assert(!img.owed(k));
    }
}

/// A commit has got as far as to say that it succeeded.
pub open spec fn succeeding(op: CommitView) -> bool {
    op.at == CommitStep::Finish(true) || op.at == CommitStep::UnlockCommit && op.result
}

/// The `f`-th answer is that the filesystem was flushed, and all that the commit
/// did after it was to release its lock.
pub open spec fn flushed_last(st: StoreView, files: Files, answers: Seq<Answer>, f: int) -> bool {
    &&& 0 <= f < answers.len()
    &&& commit_at(st, files, answers, f).op.at == CommitStep::Flush
    &&& answers[f].ev == CommitEventView::Did(true)
    &&& forall|j: int|
        f < j < answers.len() ==> (#[trigger] commit_at(st, files, answers, j)).op.at
            == CommitStep::UnlockCommit
}

/// A commit that succeeded flushed the filesystem after everything else.
pub proof fn law_commit_flushes_last(st: StoreView, files: Files, answers: Seq<Answer>)
    requires
        fitting(Progress::start(st, files), answers),
        succeeding(commit_run(Progress::start(st, files), answers).op),
    ensures
        exists|f: int| #[trigger] flushed_last(st, files, answers, f),
    decreases answers.len(),
{
    let start = Progress::start(st, files);
    if answers.len() > 0 {
        let rest = answers.drop_last();
        let a = answers.last();
        let n = answers.len() - 1;
        let op = commit_run(start, rest).op;
        assert(answers.take(n) =~= rest);
        lemma_succeeding_step(op, a.st, a.img, a.ev);
        if op.at == CommitStep::Flush {
            assert(flushed_last(st, files, answers, n));
        } else {
            law_commit_flushes_last(st, files, rest);
            let f = choose|f: int| #[trigger] flushed_last(st, files, rest, f);
            assert(rest.take(f) =~= answers.take(f));
            assert forall|j: int| f < j < answers.len() implies (
            #[trigger] commit_at(st, files, answers, j)).op.at == CommitStep::UnlockCommit by {
                if j < n {
                    assert(rest.take(j) =~= answers.take(j));
                    assert(commit_at(st, files, rest, j).op.at == CommitStep::UnlockCommit);
                }
            }
            assert(flushed_last(st, files, answers, f));
        }
    }
}

proof fn lemma_succeeding_step(op: CommitView, st: StoreView, img: Image, ev: CommitEventView)
    requires
        op.expects(img, ev),
        succeeding(op.next(st, img, ev).0),
    ensures
        op.at == CommitStep::Flush && ev == CommitEventView::Did(true) || op.at
            == CommitStep::UnlockCommit && op.result,
{
}

/// The segment changes only when a commit notes what it paid: then a key that it
/// paid for, and that was not written since, is owed no more; no value changes,
/// no key is owed that was not, and a key that it did not pay for stays owed.
pub proof fn law_commit_notes_what_it_paid(
    op: CommitView,
    st: StoreView,
    img: Image,
    ev: CommitEventView,
    key: Seq<u8>,
)
    requires
        op.wf(),
        op.expects(img, ev),
        img.sound(),
        forall|m: int|
            0 <= m < op.pending.len() ==> (#[trigger] op.pending[m]).hash == fnv(op.pending[m].key),
    ensures
        ({
            let now = op.next(st, img, ev).2;
            &&& !(op.at == CommitStep::LockAgain && ev == CommitEventView::Locked(true)) ==> now
                == img
            &&& now.sound()
            &&& now.value(key) == img.value(key)
            &&& now.owed(key) ==> img.owed(key)
            &&& op.at == CommitStep::LockAgain && ev == CommitEventView::Locked(true) ==> {
                &&& forall|m: int|
                    0 <= m < op.pending.len() && op.done[m] && (#[trigger] op.pending[m]).key == key
                        && img.slots[slot_for(fnv(key))] == op.pending[m].seen ==> !now.owed(key)
                &&& (forall|m: int|
                    0 <= m < op.pending.len() && op.done[m] ==> (#[trigger] op.pending[m]).key
                        != key) ==> now.owed(key) == img.owed(key)
            }
        }),
{
    let paid = op.paid();
    if op.at == CommitStep::LockAgain && ev == CommitEventView::Locked(true) {
        lemma_chosen_from(op.pending, op.done, op.pending.len() as int);
        assert forall|l: int| 0 <= l < paid.len() implies (#[trigger] paid[l]).hash == fnv(
            paid[l].key,
        ) by {
            assert(picked(op.pending, op.done, op.pending.len() as int, paid[l]));
            let m = choose|m: int|
                0 <= m < op.pending.len() && op.done[m] && #[trigger] op.pending[m] == paid[l];
            assert(op.pending[m].hash == fnv(op.pending[m].key));
        }
        lemma_retired(img, paid, paid.len() as int, key);
        assert forall|m: int|
            0 <= m < op.pending.len() && op.done[m] && (#[trigger] op.pending[m]).key == key
                && img.slots[slot_for(fnv(key))]
                == op.pending[m].seen implies !op.next(st, img, ev).2.owed(key) by {
            assert(paid.contains(op.pending[m]));
            let l = choose|l: int| 0 <= l < paid.len() && paid[l] == op.pending[m];
            assert(paid[l].key == key);
        }
        if forall|m: int|
            0 <= m < op.pending.len() && op.done[m] ==> (#[trigger] op.pending[m]).key != key {
            if img.owed(key) && !op.next(st, img, ev).2.owed(key) {
                let l = choose|l: int|
                    0 <= l < paid.len() && (#[trigger] paid[l]).key == key && img.slots[slot_for(
                        paid[l].hash,
                    )] == paid[l].seen;
                assert(picked(op.pending, op.done, op.pending.len() as int, paid[l]));
                let m = choose|m: int|
                    0 <= m < op.pending.len() && op.done[m] && #[trigger] op.pending[m] == paid[l];
                assert(op.pending[m].key == key);
            }
        }
    }
}

/// `p` is one of the first `n` of `ps` whose flag is set.
pub open spec fn picked(ps: Seq<PendingView>, flags: Seq<bool>, n: int, p: PendingView) -> bool {
    exists|m: int| 0 <= m < n && flags[m] && #[trigger] ps[m] == p
}

proof fn lemma_chosen_from(ps: Seq<PendingView>, flags: Seq<bool>, n: int)
    requires
        0 <= n <= ps.len(),
    ensures
        forall|l: int|
            0 <= l < chosen(ps, flags, n).len() ==> picked(
                ps,
                flags,
                n,
                #[trigger] chosen(ps, flags, n)[l],
            ),
        forall|m: int|
            0 <= m < n && flags[m] ==> chosen(ps, flags, n).contains(#[trigger] ps[m]),
    decreases n,
{
    if n > 0 {
        lemma_chosen_from(ps, flags, n - 1);
        let was = chosen(ps, flags, n - 1);
        let now = chosen(ps, flags, n);
        assert forall|l: int| 0 <= l < now.len() implies picked(ps, flags, n, #[trigger] now[l]) by {
            if l < was.len() {
                assert(now[l] == was[l]);
                assert(picked(ps, flags, n - 1, was[l]));
                let m = choose|m: int| 0 <= m < n - 1 && flags[m] && #[trigger] ps[m] == was[l];
                assert(ps[m] == now[l]);
            } else {
                assert(ps[n - 1] == now[l]);
            }
        }
        assert forall|m: int| 0 <= m < n && flags[m] implies now.contains(#[trigger] ps[m]) by {
            if m < n - 1 {
                assert(was.contains(ps[m]));
                let l = choose|l: int| 0 <= l < was.len() && was[l] == ps[m];
                assert(now[l] == ps[m]);
            } else {
                assert(now[now.len() - 1] == ps[m]);
            }
        }
    }
}

/// The `l`-th answer is the writer lock that the commit took to note what it
/// paid.
pub open spec fn notes_at(st: StoreView, files: Files, answers: Seq<Answer>, l: int) -> bool {
    &&& 0 <= l < answers.len()
    &&& commit_at(st, files, answers, l).op.at == CommitStep::LockAgain
    &&& answers[l].ev == CommitEventView::Locked(true)
}

/// Everything that a commit noted was paid for, and that was noted.
pub open spec fn closing(op: CommitView) -> bool {
    ||| op.at == CommitStep::UnlockAgain
    ||| op.at == CommitStep::Flush
    ||| succeeding(op)
}

proof fn lemma_closing_step(p: Progress, files: Files, st: StoreView, img: Image, ev: CommitEventView)
    requires
        orderly(p, files),
        p.op.expects(img, ev),
        closing(p.op.next(st, img, ev).0),
        p.op.next(st, img, ev).0.all_ok || succeeding(p.op.next(st, img, ev).0),
        p.op.next(st, img, ev).0.pending.len() > 0,
    ensures
        closing(p.op) && (p.op.all_ok || succeeding(p.op)) && p.op.pending.len() > 0 || p.op.at
            == CommitStep::LockAgain && ev == CommitEventView::Locked(true),
{
    let op = p.op;
    let now = op.next(st, img, ev).0;
    let after = p.advanced(st, img, ev);
    law_commit_step(p, files, st, img, ev);
    match op.at {
        CommitStep::UnlockWriter => {
            lemma_next_set(now.done, 0);
            assert(now.done[0]);
        },
        CommitStep::Stage(_) => {
            lemma_next_set(now.done, 0);
            assert(now.done[0]);
        },
        CommitStep::FlushStaged => {
            lemma_next_set(now.done, 0);
            assert(now.done[0]);
        },
        CommitStep::Publish(_) => {
            lemma_next_set(now.done, 0);
            assert(now.done[0]);
        },
        CommitStep::Unlink(_) => {
            lemma_next_set(now.done, 0);
            assert(now.done[0]);
        },
        _ => {},
    }
}

/// A commit that succeeded, and had anything to write, noted in the segment what
/// it paid, so that the next commit does not write it again.
pub proof fn law_commit_cancels_debts(st: StoreView, files: Files, answers: Seq<Answer>)
    requires
        fitting(Progress::start(st, files), answers),
        commit_run(Progress::start(st, files), answers).op.at == CommitStep::Finish(true),
        commit_run(Progress::start(st, files), answers).op.pending.len() > 0,
    ensures
        exists|l: int| #[trigger] notes_at(st, files, answers, l),
{
    lemma_closing(st, files, answers);
}

proof fn lemma_closing(st: StoreView, files: Files, answers: Seq<Answer>)
    requires
        fitting(Progress::start(st, files), answers),
        closing(commit_run(Progress::start(st, files), answers).op),
        commit_run(Progress::start(st, files), answers).op.all_ok || succeeding(
            commit_run(Progress::start(st, files), answers).op,
        ),
        commit_run(Progress::start(st, files), answers).op.pending.len() > 0,
    ensures
        exists|l: int| #[trigger] notes_at(st, files, answers, l),
    decreases answers.len(),
{
    let start = Progress::start(st, files);
    if answers.len() > 0 {
        let rest = answers.drop_last();
        let a = answers.last();
        let n = answers.len() - 1;
        let p = commit_run(start, rest);
        assert(answers.take(n) =~= rest);
        law_commit_run(st, files, rest);
        lemma_closing_step(p, files, a.st, a.img, a.ev);
        if p.op.at == CommitStep::LockAgain && a.ev == CommitEventView::Locked(true) {
            assert(notes_at(st, files, answers, n));
        } else {
            lemma_closing(st, files, rest);
            let l = choose|l: int| #[trigger] notes_at(st, files, rest, l);
            assert(rest.take(l) =~= answers.take(l));
            assert(notes_at(st, files, answers, l));
        }
    }
}

/// The commit was at that step at some time.
pub open spec fn asked(st: StoreView, files: Files, answers: Seq<Answer>, at: CommitStep) -> bool {
    exists|k: int| 0 <= k < answers.len() && (#[trigger] commit_at(st, files, answers, k)).op.at == at
}

proof fn lemma_asked_on(st: StoreView, files: Files, answers: Seq<Answer>, at: CommitStep)
    requires
        answers.len() > 0,
    ensures
        asked(st, files, answers.drop_last(), at) ==> asked(st, files, answers, at),
        commit_run(Progress::start(st, files), answers.drop_last()).op.at == at ==> asked(
            st,
            files,
            answers,
            at,
        ),
{
    let rest = answers.drop_last();
    let n = answers.len() - 1;
    assert(answers.take(n) =~= rest);
    if asked(st, files, rest, at) {
        let k = choose|k: int|
            0 <= k < rest.len() && (#[trigger] commit_at(st, files, rest, k)).op.at == at;
        assert(rest.take(k) =~= answers.take(k));
        assert(commit_at(st, files, answers, k).op.at == at);
    }
    if commit_run(Progress::start(st, files), rest).op.at == at {
        assert(commit_at(st, files, answers, n).op.at == at);
    }
}

/// How many of the debts were staged, or need not be, by the step the commit is
/// at.
pub open spec fn staged_upto(op: CommitView) -> int {
    match op.at {
        CommitStep::Stage(i) => i as int,
        CommitStep::FlushStaged => op.pending.len() as int,
        CommitStep::Discard(_) => op.pending.len() as int,
        CommitStep::Publish(_) => op.pending.len() as int,
        CommitStep::Unlink(_) => op.pending.len() as int,
        CommitStep::LockAgain => op.pending.len() as int,
        CommitStep::UnlockAgain => op.pending.len() as int,
        CommitStep::Flush => op.pending.len() as int,
        _ => 0,
    }
}

/// How many of the debts were published or unlinked, as far as they were staged,
/// by the step the commit is at.
pub open spec fn published_upto(op: CommitView) -> int {
    match op.at {
        CommitStep::Publish(i) => i as int,
        CommitStep::Unlink(i) => i as int,
        CommitStep::LockAgain => op.pending.len() as int,
        CommitStep::UnlockAgain => op.pending.len() as int,
        CommitStep::Flush => op.pending.len() as int,
        _ => 0,
    }
}

/// How many of the staged files were discarded, by the step the commit is at.
pub open spec fn discarded_upto(op: CommitView) -> int {
    match op.at {
        CommitStep::Discard(i) => i as int,
        _ => 0,
    }
}

/// A commit skips nothing: every value was staged, everything staged and every
/// deletion was published or unlinked, and where staged files are discarded, all
/// of them are, as far as the commit has got.
pub open spec fn thorough(st: StoreView, files: Files, answers: Seq<Answer>, op: CommitView) -> bool {
    &&& forall|j: int|
        0 <= j < staged_upto(op) && (#[trigger] op.pending[j]).val is Some ==> asked(
            st,
            files,
            answers,
            CommitStep::Stage(j as usize),
        )
    &&& forall|j: int|
        0 <= j < published_upto(op) && (#[trigger] op.pending[j]).val is Some && op.staged[j]
            ==> asked(st, files, answers, CommitStep::Publish(j as usize))
    &&& forall|j: int|
        0 <= j < published_upto(op) && (#[trigger] op.pending[j]).val is None ==> asked(
            st,
            files,
            answers,
            CommitStep::Unlink(j as usize),
        )
    &&& forall|j: int|
        0 <= j < discarded_upto(op) && #[trigger] op.staged[j] ==> asked(
            st,
            files,
            answers,
            CommitStep::Discard(j as usize),
        )
}

/// How far one answer takes a commit: past nothing that had to be done.
pub open spec fn skips_nothing(op: CommitView, now: CommitView) -> bool {
    let n = op.pending.len() as int;
    &&& op.at != CommitStep::Look ==> now.pending == op.pending
    &&& op.at == CommitStep::Look ==> staged_upto(now) == 0 && published_upto(now) == 0
        && discarded_upto(now) == 0
    &&& forall|j: int|
        op.at != CommitStep::Look && staged_upto(op) <= j < staged_upto(now) && (
        #[trigger] op.pending[j]).val is Some ==> op.at == CommitStep::Stage(j as usize)
    &&& forall|j: int|
        op.at != CommitStep::Look && published_upto(op) <= j < published_upto(now) && (
        #[trigger] op.pending[j]).val is Some && now.staged[j] ==> op.at == CommitStep::Publish(
            j as usize,
        )
    &&& forall|j: int|
        op.at != CommitStep::Look && published_upto(op) <= j < published_upto(now) && (
        #[trigger] op.pending[j]).val is None ==> op.at == CommitStep::Unlink(j as usize)
    &&& forall|j: int|
        discarded_upto(op) <= j < discarded_upto(now) && #[trigger] now.staged[j] ==> op.at
            == CommitStep::Discard(j as usize)
    &&& forall|j: int|
        0 <= j < published_upto(op) && j < published_upto(now) ==> #[trigger] now.staged[j]
            == op.staged[j]
    &&& forall|j: int|
        0 <= j < discarded_upto(op) && j < discarded_upto(now) ==> #[trigger] now.staged[j]
            == op.staged[j]
    &&& staged_upto(now) <= now.pending.len()
    &&& published_upto(now) <= now.pending.len()
    &&& discarded_upto(now) <= now.pending.len()
}

proof fn lemma_skips_nothing(
    p: Progress,
    files: Files,
    st: StoreView,
    img: Image,
    ev: CommitEventView,
)
    requires
        orderly(p, files),
        p.op.expects(img, ev),
    ensures
        skips_nothing(p.op, p.op.next(st, img, ev).0),
{
    let op = p.op;
    let now = op.next(st, img, ev).0;
    match op.at {
        CommitStep::UnlockWriter => {
            lemma_stage_skips(op, 0);
        },
        CommitStep::Stage(i) => {
            let staged = CommitView {
                staged: op.staged.update(i as int, ev->Did_0),
                all_ok: op.all_ok && ev->Did_0,
                ..op
            };
            lemma_stage_skips(staged, i + 1);
        },
        CommitStep::FlushStaged => {
            lemma_next_set(op.staged, 0);
            lemma_publish_skips(op, 0);
        },
        CommitStep::Discard(i) => {
            lemma_next_set(op.staged, i + 1);
        },
        CommitStep::Publish(i) => {
            let done = CommitView {
                done: op.done.update(i as int, ev->Did_0),
                all_ok: op.all_ok && ev->Did_0,
                ..op
            };
            lemma_publish_skips(done, i + 1);
        },
        CommitStep::Unlink(i) => {
            let done = CommitView {
                done: op.done.update(i as int, ev->Did_0),
                all_ok: op.all_ok && ev->Did_0,
                ..op
            };
            lemma_publish_skips(done, i + 1);
        },
        _ => {},
    }
}

proof fn lemma_publish_skips(op: CommitView, i: int)
    requires
        op.wf(),
        op.pending.len() <= INDEX_SLOTS,
        0 <= i <= op.pending.len(),
        forall|j: int| 0 <= j < op.pending.len() && #[trigger] op.staged[j] ==> op.pending[j].val
            is Some,
    ensures
        ({
            let now = op.publish_from(i);
            &&& now.pending == op.pending
            &&& now.staged == op.staged
            &&& published_upto(now) <= op.pending.len()
            &&& i <= published_upto(now)
            &&& staged_upto(now) == op.pending.len()
            &&& discarded_upto(now) == 0
            &&& forall|j: int|
                i <= j < published_upto(now) ==> !op.staged[j] && (
                #[trigger] op.pending[j]).val is Some
        }),
{
    let flags = publishes(op.pending, op.staged);
    lemma_next_set(flags, i);
    let now = op.publish_from(i);
    assert forall|j: int| i <= j < published_upto(now) implies !op.staged[j] && (
    #[trigger] op.pending[j]).val is Some by {
        assert(!flags[j]);
    }
}

proof fn lemma_stage_skips(op: CommitView, i: int)
    requires
        op.wf(),
        op.pending.len() <= INDEX_SLOTS,
        0 <= i <= op.pending.len(),
        forall|j: int| 0 <= j < op.pending.len() && #[trigger] op.staged[j] ==> op.pending[j].val
            is Some,
    ensures
        ({
            let now = op.stage_from(i);
            &&& now.pending == op.pending
            &&& now.staged == op.staged
            &&& i <= staged_upto(now) <= op.pending.len()
            &&& published_upto(now) <= op.pending.len()
            &&& discarded_upto(now) == 0
            &&& forall|j: int|
                i <= j < staged_upto(now) ==> (#[trigger] op.pending[j]).val is None
            &&& forall|j: int|
                0 <= j < published_upto(now) ==> !op.staged[j] && (
                #[trigger] op.pending[j]).val is Some
        }),
{
    let flags = writes(op.pending);
    lemma_next_set(flags, i);
    lemma_next_set(op.staged, 0);
    lemma_publish_skips(op, 0);
    let now = op.stage_from(i);
    let j0 = next_set(flags, i);
    assert forall|j: int| i <= j < staged_upto(now) implies (
    #[trigger] op.pending[j]).val is None by {
        if j < j0 {
            assert(!flags[j]);
        }
    }
}

/// A commit skips nothing, whatever fails on the way.
pub proof fn law_commit_is_thorough(st: StoreView, files: Files, answers: Seq<Answer>)
    requires
        fitting(Progress::start(st, files), answers),
    ensures
        thorough(st, files, answers, commit_run(Progress::start(st, files), answers).op),
    decreases answers.len(),
{
    let start = Progress::start(st, files);
    if answers.len() > 0 {
        let rest = answers.drop_last();
        let a = answers.last();
        let p = commit_run(start, rest);
        let now = commit_run(start, answers).op;
        law_commit_is_thorough(st, files, rest);
        law_commit_run(st, files, rest);
        lemma_skips_nothing(p, files, a.st, a.img, a.ev);
        lemma_thorough_on(st, files, answers, p.op, now);
    }
}

proof fn lemma_thorough_on(
    st: StoreView,
    files: Files,
    answers: Seq<Answer>,
    op: CommitView,
    now: CommitView,
)
    requires
        answers.len() > 0,
        op == commit_run(Progress::start(st, files), answers.drop_last()).op,
        thorough(st, files, answers.drop_last(), op),
        skips_nothing(op, now),
    ensures
        thorough(st, files, answers, now),
{
    assert forall|j: int|
        0 <= j < staged_upto(now) && (#[trigger] now.pending[j]).val is Some implies asked(
        st,
        files,
        answers,
        CommitStep::Stage(j as usize),
    ) by {
        lemma_asked_on(st, files, answers, CommitStep::Stage(j as usize));
        assert(op.pending[j].val is Some);
    }
    assert forall|j: int|
        0 <= j < published_upto(now) && (#[trigger] now.pending[j]).val is Some
            && now.staged[j] implies asked(
        st,
        files,
        answers,
        CommitStep::Publish(j as usize),
    ) by {
        lemma_asked_on(st, files, answers, CommitStep::Publish(j as usize));
        assert(op.pending[j].val is Some);
    }
    assert forall|j: int|
        0 <= j < published_upto(now) && (#[trigger] now.pending[j]).val is None implies asked(
        st,
        files,
        answers,
        CommitStep::Unlink(j as usize),
    ) by {
        lemma_asked_on(st, files, answers, CommitStep::Unlink(j as usize));
        assert(op.pending[j].val is None);
    }
    assert forall|j: int| 0 <= j < discarded_upto(now) && #[trigger] now.staged[j] implies asked(
        st,
        files,
        answers,
        CommitStep::Discard(j as usize),
    ) by {
        lemma_asked_on(st, files, answers, CommitStep::Discard(j as usize));
        if j < discarded_upto(op) {
            assert(op.staged[j]);
        }
    }
}

/// Where a commit goes that gets no lock, whose flush fails, or that is done: it
/// leaves once all that was staged is discarded, or all is written and noted, and
/// at no other time.
pub proof fn law_commit_leaves(
    p: Progress,
    files: Files,
    st: StoreView,
    img: Image,
    ev: CommitEventView,
)
    requires
        orderly(p, files),
        p.op.expects(img, ev),
        p.op.next(st, img, ev).0.at == CommitStep::UnlockCommit || p.op.next(
            st,
            img,
            ev,
        ).0.at is Finish,
    ensures
        ({
            ||| p.op.at == CommitStep::UnlockCommit
            ||| p.op.at == CommitStep::Flush
            ||| ev == CommitEventView::Locked(false)
            ||| p.op.at == CommitStep::FlushStaged && ev == CommitEventView::Did(false) && forall|
                j: int,
            |
                0 <= j < p.op.staged.len() ==> !#[trigger] p.op.staged[j]
            ||| p.op.at matches CommitStep::Discard(i) && forall|j: int|
                i < j < p.op.staged.len() ==> !#[trigger] p.op.staged[j]
        }),
{
    let op = p.op;
    match op.at {
        CommitStep::FlushStaged => {
            lemma_next_set(op.staged, 0);
        },
        CommitStep::Discard(i) => {
            lemma_next_set(op.staged, i + 1);
        },
        _ => {},
    }
}

/// A commit with nothing to do notes nothing: if no key is owed, and every file
/// has the length of its value, there is nothing to write.
pub proof fn law_idle_commit(img: Image, files: Files, metas: Seq<Option<Meta>>)
    requires
        img.sound(),
        forall|key: Seq<u8>| !#[trigger] img.owed(key),
        forall|key: Seq<u8>| (#[trigger] img.value(key)) is Some ==> key_ok(key) && looked_truly(
            img,
            metas,
            files,
            key,
        ) && files.contains_key(key) && files[key].len() == (img.value(key)->0).len(),
    ensures
        img.pending(staleness(img.queries(), metas)).len() == 0,
{
    let ps = img.pending(staleness(img.queries(), metas));
    if ps.len() > 0 {
        let key = ps[0].key;
        lemma_noted_has_value(img, staleness(img.queries(), metas), 0);
        assert(!img.owed(key));
        assert(img.value(key) is Some);
        lemma_noted_for_a_reason(img, metas, files, 0);
    }
}

} // verus!
