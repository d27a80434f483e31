//! What a commit does to the files, step by step, and what it promises when it
//! is over or is cut short.

use vstd::prelude::*;

use crate::commit::{
    chosen, commit_start, next_set, publishes, staleness, writes, CommitEventView, CommitStep,
    CommitView,
};
use crate::consts::{INDEX_SLOTS, SLOTS};
use crate::disk::{key_ok, Meta};
use crate::history::{
    all_proper, beside_commit, distinct, filed, healed, law_commit, law_commit_pays_all,
    law_commit_restores, lemma_pending, looked_truly, notes, paid, paid_upto, settled, Files, Op,
};
use crate::image::Image;
use crate::model::PendingView;
use crate::store::StoreView;

verus! {

/// A commit, the locks that its process holds, and the files.
pub struct Progress {
    pub op: CommitView,
    /// The writer lock is held.
    pub writer: bool,
    /// Everything staged so far was flushed.
    pub flushed: bool,
    pub files: Files,
}

impl Progress {
    /// A commit that starts.
    pub open spec fn start(st: StoreView, files: Files) -> Progress {
        Progress { op: commit_start(st), writer: false, flushed: false, files }
    }

    /// The commit after an answer.
    pub open spec fn advanced(self, st: StoreView, img: Image, ev: CommitEventView) -> Progress {
        Progress {
            op: self.op.next(st, img, ev).0,
            writer: match (self.op.at, ev) {
                (CommitStep::LockWriter, CommitEventView::Locked(ok)) => ok,
                (CommitStep::LockAgain, CommitEventView::Locked(ok)) => ok,
                (CommitStep::UnlockWriter, _) => false,
                (CommitStep::UnlockAgain, _) => false,
                _ => self.writer,
            },
            flushed: match (self.op.at, ev) {
                (CommitStep::FlushStaged, CommitEventView::Did(ok)) => ok,
                (CommitStep::Stage(_), _) => false,
                _ => self.flushed,
            },
            files: match (self.op.at, ev) {
                (CommitStep::Publish(i), CommitEventView::Did(ok)) if ok => paid(
                    self.files,
                    self.op.pending[i as int],
                ),
                (CommitStep::Unlink(i), CommitEventView::Did(ok)) if ok => paid(
                    self.files,
                    self.op.pending[i as int],
                ),
                _ => self.files,
            },
        }
    }
}

/// The writer lock is held at this step.
pub open spec fn under_writer(at: CommitStep) -> bool {
    at == CommitStep::Look || at == CommitStep::UnlockWriter || at == CommitStep::UnlockAgain
}

/// All of the first `n` values to be written were staged.
pub open spec fn all_staged(op: CommitView, n: int) -> bool {
    forall|j: int|
        0 <= j < n && (#[trigger] op.pending[j]).val is Some ==> op.staged[j]
}

/// All of the first `n` debts were paid.
pub open spec fn all_done(op: CommitView, n: int) -> bool {
    forall|j: int| 0 <= j < n ==> #[trigger] op.done[j]
}

/// None of the debts from `n` on was paid.
pub open spec fn none_done(op: CommitView, n: int) -> bool {
    forall|j: int| n <= j < op.done.len() ==> !#[trigger] op.done[j]
}

/// How far a commit has got, by the step it is at.
pub open spec fn on_track(p: Progress) -> bool {
    let op = p.op;
    let n = op.pending.len() as int;
    match op.at {
        CommitStep::Attach => !op.held && n == 0,
        CommitStep::LockCommit => !op.held && n == 0,
        CommitStep::LockWriter => op.held && n == 0,
        CommitStep::Look => op.held && n == 0,
        CommitStep::UnlockWriter => op.held && none_done(op, 0) && (forall|j: int|
            0 <= j < n ==> !#[trigger] op.staged[j]),
        CommitStep::Stage(i) => {
            &&& op.held
            &&& i < n
            &&& op.pending[i as int].val is Some
            &&& none_done(op, 0)
            &&& op.all_ok ==> all_staged(op, i as int)
            &&& forall|j: int| i <= j < n ==> !#[trigger] op.staged[j]
        },
        CommitStep::FlushStaged => {
            &&& op.held
            &&& none_done(op, 0)
            &&& op.all_ok ==> all_staged(op, n)
        },
        CommitStep::Discard(i) => op.held && i < n && op.staged[i as int] && none_done(op, 0),
        CommitStep::Publish(i) => {
            &&& op.held
            &&& i < n
            &&& p.flushed
            &&& op.staged[i as int]
            &&& op.all_ok ==> all_staged(op, n) && all_done(op, i as int)
            &&& none_done(op, i as int)
        },
        CommitStep::Unlink(i) => {
            &&& op.held
            &&& i < n
            &&& op.pending[i as int].val is None
            &&& op.all_ok ==> all_staged(op, n) && all_done(op, i as int)
            &&& none_done(op, i as int)
            &&& (exists|j: int| 0 <= j < n && #[trigger] op.staged[j]) ==> p.flushed
        },
        CommitStep::LockAgain => op.held && (op.all_ok ==> all_done(op, n)),
        CommitStep::UnlockAgain => op.held && (op.all_ok ==> all_done(op, n)),
        CommitStep::Flush => (op.held || n == 0) && (op.all_ok ==> all_done(op, n)),
        CommitStep::UnlockCommit => op.held && (op.result ==> all_done(op, n)),
        CommitStep::Finish(ok) => !op.held && (ok ==> all_done(op, n)),
    }
}

/// What holds of a commit at every step, if `files` are what it found.
///
/// The writer lock is held while the disk's debts are noted and while they are
/// cancelled, and at no other time. A file is published only if the value was
/// staged, and everything staged was flushed since. The files are those it
/// found, with the debts paid that are noted as paid. If nothing failed,
/// everything got as far as the commit did; a commit that says it succeeded
/// paid everything. A commit that is over holds no lock.
pub open spec fn orderly(p: Progress, files: Files) -> bool {
    &&& p.op.wf()
    &&& p.op.pending.len() <= INDEX_SLOTS
    &&& p.writer == under_writer(p.op.at)
    &&& forall|j: int|
        0 <= j < p.op.pending.len() && #[trigger] p.op.staged[j] ==> p.op.pending[j].val is Some
    &&& p.files == paid_upto(files, p.op.paid(), p.op.paid().len() as int)
    &&& on_track(p)
}

// --------------------------------------------------------------- searching --

pub proof fn lemma_next_set(flags: Seq<bool>, i: int)
    requires
        0 <= i <= flags.len(),
    ensures
        i <= next_set(flags, i) <= flags.len(),
        next_set(flags, i) < flags.len() ==> flags[next_set(flags, i)],
        forall|j: int| i <= j < next_set(flags, i) ==> !#[trigger] flags[j],
    decreases flags.len() - i,
{
    if i < flags.len() && !flags[i] {
        lemma_next_set(flags, i + 1);
    }
}

proof fn lemma_chosen_none(ps: Seq<PendingView>, flags: Seq<bool>, n: int)
    requires
        forall|j: int| 0 <= j < n ==> !#[trigger] flags[j],
    ensures
        chosen(ps, flags, n) == Seq::<PendingView>::empty(),
    decreases n,
{
    if n > 0 {
        lemma_chosen_none(ps, flags, n - 1);
    }
}

proof fn lemma_chosen_same(ps: Seq<PendingView>, flags: Seq<bool>, other: Seq<bool>, n: int)
    requires
        forall|j: int| 0 <= j < n ==> #[trigger] flags[j] == other[j],
    ensures
        chosen(ps, flags, n) == chosen(ps, other, n),
    decreases n,
{
    if n > 0 {
        assert(flags[n - 1] == other[n - 1]);
        lemma_chosen_same(ps, flags, other, n - 1);
    }
}

proof fn lemma_chosen_tail(ps: Seq<PendingView>, flags: Seq<bool>, n: int, m: int)
    requires
        0 <= n <= m,
        forall|j: int| n <= j < m ==> !#[trigger] flags[j],
    ensures
        chosen(ps, flags, m) == chosen(ps, flags, n),
    decreases m - n,
{
    if n < m {
        lemma_chosen_tail(ps, flags, n, m - 1);
    }
}

/// Paying the next debt in order adds it to what was paid.
proof fn lemma_paid_next(op: CommitView, i: int, ok: bool, files: Files)
    requires
        op.wf(),
        0 <= i < op.pending.len(),
        none_done(op, i),
    ensures
        ({
            let now = CommitView { done: op.done.update(i, ok), ..op };
            let was = paid_upto(files, op.paid(), op.paid().len() as int);
            paid_upto(files, now.paid(), now.paid().len() as int) == if ok {
                paid(was, op.pending[i])
            } else {
                was
            }
        }),
{
    let ps = op.pending;
    let n = ps.len() as int;
    let flags = op.done.update(i, ok);
    lemma_chosen_tail(ps, op.done, i, n);
    lemma_chosen_tail(ps, flags, i + 1, n);
    lemma_chosen_same(ps, flags, op.done, i);
    if ok {
        let so_far = chosen(ps, op.done, i);
        assert(chosen(ps, flags, i + 1) == so_far.push(ps[i]));
        lemma_paid_push(files, so_far, ps[i]);
    }
}

proof fn lemma_paid_push(files: Files, ps: Seq<PendingView>, p: PendingView)
    ensures
        paid_upto(files, ps.push(p), ps.len() as int + 1) == paid(
            paid_upto(files, ps, ps.len() as int),
            p,
        ),
{
    lemma_paid_prefix(files, ps, p, ps.len() as int);
    assert(ps.push(p)[ps.len() as int] == p);
}

proof fn lemma_paid_prefix(files: Files, ps: Seq<PendingView>, p: PendingView, n: int)
    requires
        0 <= n <= ps.len(),
    ensures
        paid_upto(files, ps.push(p), n) == paid_upto(files, ps, n),
    decreases n,
{
    if n > 0 {
        lemma_paid_prefix(files, ps, p, n - 1);
        assert(ps.push(p)[n - 1] == ps[n - 1]);
    }
}

// ------------------------------------------------------------ the commit --

/// A commit starts in good order.
pub proof fn law_commit_starts(st: StoreView, files: Files)
    ensures
        orderly(Progress::start(st, files), files),
{
}

/// The state in which publishing goes on from the `i`-th debt.
proof fn lemma_publish_from(p: Progress, files: Files, i: int)
    requires
        p.op.wf(),
        p.op.pending.len() <= INDEX_SLOTS,
        p.op.held,
        0 <= i <= p.op.pending.len(),
        !p.writer,
        forall|j: int|
            0 <= j < p.op.pending.len() && #[trigger] p.op.staged[j]
                ==> p.op.pending[j].val is Some,
        p.files == paid_upto(files, p.op.paid(), p.op.paid().len() as int),
        p.op.all_ok ==> all_staged(p.op, p.op.pending.len() as int) && all_done(p.op, i),
        none_done(p.op, i),
        (exists|j: int| 0 <= j < p.op.pending.len() && #[trigger] p.op.staged[j]) ==> p.flushed,
    ensures
        orderly(Progress { op: p.op.publish_from(i), ..p }, files),
{
    let op = p.op;
    let flags = publishes(op.pending, op.staged);
    let j = next_set(flags, i);
    lemma_next_set(flags, i);
    lemma_next_set(op.done, 0);
    let now = Progress { op: op.publish_from(i), ..p };
    assert(now.op.paid() == op.paid());
    if op.all_ok {
        // What lies between was neither staged nor a deletion: a value whose
        // staging failed, and then something has failed.
        assert(i == j) by {
            if i < j {
                assert(!flags[i]);
                assert(op.pending[i].val is Some);
                assert(op.staged[i]);
            }
        }
    }
    if j < op.pending.len() {
        assert(flags[j]);
        assert(none_done(now.op, j));
        if op.all_ok {
            assert(all_done(now.op, j));
        }
    }
}

/// The state in which staging goes on from the `i`-th debt.
proof fn lemma_stage_from(p: Progress, files: Files, i: int)
    requires
        p.op.wf(),
        p.op.pending.len() <= INDEX_SLOTS,
        p.op.held,
        0 <= i <= p.op.pending.len(),
        !p.writer,
        forall|j: int|
            0 <= j < p.op.pending.len() && #[trigger] p.op.staged[j]
                ==> p.op.pending[j].val is Some,
        p.files == paid_upto(files, p.op.paid(), p.op.paid().len() as int),
        p.op.all_ok ==> all_staged(p.op, i),
        none_done(p.op, 0),
        forall|j: int| i <= j < p.op.pending.len() ==> !#[trigger] p.op.staged[j],
    ensures
        orderly(Progress { op: p.op.stage_from(i), ..p }, files),
{
    let op = p.op;
    let flags = writes(op.pending);
    let j = next_set(flags, i);
    lemma_next_set(flags, i);
    lemma_next_set(op.staged, 0);
    let now = Progress { op: op.stage_from(i), ..p };
    if op.all_ok {
        assert forall|k: int|
            0 <= k < j && (#[trigger] op.pending[k]).val is Some implies op.staged[k] by {
            if k >= i {
                assert(!flags[k]);
            }
        }
    }
    if j < op.pending.len() {
        assert(flags[j]);
        assert(now.op.paid() == op.paid());
    } else if next_set(op.staged, 0) < op.staged.len() {
        assert(now.op.paid() == op.paid());
    } else {
        assert forall|k: int| 0 <= k < op.pending.len() implies !#[trigger] op.staged[k] by {}
        lemma_publish_from(p, files, 0);
    }
}

pub proof fn lemma_pending_len(img: Image, stale: Seq<bool>, n: int)
    requires
        0 <= n,
    ensures
        img.pending_upto(stale, n).len() <= n,
    decreases n,
{
    if n > 0 {
        lemma_pending_len(img, stale, n - 1);
    }
}

/// Every step of a commit keeps it in good order.
pub proof fn law_commit_step(
    p: Progress,
    files: Files,
    st: StoreView,
    img: Image,
    ev: CommitEventView,
)
    requires
        orderly(p, files),
        p.op.expects(img, ev),
    ensures
        orderly(p.advanced(st, img, ev), files),
{
    let op = p.op;
    let n = op.pending.len() as int;
    let now = p.advanced(st, img, ev);
    match op.at {
        CommitStep::Look => {
            lemma_pending_len(img, staleness(op.queries, ev->Looked_0), INDEX_SLOTS as int);
            lemma_chosen_none(now.op.pending, now.op.done, now.op.pending.len() as int);
            lemma_chosen_none(op.pending, op.done, n);
        },
        CommitStep::UnlockWriter => {
            let q = Progress { writer: false, ..p };
            lemma_stage_from(q, files, 0);
        },
        CommitStep::Stage(i) => {
            let ok = ev->Did_0;
            let staged = CommitView {
                staged: op.staged.update(i as int, ok),
                all_ok: op.all_ok && ok,
                ..op
            };
            assert(staged.paid() == op.paid());
            let q = Progress { op: staged, flushed: false, ..p };
            if staged.all_ok {
                assert forall|j: int|
                    0 <= j < i + 1 && (
                    #[trigger] staged.pending[j]).val is Some implies staged.staged[j] by {
                    assert(op.pending[j].val is Some);
                }
            }
            lemma_stage_from(q, files, i + 1);
        },
        CommitStep::FlushStaged => {
            let ok = ev->Did_0;
            if ok {
                let q = Progress { flushed: true, ..p };
                lemma_publish_from(q, files, 0);
            } else {
                lemma_next_set(op.staged, 0);
                assert(now.op.paid() == op.paid());
            }
        },
        CommitStep::Discard(i) => {
            lemma_next_set(op.staged, i + 1);
            assert(now.op.paid() == op.paid());
        },
        CommitStep::Publish(i) => {
            lemma_published(p, files, st, img, i, ev->Did_0);
        },
        CommitStep::Unlink(i) => {
            lemma_published(p, files, st, img, i, ev->Did_0);
        },
        _ => {
            assert(now.op.paid() == op.paid());
        },
    }
}

proof fn lemma_published(
    p: Progress,
    files: Files,
    st: StoreView,
    img: Image,
    i: usize,
    ok: bool,
)
    requires
        orderly(p, files),
        p.op.at == CommitStep::Publish(i) || p.op.at == CommitStep::Unlink(i),
    ensures
        orderly(p.advanced(st, img, CommitEventView::Did(ok)), files),
{
    let op = p.op;
    lemma_paid_next(op, i as int, ok, files);
    let done = CommitView {
        done: op.done.update(i as int, ok),
        all_ok: op.all_ok && ok,
        ..op
    };
    let q = Progress {
        op: done,
        files: if ok {
            paid(p.files, op.pending[i as int])
        } else {
            p.files
        },
        ..p
    };
    assert(done.paid() == CommitView { done: op.done.update(i as int, ok), ..op }.paid());
    assert(none_done(done, i + 1)) by {
        assert forall|j: int| i + 1 <= j < done.done.len() implies !#[trigger] done.done[j] by {
            assert(!op.done[j]);
        }
    }
    if done.all_ok {
        assert(all_staged(done, done.pending.len() as int)) by {
            assert forall|j: int|
                0 <= j < done.pending.len() && (
                #[trigger] done.pending[j]).val is Some implies done.staged[j] by {
                assert(op.pending[j].val is Some);
            }
        }
        assert(all_done(done, i + 1)) by {
            assert forall|j: int| 0 <= j < i + 1 implies #[trigger] done.done[j] by {
                if j < i {
                    assert(op.done[j]);
                }
            }
        }
    }
    lemma_publish_from(q, files, i + 1);
}

/// One answer to a commit: the store, the segment as it is then, and the
/// answer.
pub struct Answer {
    pub st: StoreView,
    pub img: Image,
    pub ev: CommitEventView,
}

/// A commit after a series of answers.
pub open spec fn commit_run(p: Progress, answers: Seq<Answer>) -> Progress
    decreases answers.len(),
{
    if answers.len() == 0 {
        p
    } else {
        let a = answers.last();
        commit_run(p, answers.drop_last()).advanced(a.st, a.img, a.ev)
    }
}

/// Every answer fits the step that it answers.
pub open spec fn fitting(p: Progress, answers: Seq<Answer>) -> bool
    decreases answers.len(),
{
    answers.len() > 0 ==> {
        let a = answers.last();
        &&& fitting(p, answers.drop_last())
        &&& commit_run(p, answers.drop_last()).op.expects(a.img, a.ev)
    }
}

/// A commit is in good order whatever the answers: it holds the writer lock
/// while it decides and while it cancels debts, never while it writes files;
/// it publishes no file before everything staged was flushed; the files are
/// the ones it found with the debts paid that it notes as paid; it succeeds
/// only if it paid all of them, and leaves no lock behind.
pub proof fn law_commit_run(st: StoreView, files: Files, answers: Seq<Answer>)
    requires
        fitting(Progress::start(st, files), answers),
    ensures
        orderly(commit_run(Progress::start(st, files), answers), files),
    decreases answers.len(),
{
    law_commit_starts(st, files);
    if answers.len() > 0 {
        law_commit_run(st, files, answers.drop_last());
        let a = answers.last();
        law_commit_step(
            commit_run(Progress::start(st, files), answers.drop_last()),
            files,
            a.st,
            a.img,
            a.ev,
        );
    }
}

// ------------------------------------------------- nothing is left behind --

proof fn lemma_chosen_sub(ps: Seq<PendingView>, flags: Seq<bool>, n: int)
    requires
        distinct(ps),
        0 <= n <= ps.len(),
    ensures
        distinct(chosen(ps, flags, n)),
        forall|m: int|
            0 <= m < chosen(ps, flags, n).len() ==> exists|l: int|
                0 <= l < n && #[trigger] ps[l] == #[trigger] chosen(ps, flags, n)[m],
    decreases n,
{
    if n > 0 {
        lemma_chosen_sub(ps, flags, n - 1);
        let before = chosen(ps, flags, n - 1);
        let now = chosen(ps, flags, n);
        if flags[n - 1] {
            assert forall|m: int| 0 <= m < now.len() implies exists|l: int|
                0 <= l < n && #[trigger] ps[l] == #[trigger] now[m] by {
                if m < before.len() {
                    assert(now[m] == before[m]);
                    let l = choose|l: int| 0 <= l < n - 1 && #[trigger] ps[l] == before[m];
                    assert(ps[l] == now[m]);
                } else {
                    assert(ps[n - 1] == now[m]);
                }
            }
            assert forall|m: int| 0 <= m < before.len() implies (#[trigger] now[m]).key
                != ps[n - 1].key by {
                assert(now[m] == before[m]);
                let l = choose|l: int| 0 <= l < n - 1 && #[trigger] ps[l] == before[m];
                assert(ps[l].key != ps[n - 1].key);
            }
        }
    }
}

/// A commit that pays some of what it noted in `img`, while other processes do
/// `ops`, strands nothing in memory: neither when it notes what it paid in the
/// segment, nor when it does not get to that.
pub proof fn law_commit_strands_nothing(
    img: Image,
    files: Files,
    stale: Seq<bool>,
    ops: Seq<Op>,
    flags: Seq<bool>,
)
    requires
        img.sound(),
        settled(img, files),
        all_proper(ops),
        forall|n: int| 0 <= n < ops.len() ==> beside_commit(#[trigger] ops[n]),
        forall|s: int|
            0 <= s < SLOTS ==> #[trigger] img.slots[s] + 3 * ops.len() <= u64::MAX - 4,
    ensures
        ({
            let ps = img.pending(stale);
            let done = chosen(ps, flags, ps.len() as int);
            let n = done.len() as int;
            let mid = img.after_all(ops);
            &&& settled(mid.retired_upto(done, n), paid_upto(files, done, n))
            &&& settled(mid, paid_upto(files, done, n))
        }),
{
    let ps = img.pending(stale);
    lemma_pending(img, stale, INDEX_SLOTS as int);
    lemma_chosen_sub(ps, flags, ps.len() as int);
    let done = chosen(ps, flags, ps.len() as int);
    let n = done.len() as int;
    let mid = img.after_all(ops);
    assert forall|m: int| 0 <= m < n implies ps.contains(#[trigger] done[m]) by {
        let l = choose|l: int| 0 <= l < ps.len() && #[trigger] ps[l] == done[m];
        assert(ps[l] == done[m]);
    }
    law_commit(img, files, stale, ops, done);
    // Cancelling debts only ever adds keys of which the files have to be right.
    let now = mid.retired_upto(done, n);
    assert forall|key: Seq<u8>| !#[trigger] mid.owed(key) implies filed(
        paid_upto(files, done, n),
        key,
    ) == mid.value(key) by {
        crate::history::law_retired(img, ops, stale, done, key);
        assert(!now.owed(key));
    }
}

pub proof fn lemma_chosen_all(ps: Seq<PendingView>, flags: Seq<bool>, n: int)
    requires
        0 <= n <= ps.len(),
        forall|j: int| 0 <= j < n ==> #[trigger] flags[j],
    ensures
        chosen(ps, flags, n) == ps.subrange(0, n),
    decreases n,
{
    if n > 0 {
        lemma_chosen_all(ps, flags, n - 1);
        assert(ps.subrange(0, n) =~= ps.subrange(0, n - 1).push(ps[n - 1]));
    } else {
        assert(ps.subrange(0, 0) =~= Seq::<PendingView>::empty());
    }
}

/// A commit that says it succeeded has written everything that it noted: if
/// every key that was owed nothing was on disk as in memory, each key now is on
/// disk as it was in memory when the commit noted what the disk owed.
pub proof fn law_commit_success(
    p: Progress,
    img: Image,
    files: Files,
    stale: Seq<bool>,
    key: Seq<u8>,
)
    requires
        orderly(p, files),
        p.op.at == CommitStep::Finish(true),
        p.op.pending == img.pending(stale),
        img.sound(),
        settled(img, files),
    ensures
        filed(p.files, key) == img.value(key),
{
    let ps = p.op.pending;
    lemma_chosen_all(ps, p.op.done, ps.len() as int);
    assert(ps.subrange(0, ps.len() as int) =~= ps);
    law_commit_pays_all(img, files, stale, key);
}

/// A commit that says it succeeded has made the disk match memory, whatever else
/// had changed the files before it looked at them: each key that has a value has
/// it on disk, and each deletion that was owed is done.
pub proof fn law_commit_heals(
    p: Progress,
    img: Image,
    files: Files,
    metas: Seq<Option<Meta>>,
    key: Seq<u8>,
)
    requires
        orderly(p, files),
        p.op.at == CommitStep::Finish(true),
        p.op.pending == img.pending(staleness(img.queries(), metas)),
        img.sound(),
        key_ok(key),
        looked_truly(img, metas, files, key),
    ensures
        healed(img, files, p.files, key),
{
    let ps = p.op.pending;
    lemma_chosen_all(ps, p.op.done, ps.len() as int);
    assert(ps.subrange(0, ps.len() as int) =~= ps);
    law_commit_restores(img, files, metas, key);
}

} // verus!
