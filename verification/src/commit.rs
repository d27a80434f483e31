//! Writing what the segment owes to the files.
//!
//! Three phases, and the middle one holds no writer lock: under the lock,
//! decide what the disk owes and copy it; write the files; under the lock
//! again, clear the flag of everything that has not changed in the meantime. A
//! lock of its own keeps two commits from mixing their writes.
//!
//! The files are staged first, none of them flushed; one flush makes all of
//! them durable; only then are they published. A crash before that leaves the
//! store as it was.

use vstd::prelude::*;
use vstd::slice::slice_subrange;

use crate::disk::{differs, differs_on_disk, Meta};
use crate::image::Image;
use crate::model::PendingView;
use crate::shm::{lens_of, pending_of, Pending, Segment};
use crate::store::{keeps_buffers, Store, StoreView};
use crate::window::{by_deeds, law_deeds_follow_deeds, lemma_no_deed};

verus! {

/// What a commit is to do next.
#[derive(Clone, Copy, Debug, PartialEq, Eq, Structural)]
pub enum CommitStep {
    /// Try to attach to the segment.
    Attach,
    /// Take the commit lock.
    LockCommit,
    /// Take the writer lock, and copy the segment.
    LockWriter,
    /// Look at the files of `queries`.
    Look,
    /// Release the writer lock.
    UnlockWriter,
    /// Write the value of one of `pending` into a temporary file.
    Stage(usize),
    /// Flush the filesystem, for what was staged.
    FlushStaged,
    /// Remove the temporary file of one of `pending`.
    Discard(usize),
    /// Rename the temporary file of one of `pending` to its key's file.
    Publish(usize),
    /// Remove the file of one of `pending`.
    Unlink(usize),
    /// Take the writer lock again, and copy the segment.
    LockAgain,
    /// Make the stores, and release the writer lock.
    UnlockAgain,
    /// Flush the filesystem.
    Flush,
    /// Release the commit lock.
    UnlockCommit,
    /// Nothing: the commit is over, and this is how it went.
    Finish(bool),
}

/// What came of a step of a commit.
#[derive(Debug)]
pub enum CommitEvent {
    /// Whether there is a segment now.
    Attached(bool),
    /// Whether the lock is held.
    Locked(bool),
    /// What there is of each of the files looked at.
    Looked(Vec<Option<Meta>>),
    /// The lock was released.
    Unlocked,
    /// Whether the step succeeded.
    Did(bool),
}

/// What came of a step of a commit.
pub enum CommitEventView {
    Attached(bool),
    Locked(bool),
    Looked(Seq<Option<Meta>>),
    Unlocked,
    Did(bool),
}

impl View for CommitEvent {
    type V = CommitEventView;

    open spec fn view(&self) -> CommitEventView {
        match self {
            CommitEvent::Attached(b) => CommitEventView::Attached(*b),
            CommitEvent::Locked(b) => CommitEventView::Locked(*b),
            CommitEvent::Looked(m) => CommitEventView::Looked(m@),
            CommitEvent::Unlocked => CommitEventView::Unlocked,
            CommitEvent::Did(b) => CommitEventView::Did(*b),
        }
    }
}

/// A commit in progress.
#[derive(Debug)]
pub struct CommitOp {
    at: CommitStep,
    queries: Vec<(Vec<u8>, u32)>,
    pending: Vec<Pending>,
    staged: Vec<bool>,
    done: Vec<bool>,
    all_ok: bool,
    held: bool,
    result: bool,
}

/// The state of a commit.
#[verifier::ext_equal]
pub struct CommitView {
    pub at: CommitStep,
    /// The files to look at, each with the length it should have.
    pub queries: Seq<(Seq<u8>, u32)>,
    /// What the disk owes.
    pub pending: Seq<PendingView>,
    /// Which of that has its value in a temporary file.
    pub staged: Seq<bool>,
    /// Which of that was paid.
    pub done: Seq<bool>,
    /// Nothing failed so far.
    pub all_ok: bool,
    /// The commit lock is held.
    pub held: bool,
    /// How the commit goes out, once that is known.
    pub result: bool,
}

impl View for CommitOp {
    type V = CommitView;

    closed spec fn view(&self) -> CommitView {
        CommitView {
            at: self.at,
            queries: lens_of(self.queries@),
            pending: pending_of(self.pending@),
            staged: self.staged@,
            done: self.done@,
            all_ok: self.all_ok,
            held: self.held,
            result: self.result,
        }
    }
}

/// A commit that starts. A process without a segment wrote its changes through
/// already, and has to flush only.
pub open spec fn commit_start(st: StoreView) -> CommitView {
    CommitView {
        at: if st.wants_attach() {
            CommitStep::Attach
        } else if st.attached {
            CommitStep::LockCommit
        } else {
            CommitStep::Flush
        },
        queries: Seq::empty(),
        pending: Seq::empty(),
        staged: Seq::empty(),
        done: Seq::empty(),
        all_ok: true,
        held: false,
        result: false,
    }
}

/// The first of `flags` from `i` on that is set; their number if none is.
pub open spec fn next_set(flags: Seq<bool>, i: int) -> int
    decreases flags.len() - i,
{
    if i >= flags.len() {
        flags.len() as int
    } else if flags[i] {
        i
    } else {
        next_set(flags, i + 1)
    }
}

/// Which of `ps` are values to be written.
pub open spec fn writes(ps: Seq<PendingView>) -> Seq<bool> {
    Seq::new(ps.len(), |i: int| ps[i].val is Some)
}

/// Which of `ps` are to be published or unlinked: what was staged, and the
/// deletions.
pub open spec fn publishes(ps: Seq<PendingView>, staged: Seq<bool>) -> Seq<bool> {
    Seq::new(ps.len(), |i: int| staged[i] || ps[i].val is None)
}

/// Those of the first `n` of `ps` whose flag is set.
pub open spec fn chosen(ps: Seq<PendingView>, flags: Seq<bool>, n: int) -> Seq<PendingView>
    decreases n,
{
    if n <= 0 {
        Seq::empty()
    } else if flags[n - 1] {
        chosen(ps, flags, n - 1).push(ps[n - 1])
    } else {
        chosen(ps, flags, n - 1)
    }
}

/// For each file looked at, whether it is not what it should be.
pub open spec fn staleness(queries: Seq<(Seq<u8>, u32)>, metas: Seq<Option<Meta>>) -> Seq<bool> {
    Seq::new(queries.len(), |q: int| differs(queries[q].0, metas[q], queries[q].1))
}

impl CommitView {
    /// What was paid.
    pub open spec fn paid(self) -> Seq<PendingView> {
        chosen(self.pending, self.done, self.pending.len() as int)
    }

    /// There is an answer for each of `pending`.
    pub open spec fn wf(self) -> bool {
        &&& self.staged.len() == self.pending.len()
        &&& self.done.len() == self.pending.len()
    }

    /// The answer fits the step.
    pub open spec fn expects(self, img: Image, ev: CommitEventView) -> bool {
        match self.at {
            CommitStep::Attach => ev is Attached,
            CommitStep::LockCommit => ev is Locked,
            CommitStep::LockWriter => ev is Locked,
            CommitStep::Look => match ev {
                CommitEventView::Looked(metas) => {
                    &&& metas.len() == self.queries.len()
                    &&& self.queries == img.queries()
                },
                _ => false,
            },
            CommitStep::UnlockWriter => ev is Unlocked,
            CommitStep::Stage(i) => ev is Did && i < self.pending.len(),
            CommitStep::FlushStaged => ev is Did,
            CommitStep::Discard(i) => ev is Did && i < self.pending.len(),
            CommitStep::Publish(i) => ev is Did && i < self.pending.len(),
            CommitStep::Unlink(i) => ev is Did && i < self.pending.len(),
            CommitStep::LockAgain => ev is Locked,
            CommitStep::UnlockAgain => ev is Unlocked,
            CommitStep::Flush => ev is Did,
            CommitStep::UnlockCommit => ev is Unlocked,
            CommitStep::Finish(_) => false,
        }
    }

    /// The commit at another step.
    pub open spec fn to(self, at: CommitStep) -> CommitView {
        CommitView { at, ..self }
    }

    /// The commit on its way out.
    pub open spec fn leaving(self, result: bool) -> CommitView {
        CommitView {
            at: if self.held {
                CommitStep::UnlockCommit
            } else {
                CommitStep::Finish(result)
            },
            result,
            ..self
        }
    }

    /// Publishing, from the `i`-th debt on. What was paid has to be noted in
    /// the segment.
    pub open spec fn publish_from(self, i: int) -> CommitView {
        let j = next_set(publishes(self.pending, self.staged), i);
        self.to(
            if j < self.pending.len() {
                if self.staged[j] {
                    CommitStep::Publish(j as usize)
                } else {
                    CommitStep::Unlink(j as usize)
                }
            } else if next_set(self.done, 0) < self.done.len() {
                CommitStep::LockAgain
            } else {
                CommitStep::Flush
            },
        )
    }

    /// Staging, from the `i`-th debt on. What was staged has to be flushed
    /// before any of it is published.
    pub open spec fn stage_from(self, i: int) -> CommitView {
        let j = next_set(writes(self.pending), i);
        if j < self.pending.len() {
            self.to(CommitStep::Stage(j as usize))
        } else if next_set(self.staged, 0) < self.staged.len() {
            self.to(CommitStep::FlushStaged)
        } else {
            self.publish_from(0)
        }
    }

    /// Discarding what was staged, from the `i`-th debt on.
    pub open spec fn discard_from(self, i: int) -> CommitView {
        let j = next_set(self.staged, i);
        if j < self.pending.len() {
            self.to(CommitStep::Discard(j as usize))
        } else {
            self.leaving(false)
        }
    }

    /// The commit, the store and the segment after an answer.
    pub open spec fn next(self, st: StoreView, img: Image, ev: CommitEventView) -> (
        CommitView,
        StoreView,
        Image,
    ) {
        match (self.at, ev) {
            (CommitStep::Attach, CommitEventView::Attached(ok)) => (
                self.to(
                    if ok {
                        CommitStep::LockCommit
                    } else {
                        CommitStep::Flush
                    },
                ),
                st.tried(ok),
                img,
            ),
            (CommitStep::LockCommit, CommitEventView::Locked(ok)) => (
                if ok {
                    CommitView { at: CommitStep::LockWriter, held: true, ..self }
                } else {
                    self.leaving(false)
                },
                st,
                img,
            ),
            (CommitStep::LockWriter, CommitEventView::Locked(ok)) => (
                if ok {
                    CommitView { at: CommitStep::Look, queries: img.queries(), ..self }
                } else {
                    self.leaving(false)
                },
                st,
                img,
            ),
            (CommitStep::Look, CommitEventView::Looked(metas)) => {
                let pending = img.pending(staleness(self.queries, metas));
                (
                    CommitView {
                        at: CommitStep::UnlockWriter,
                        pending,
                        staged: Seq::new(pending.len(), |i: int| false),
                        done: Seq::new(pending.len(), |i: int| false),
                        ..self
                    },
                    st,
                    img,
                )
            },
            (CommitStep::UnlockWriter, CommitEventView::Unlocked) => (
                self.stage_from(0),
                st,
                img,
            ),
            (CommitStep::Stage(i), CommitEventView::Did(ok)) => (
                CommitView {
                    staged: self.staged.update(i as int, ok),
                    all_ok: self.all_ok && ok,
                    ..self
                }.stage_from(i + 1),
                st,
                img,
            ),
            (CommitStep::FlushStaged, CommitEventView::Did(ok)) => (
                if ok {
                    self.publish_from(0)
                } else {
                    self.discard_from(0)
                },
                st,
                img,
            ),
            (CommitStep::Discard(i), CommitEventView::Did(_)) => (
                self.discard_from(i + 1),
                st,
                img,
            ),
            (CommitStep::Publish(i), CommitEventView::Did(ok)) | (
                CommitStep::Unlink(i),
                CommitEventView::Did(ok),
            ) => (
                CommitView {
                    done: self.done.update(i as int, ok),
                    all_ok: self.all_ok && ok,
                    ..self
                }.publish_from(i + 1),
                st,
                img,
            ),
            (CommitStep::LockAgain, CommitEventView::Locked(ok)) => if ok {
                (
                    self.to(CommitStep::UnlockAgain),
                    st,
                    img.retired_upto(self.paid(), self.paid().len() as int),
                )
            } else {
                (self.leaving(false), st, img)
            },
            (CommitStep::UnlockAgain, CommitEventView::Unlocked) => (
                self.to(CommitStep::Flush),
                st,
                img,
            ),
            (CommitStep::Flush, CommitEventView::Did(ok)) => (
                self.leaving(self.all_ok && ok),
                st,
                img,
            ),
            (CommitStep::UnlockCommit, CommitEventView::Unlocked) => (
                CommitView { at: CommitStep::Finish(self.result), held: false, ..self },
                st,
                img,
            ),
            _ => (self, st, img),
        }
    }
}

impl Store {
    /// Starts to write every change to the files, made by whichever process.
    pub fn commit(&mut self) -> (op: CommitOp)
        requires
            old(self).wf(),
        ensures
            final(self).wf(),
            final(self)@ == old(self)@.counted(),
            op@ == commit_start(old(self)@),
            keeps_buffers(*old(self), *final(self)),
            op@.wf(),
    {
        let wants = self.reattach();
        let at = if wants {
            CommitStep::Attach
        } else if !self.degraded() {
            CommitStep::LockCommit
        } else {
            CommitStep::Flush
        };
        let op = CommitOp {
            at,
            queries: Vec::new(),
            pending: Vec::new(),
            staged: Vec::new(),
            done: Vec::new(),
            all_ok: true,
            held: false,
            result: false,
        };
        assert(op@ =~= commit_start(old(self)@));
        op
    }
}

/// The first of `flags` from `i` on that is set; their number if none is.
fn find_set(flags: &Vec<bool>, i: usize) -> (r: usize)
    requires
        i <= flags.len(),
    ensures
        r == next_set(flags@, i as int),
        i <= r <= flags.len(),
{
    let mut j: usize = i;
    while j < flags.len()
        invariant
            i <= j <= flags.len(),
            next_set(flags@, i as int) == next_set(flags@, j as int),
        decreases flags.len() - j,
    {
        if flags[j] {
            return j;
        }
        j += 1;
    }
    j
}

impl CommitOp {
    /// What to do now.
    pub fn now(&self) -> (r: CommitStep)
        ensures
            r == self@.at,
    {
        self.at
    }

    /// The files to look at, each with the length it should have.
    pub fn queries(&self) -> (r: &[(Vec<u8>, u32)])
        ensures
            lens_of(r@) == self@.queries,
    {
        self.queries.as_slice()
    }

    /// What the disk owes.
    pub fn pending(&self) -> (r: &[Pending])
        ensures
            pending_of(r@) == self@.pending,
    {
        self.pending.as_slice()
    }

    /// The first debt from `i` on whose value is to be written.
    fn next_write(&self, i: usize) -> (r: usize)
        requires
            i <= self.pending.len(),
        ensures
            r == next_set(writes(self@.pending), i as int),
            i <= r <= self.pending.len(),
    {
        let mut j: usize = i;
        while j < self.pending.len()
            invariant
                i <= j <= self.pending.len(),
                next_set(writes(self@.pending), i as int) == next_set(
                    writes(self@.pending),
                    j as int,
                ),
            decreases self.pending.len() - j,
        {
            assert(self@.pending[j as int] == self.pending@[j as int]@);
            if self.pending[j].val.is_some() {
                return j;
            }
            j += 1;
        }
        j
    }

    /// The first debt from `i` on that is to be published or unlinked.
    fn next_publish(&self, i: usize) -> (r: usize)
        requires
            self@.wf(),
            i <= self.pending.len(),
        ensures
            r == next_set(publishes(self@.pending, self@.staged), i as int),
            i <= r <= self.pending.len(),
    {
        let mut j: usize = i;
        while j < self.pending.len()
            invariant
                self@.wf(),
                i <= j <= self.pending.len(),
                next_set(publishes(self@.pending, self@.staged), i as int) == next_set(
                    publishes(self@.pending, self@.staged),
                    j as int,
                ),
            decreases self.pending.len() - j,
        {
            assert(self@.pending[j as int] == self.pending@[j as int]@);
            if self.staged[j] || self.pending[j].val.is_none() {
                return j;
            }
            j += 1;
        }
        j
    }

    fn publish_from(&mut self, i: usize)
        requires
            old(self)@.wf(),
            i <= old(self)@.pending.len(),
        ensures
            final(self)@ == old(self)@.publish_from(i as int),
    {
        let j: usize = self.next_publish(i);
        self.at = if j < self.pending.len() {
            if self.staged[j] {
                CommitStep::Publish(j)
            } else {
                CommitStep::Unlink(j)
            }
        } else if find_set(&self.done, 0) < self.done.len() {
            CommitStep::LockAgain
        } else {
            CommitStep::Flush
        };
    }

    fn stage_from(&mut self, i: usize)
        requires
            old(self)@.wf(),
            i <= old(self)@.pending.len(),
        ensures
            final(self)@ == old(self)@.stage_from(i as int),
    {
        let j: usize = self.next_write(i);
        if j < self.pending.len() {
            self.at = CommitStep::Stage(j);
        } else if find_set(&self.staged, 0) < self.staged.len() {
            self.at = CommitStep::FlushStaged;
        } else {
            self.publish_from(0);
        }
    }

    fn discard_from(&mut self, i: usize)
        requires
            old(self)@.wf(),
            i <= old(self)@.pending.len(),
        ensures
            final(self)@ == old(self)@.discard_from(i as int),
    {
        let j: usize = find_set(&self.staged, i);
        if j < self.pending.len() {
            self.at = CommitStep::Discard(j);
        } else {
            self.leave(false);
        }
    }

    fn leave(&mut self, result: bool)
        ensures
            final(self)@ == old(self)@.leaving(result),
    {
        self.at = if self.held {
            CommitStep::UnlockCommit
        } else {
            CommitStep::Finish(result)
        };
        self.result = result;
    }

    /// For each file looked at, whether it is not what it should be.
    fn stale(&self, metas: &Vec<Option<Meta>>) -> (r: Vec<bool>)
        requires
            metas.len() == self@.queries.len(),
        ensures
            r@ == staleness(self@.queries, metas@),
    {
        let mut out: Vec<bool> = Vec::new();
        let mut q: usize = 0;
        while q < self.queries.len()
            invariant
                metas.len() == self.queries.len(),
                q <= self.queries.len(),
                out.len() == q,
                forall|k: int|
                    0 <= k < q ==> out@[k] == staleness(self@.queries, metas@)[k],
            decreases self.queries.len() - q,
        {
            let (key, len) = (&self.queries[q].0, self.queries[q].1);
            assert(self@.queries[q as int] == (key@, len));
            out.push(differs_on_disk(key.as_slice(), metas[q], len));
            q += 1;
        }
        assert(out@ =~= staleness(self@.queries, metas@));
        out
    }

    /// Clears the flags of what was paid.
    fn write_back(&self, seg: &mut Segment)
        requires
            self@.wf(),
            old(seg).wf(),
        ensures
            final(seg).wf(),
            final(seg).base() == old(seg).base(),
            final(seg)@ == old(seg)@.retired_upto(self@.paid(), self@.paid().len() as int),
            final(seg).log() == old(seg).log() + old(seg)@.retire_writes_upto(
                self@.paid(),
                self@.paid().len() as int,
            ),
            by_deeds(old(seg)@, old(seg).log(), final(seg).log()),
    {
        let ghost start = seg@;
        let ghost log0 = seg.log();
        let ghost ps = self@.pending;
        proof {
            lemma_no_deed(start, log0);
            assert(log0 =~= log0 + start.retire_writes_upto(chosen(ps, self.done@, 0), 0));
        }
        let mut n: usize = 0;
        while n < self.pending.len()
            invariant
                self@.wf(),
                ps == self@.pending,
                seg.wf(),
                seg.base() == old(seg).base(),
                n <= self.pending.len(),
                seg@ == start.retired_upto(
                    chosen(ps, self.done@, n as int),
                    chosen(ps, self.done@, n as int).len() as int,
                ),
                seg.log() == log0 + start.retire_writes_upto(
                    chosen(ps, self.done@, n as int),
                    chosen(ps, self.done@, n as int).len() as int,
                ),
                by_deeds(start, log0, seg.log()),
                seg.base().replay(log0) == start,
            decreases self.pending.len() - n,
        {
            if self.done[n] {
                let one = slice_subrange(self.pending.as_slice(), n, n + 1);
                let ghost before = seg@;
                let ghost log1 = seg.log();
                let ghost p = self.pending@[n as int]@;
                assert(ps[n as int] == p);
                seg.commit_writeback(one);
                proof {
                    assert(pending_of(one@) =~= seq![p]);
                    reveal_with_fuel(Image::retired_upto, 2);
                    let so_far = chosen(ps, self.done@, n as int);
                    lemma_retired_push(start, so_far, p);
                    reveal_with_fuel(Image::retire_writes_upto, 2);
                    lemma_retire_writes_push(start, so_far, p);
                    assert(seg.log() =~= log1 + before.retire_writes(p));
                    assert(seg.log() =~= log0 + (start.retire_writes_upto(
                        so_far,
                        so_far.len() as int,
                    ) + before.retire_writes(p)));
                    law_deeds_follow_deeds(seg.base(), start, log0, log1, seg.log());
                }
            }
            n += 1;
        }
    }

    /// Takes the answer to the current step, and says what to do next.
    pub fn step(&mut self, store: &mut Store, seg: &mut Segment, ev: CommitEvent) -> (r: CommitStep)
        requires
            old(self)@.wf(),
            old(self)@.expects(old(seg)@, ev@),
            old(store).wf(),
            old(seg).wf(),
        ensures
            (final(self)@, final(store)@, final(seg)@) == old(self)@.next(
                old(store)@,
                old(seg)@,
                ev@,
            ),
            final(self)@.wf(),
            r == final(self)@.at,
            final(store).wf(),
            keeps_buffers(*old(store), *final(store)),
            final(seg).wf(),
            final(seg).base() == old(seg).base(),
            if old(self)@.at == CommitStep::LockAgain && ev@ == CommitEventView::Locked(true) {
                final(seg).log() == old(seg).log() + old(seg)@.retire_writes_upto(
                    old(self)@.paid(),
                    old(self)@.paid().len() as int,
                )
            } else {
                *final(seg) == *old(seg)
            },
            by_deeds(old(seg)@, old(seg).log(), final(seg).log()),
    {
        proof {
            lemma_no_deed(seg@, seg.log());
        }
        assert(self@.pending.len() == self.pending.len());
        match self.at {
            CommitStep::Attach => {
                if let CommitEvent::Attached(ok) = ev {
                    if ok {
                        store.adopt();
                        self.at = CommitStep::LockCommit;
                    } else {
                        self.at = CommitStep::Flush;
                    }
                }
            },
            CommitStep::LockCommit => {
                if let CommitEvent::Locked(ok) = ev {
                    if ok {
                        self.held = true;
                        self.at = CommitStep::LockWriter;
                    } else {
                        self.leave(false);
                    }
                }
            },
            CommitStep::LockWriter => {
                if let CommitEvent::Locked(ok) = ev {
                    if ok {
                        self.queries = seg.commit_queries();
                        self.at = CommitStep::Look;
                    } else {
                        self.leave(false);
                    }
                }
            },
            CommitStep::Look => {
                if let CommitEvent::Looked(metas) = ev {
                    let stale = self.stale(&metas);
                    self.pending = seg.commit_snapshot(stale.as_slice());
                    let n: usize = self.pending.len();
                    self.staged = vec![false; n];
                    self.done = vec![false; n];
                    self.at = CommitStep::UnlockWriter;
                    assert(self@ =~= old(self)@.next(old(store)@, old(seg)@, ev@).0);
                }
            },
            CommitStep::UnlockWriter => {
                self.stage_from(0);
            },
            CommitStep::Stage(i) => {
                if let CommitEvent::Did(ok) = ev {
                    self.staged.set(i, ok);
                    self.all_ok = self.all_ok && ok;
                    self.stage_from(i + 1);
                }
            },
            CommitStep::FlushStaged => {
                if let CommitEvent::Did(ok) = ev {
                    if ok {
                        self.publish_from(0);
                    } else {
                        self.discard_from(0);
                    }
                }
            },
            CommitStep::Discard(i) => {
                self.discard_from(i + 1);
            },
            CommitStep::Publish(i) | CommitStep::Unlink(i) => {
                if let CommitEvent::Did(ok) = ev {
                    self.done.set(i, ok);
                    self.all_ok = self.all_ok && ok;
                    self.publish_from(i + 1);
                }
            },
            CommitStep::LockAgain => {
                if let CommitEvent::Locked(ok) = ev {
                    if ok {
                        self.write_back(seg);
                        self.at = CommitStep::UnlockAgain;
                    } else {
                        self.leave(false);
                    }
                }
            },
            CommitStep::UnlockAgain => {
                self.at = CommitStep::Flush;
            },
            CommitStep::Flush => {
                if let CommitEvent::Did(ok) = ev {
                    let result = self.all_ok && ok;
                    self.leave(result);
                }
            },
            CommitStep::UnlockCommit => {
                self.held = false;
                self.at = CommitStep::Finish(self.result);
            },
            CommitStep::Finish(_) => {},
        }
        self.at
    }
}

proof fn lemma_retired_prefix(
    img: Image,
    ps: Seq<PendingView>,
    p: PendingView,
    n: int,
)
    requires
        0 <= n <= ps.len(),
    ensures
        img.retire_writes_upto(ps.push(p), n) == img.retire_writes_upto(ps, n),
        img.retired_upto(ps.push(p), n) == img.retired_upto(ps, n),
    decreases n,
{
    if n > 0 {
        lemma_retired_prefix(img, ps, p, n - 1);
        assert(ps.push(p)[n - 1] == ps[n - 1]);
    }
}

proof fn lemma_retire_writes_push(img: Image, ps: Seq<PendingView>, p: PendingView)
    ensures
        img.retire_writes_upto(ps.push(p), ps.len() as int + 1) == img.retire_writes_upto(
            ps,
            ps.len() as int,
        ) + img.retired_upto(ps, ps.len() as int).retire_writes(p),
{
    lemma_retired_prefix(img, ps, p, ps.len() as int);
    assert(ps.push(p)[ps.len() as int] == p);
}

proof fn lemma_retired_push(img: Image, ps: Seq<PendingView>, p: PendingView)
    ensures
        img.retired_upto(ps.push(p), ps.len() as int + 1) == img.retired_upto(
            ps,
            ps.len() as int,
        ).retired(p),
{
    lemma_retired_prefix(img, ps, p, ps.len() as int);
    assert(ps.push(p)[ps.len() as int] == p);
}

} // verus!
