//! That every operation gives back the locks it takes, and touches the segment
//! and the files only under the locks it needs.

use vstd::prelude::*;

use crate::clear::{ClearEventView, ClearStep, ClearView};
use crate::edit::{EditEvent, EditStep, EditView};
use crate::get::{GetEventView, GetStep, GetView};
use crate::getall::{GetallEventView, GetallStep, GetallView};
use crate::image::Image;
use crate::init::{init_start, InitEventView, InitStep, InitView};
use crate::store::StoreView;

verus! {

/// A read holds the writer lock between the step that takes it and the one
/// that releases it, and changes the segment by the former only.
pub proof fn law_get_locks(
    op: GetView,
    st: StoreView,
    img: Image,
    ev: GetEventView,
    writer: bool,
)
    requires
        op.expects(ev),
        writer == (op.at == GetStep::UnlockWriter),
    ensures
        ({
            let (op2, st2, img2) = op.next(st, img, ev);
            let taken = op.at == GetStep::LockWriter && ev == GetEventView::Locked(true);
            let writer2 = taken || writer && op.at != GetStep::UnlockWriter;
            &&& writer2 == (op2.at == GetStep::UnlockWriter)
            &&& op2.at == GetStep::Finish ==> !writer2
            &&& img2 != img ==> taken
        }),
{
}

/// A change holds the writer lock between the step that takes it and the one
/// that releases it, and changes the segment by the former only.
pub proof fn law_edit_locks(
    op: EditView,
    st: StoreView,
    img: Image,
    ev: EditEvent,
    writer: bool,
)
    requires
        op.expects(ev),
        writer == (op.at == EditStep::UnlockWriter),
    ensures
        ({
            let (op2, st2, img2) = op.next(st, img, ev);
            let taken = op.at == EditStep::LockWriter && ev == EditEvent::Locked(true);
            let writer2 = taken || writer && op.at != EditStep::UnlockWriter;
            &&& writer2 == (op2.at == EditStep::UnlockWriter)
            &&& op2.at is Finish ==> !writer2
            &&& img2 != img ==> taken
        }),
{
}

/// A listing holds the writer lock between the step that takes it and the one
/// that releases it.
pub proof fn law_getall_locks(
    op: GetallView,
    st: StoreView,
    img: Image,
    ev: GetallEventView,
    writer: bool,
)
    requires
        op.expects(ev),
        writer == (op.at == GetallStep::UnlockWriter),
    ensures
        ({
            let (op2, st2) = op.next(st, img, ev);
            let taken = op.at == GetallStep::LockWriter && ev == GetallEventView::Locked(true);
            let writer2 = taken || writer && op.at != GetallStep::UnlockWriter;
            &&& writer2 == (op2.at == GetallStep::UnlockWriter)
            &&& op2.at is Finish ==> !writer2
        }),
{
}

/// The locks that a clear holds at a step: the commit lock and the writer lock.
pub open spec fn clear_holds(at: ClearStep) -> (bool, bool) {
    match at {
        ClearStep::Attach => (false, false),
        ClearStep::LockCommit => (false, false),
        ClearStep::LockWriter => (true, false),
        ClearStep::RemoveAll => (true, true),
        ClearStep::UnlockWriter => (true, true),
        ClearStep::Flush => (true, false),
        ClearStep::UnlockCommit => (true, false),
        ClearStep::Finish(_) => (false, false),
    }
}

/// The locks that are held after a step of a clear, by what the step did.
pub open spec fn clear_locks(at: ClearStep, ev: ClearEventView, held: (bool, bool)) -> (
    bool,
    bool,
) {
    match (at, ev) {
        (ClearStep::LockCommit, ClearEventView::Locked(ok)) => (ok, held.1),
        (ClearStep::LockWriter, ClearEventView::Locked(ok)) => (held.0, ok),
        (ClearStep::UnlockWriter, _) => (held.0, false),
        (ClearStep::UnlockCommit, _) => (false, held.1),
        _ => held,
    }
}

/// A clear empties the segment and removes the files under both locks, so that
/// no commit writes a file again behind it; it changes the segment by the step
/// that takes the writer lock only, takes the commit lock first, and gives both
/// back.
pub proof fn law_clear_locks(op: ClearView, st: StoreView, img: Image, ev: ClearEventView)
    requires
        op.expects(ev),
    ensures
        ({
            let (op2, st2, img2) = op.next(st, img, ev);
            &&& clear_locks(op.at, ev, clear_holds(op.at)) == clear_holds(op2.at)
            &&& img2 != img ==> op.at == ClearStep::LockWriter && clear_holds(op2.at) == (
                true,
                true,
            )
            &&& op.at == ClearStep::RemoveAll ==> clear_holds(op.at) == (true, true)
        }),
{
}

/// Bringing the segment up holds the writer lock from the step that takes it,
/// through everything that is done to a segment that was created, to the step
/// that releases it. A segment whose creator cannot have the lock is removed.
pub proof fn law_init_locks(op: InitView, st: StoreView, img: Image, ev: InitEventView)
    requires
        op.ordered(),
        op.expects(ev),
    ensures
        init_start(st).ordered(),
        op.next(st, img, ev).0.ordered(),
        op.next(st, img, ev).0.held && !op.held <==> op.at == InitStep::Lock && ev
            == InitEventView::Did(true),
        op.at == InitStep::Lock && ev == InitEventView::Did(false) ==> op.next(st, img, ev).0.at
            == InitStep::Remove,
        op.next(st, img, ev).2 != img ==> op.held,
{
}

} // verus!
