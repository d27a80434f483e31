//! That what a caller holds stays where it is.
//!
//! A read hands out a buffer of this process. While the key does not change,
//! every read of it hands out the same one; a buffer that was handed out is
//! kept when another takes its place.

use vstd::prelude::*;

use crate::cache::{entry_in, terminated};
use crate::coherence::{law_look_tells_the_value, looked_at};
use crate::edit::{EditEvent, EditStep, EditView};
use crate::get::{GetEventView, GetStep, GetView};

use crate::image::Image;

use crate::store::{keeps_buffer, keeps_buffers, Store};

verus! {

/// The store of a process, and the segment, at one time.
pub struct Moment {
    pub store: Store,
    pub img: Image,
}

/// What happens between one moment and the next.
pub enum Turn {
    /// Another process does something to the segment, or this one does
    /// something that does not touch its cache.
    Other,
    /// A step of a read of some key.
    Get { op: GetView, ev: GetEventView },
    /// A step of a change of some key.
    Edit { op: EditView, ev: EditEvent },
}

/// What happens between two moments is `t`, and all that it has to do with
/// `key` is to read its value `v`, or to set it to what it is. The process goes
/// by the segment, and not by the files.
pub open spec fn turned(
    m: Moment,
    t: Turn,
    n: Moment,
    key: Seq<u8>,
    v: Option<Seq<u8>>,
) -> bool {
    &&& keeps_buffers(m.store, n.store)
    &&& match t {
        Turn::Other => n.store@ == m.store@,
        Turn::Get { op, ev } => {
            &&& op.expects(ev)
            &&& op.at != GetStep::Attach
            &&& op.at != GetStep::ReadFile
            &&& op.key == key && op.fresh is Some ==> op.fresh->0 == v
            &&& op.key == key && ev is Sampled ==> looked_at(m.img, key, ev->read)
            &&& (n.store@, n.img) == ({
                let (_, st, img) = op.next(m.store@, m.img, ev);
                (st, img)
            })
        },
        Turn::Edit { op, ev } => {
            &&& op.expects(ev)
            &&& {
                ||| op.at == EditStep::LoadSlot
                ||| op.at == EditStep::LockWriter
                ||| op.at == EditStep::UnlockWriter
            }
            &&& op.key == key ==> op.val == v
            &&& (n.store@, n.img) == ({
                let (_, st, img) = op.next(m.store@, m.img, ev);
                (st, img)
            })
        },
    }
}

/// The moments follow one another by the turns, and the value of `key` is `v`
/// all the time.
pub open spec fn unchanged_meanwhile(
    ms: Seq<Moment>,
    ts: Seq<Turn>,
    key: Seq<u8>,
    v: Option<Seq<u8>>,
) -> bool {
    &&& ms.len() == ts.len() + 1
    &&& forall|i: int|
        0 <= i < ms.len() ==> (#[trigger] ms[i]).img.sound() && ms[i].img.value(key) == v
    &&& forall|i: int| 0 <= i < ts.len() ==> turned(ms[i], #[trigger] ts[i], ms[i + 1], key, v)
}

proof fn lemma_turn(m: Moment, t: Turn, n: Moment, key: Seq<u8>, v: Option<Seq<u8>>)
    requires
        m.img.sound(),
        m.img.value(key) == v,
        turned(m, t, n, key, v),
        entry_in(m.store@.cache, key).value == terminated(v),
    ensures
        entry_in(n.store@.cache, key).value == terminated(v),
        n.store.buffer(key) == m.store.buffer(key),
        n.store.retired_buffer(key) == m.store.retired_buffer(key),
{
    assert(keeps_buffer(m.store, n.store, key));
    match t {
        Turn::Get { op, ev } => {
            match ev {
                GetEventView::Sampled { before, read } => {
                    if op.key == key {
                        law_look_tells_the_value(m.img, key, read);
                    }
                },
                _ => {},
            }
        },
        _ => {},
    }
}

/// While a key does not change, the buffer that reads of it hand out is the
/// very same, whatever is done to other keys by any process, whatever is
/// compacted, and however often the key is read, or set to the value that it
/// has; and so is the buffer kept back from before.
pub proof fn law_unchanged_key_keeps_its_buffer(
    ms: Seq<Moment>,
    ts: Seq<Turn>,
    key: Seq<u8>,
    v: Option<Seq<u8>>,
)
    requires
        unchanged_meanwhile(ms, ts, key, v),
        entry_in(ms[0].store@.cache, key).value == terminated(v),
    ensures
        entry_in(ms.last().store@.cache, key).value == terminated(v),
        ms.last().store.buffer(key) == ms[0].store.buffer(key),
        ms.last().store.retired_buffer(key) == ms[0].store.retired_buffer(key),
    decreases ts.len(),
{
    if ts.len() > 0 {
        let ms1 = ms.drop_last();
        let ts1 = ts.drop_last();
        assert(unchanged_meanwhile(ms1, ts1, key, v)) by {
            assert forall|i: int| 0 <= i < ms1.len() implies (#[trigger] ms1[i]).img.sound()
                && ms1[i].img.value(key) == v by {
                assert(ms[i].img.sound());
            }
            assert forall|i: int| 0 <= i < ts1.len() implies turned(
                ms1[i],
                #[trigger] ts1[i],
                ms1[i + 1],
                key,
                v,
            ) by {
                assert(turned(ms[i], ts[i], ms[i + 1], key, v));
            }
        }
        law_unchanged_key_keeps_its_buffer(ms1, ts1, key, v);
        let n = ts.len() - 1;
        assert(turned(ms[n], ts[n], ms[n + 1], key, v));
        assert(ms1.last() == ms[n]);
        assert(ms[n].img.sound());
        lemma_turn(ms[n], ts[n], ms[n + 1], key, v);
    }
}

/// A buffer that was handed out is kept when another value takes its place: it
/// is the one kept back then.
pub proof fn law_replaced_buffer_is_kept(was: Store, now: Store, key: Seq<u8>)
    requires
        keeps_buffers(was, now),
        entry_in(was@.cache, key).value is Some,
        entry_in(now@.cache, key).value != entry_in(was@.cache, key).value,
    ensures
        now.retired_buffer(key) == was.buffer(key),
{
    assert(keeps_buffer(was, now, key));
}

/// A buffer that was handed out before the process attached is kept by
/// attaching, and by the first read after it, whatever that finds.
pub proof fn law_buffer_survives_attaching(
    detached: Store,
    attached: Store,
    after: Store,
    key: Seq<u8>,
    found: Option<Seq<u8>>,
    seen: u64,
)
    requires
        entry_in(detached@.cache, key).value is Some,
        attached@ == detached@.adopted(),
        keeps_buffers(detached, attached),
        after@ == attached@.installed(key, found, seen),
        keeps_buffers(attached, after),
    ensures
        attached.retired_buffer(key) == detached.buffer(key),
        after.retired_buffer(key) == detached.buffer(key),
{
    assert(keeps_buffer(detached, attached, key));
    assert(keeps_buffer(attached, after, key));
    assert(entry_in(attached@.cache, key) == entry_in(detached@.cache, key).invalidated());
}

} // verus!
