//! Listing every variable.

use vstd::prelude::*;

use crate::consts::INDEX_SLOTS;
use crate::disk::{load_readable, loaded_upto, Found};
use crate::image::Image;
use crate::shm::{pairs_of, Segment};
use crate::sound::{lemma_value_held, lemma_value_unheld};
use crate::store::{keeps_buffers, Store, StoreView};

verus! {

/// The byte of `=`.
pub const EQUALS: u8 = 61;

/// One record of a listing: the key, an equals sign, the value, and a zero
/// byte.
pub open spec fn record(kv: (Seq<u8>, Seq<u8>)) -> Seq<u8> {
    kv.0.push(EQUALS) + kv.1.push(0)
}

/// The records of the first `n` of `kvs`, one after the other.
pub open spec fn records(kvs: Seq<(Seq<u8>, Seq<u8>)>, n: int) -> Seq<u8>
    decreases n,
{
    if n <= 0 {
        Seq::empty()
    } else {
        records(kvs, n - 1) + record(kvs[n - 1])
    }
}

/// How many of `kvs`, from the first on, fit a buffer of `len` bytes together
/// with the zero byte at the end.
pub open spec fn fitting(kvs: Seq<(Seq<u8>, Seq<u8>)>, len: int, n: int) -> int
    decreases kvs.len() - n,
{
    if n >= kvs.len() {
        kvs.len() as int
    } else if records(kvs, n + 1).len() + 1 > len {
        n
    } else {
        fitting(kvs, len, n + 1)
    }
}

/// What goes into a buffer of `len` bytes: the records that fit, and a zero
/// byte, which makes an empty record; and whether all of them fit.
pub open spec fn packed(kvs: Seq<(Seq<u8>, Seq<u8>)>, len: int) -> (Seq<u8>, bool) {
    let n = fitting(kvs, len, 0);
    (records(kvs, n).push(0), n == kvs.len())
}

/// Puts as many records into a buffer of `len` bytes as fit, from the first
/// on, and says whether all of them did.
pub fn pack(kvs: &Vec<(Vec<u8>, Vec<u8>)>, len: usize) -> (r: (Vec<u8>, bool))
    requires
        len > 0,
    ensures
        (r.0@, r.1) == packed(pairs_of(kvs@), len as int),
        r.0@.len() <= len,
        listed_into(r.0@, r.1, pairs_of(kvs@), len as int),
{
    proof {
        law_listing(pairs_of(kvs@), len as int);
    }
    let ghost views = pairs_of(kvs@);
    let mut out: Vec<u8> = Vec::new();
    let mut n: usize = 0;
    while n < kvs.len()
        invariant
            n <= kvs.len(),
            views == pairs_of(kvs@),
            listed_into(
                packed(views, len as int).0,
                packed(views, len as int).1,
                views,
                len as int,
            ),
            out@ == records(views, n as int),
            out.len() + 1 <= len,
            fitting(views, len as int, 0) == fitting(views, len as int, n as int),
        decreases kvs.len() - n,
    {
        let key = &kvs[n].0;
        let val = &kvs[n].1;
        assert(views[n as int] == (key@, val@));
        assert(records(views, n + 1) == out@ + record((key@, val@)));
        let left: usize = len - out.len() - 1;
        let fits = key.len() < left && val.len() < left - key.len() && left - key.len()
            - val.len() >= 2;
        if !fits {
            out.push(0);
            return (out, false);
        }
        push_bytes(&mut out, key);
        out.push(EQUALS);
        push_bytes(&mut out, val);
        out.push(0);
        assert(out@ =~= records(views, n + 1));
        n += 1;
    }
    out.push(0);
    (out, true)
}

/// Adds `bytes` to `out`.
fn push_bytes(out: &mut Vec<u8>, bytes: &Vec<u8>)
    ensures
        final(out)@ == old(out)@ + bytes@,
{
    let mut more = vstd::slice::slice_to_vec(bytes.as_slice());
    out.append(&mut more);
}

// ------------------------------------------------------------ the listing --

/// What a listing is to do next.
#[derive(Clone, Copy, Debug, PartialEq, Eq, Structural)]
pub enum GetallStep {
    /// Try to attach to the segment.
    Attach,
    /// Take the writer lock, and copy the segment.
    LockWriter,
    /// Release the writer lock.
    UnlockWriter,
    /// Load every file.
    LoadAll,
    /// Nothing: the listing is over, and this is how it went.
    Finish(bool),
}

/// What came of a step of a listing.
#[derive(Debug)]
pub enum GetallEvent {
    /// Whether there is a segment now.
    Attached(bool),
    /// Whether the writer lock is held.
    Locked(bool),
    /// The writer lock was released.
    Unlocked,
    /// The entries of the directory, with the contents of the keys: none if the
    /// directory cannot be read.
    Loaded(Vec<Found>),
}

/// What came of a step of a listing.
pub enum GetallEventView {
    Attached(bool),
    Locked(bool),
    Unlocked,
    Loaded(Seq<Found>),
}

impl View for GetallEvent {
    type V = GetallEventView;

    open spec fn view(&self) -> GetallEventView {
        match self {
            GetallEvent::Attached(b) => GetallEventView::Attached(*b),
            GetallEvent::Locked(b) => GetallEventView::Locked(*b),
            GetallEvent::Unlocked => GetallEventView::Unlocked,
            GetallEvent::Loaded(fs) => GetallEventView::Loaded(fs@),
        }
    }
}

/// A listing in progress.
#[derive(Debug)]
pub struct GetallOp {
    at: GetallStep,
    len: usize,
    out: Option<Vec<u8>>,
    all: bool,
}

/// The state of a listing.
#[verifier::ext_equal]
pub struct GetallView {
    pub at: GetallStep,
    /// The size of the buffer.
    pub len: int,
    /// What goes into the buffer, once that is known.
    pub out: Option<Seq<u8>>,
    /// All of the store went into the buffer.
    pub all: bool,
}

impl View for GetallOp {
    type V = GetallView;

    closed spec fn view(&self) -> GetallView {
        GetallView {
            at: self.at,
            len: self.len as int,
            out: crate::shm::bytes_of(self.out),
            all: self.all,
        }
    }
}

/// What a listing does once it is known whether there is a segment.
pub open spec fn getall_route(attached: bool, len: int) -> GetallStep {
    if len == 0 {
        GetallStep::Finish(false)
    } else if attached {
        GetallStep::LockWriter
    } else {
        GetallStep::LoadAll
    }
}

/// A listing that starts.
pub open spec fn getall_start(st: StoreView, len: int) -> GetallView {
    GetallView {
        at: if st.wants_attach() {
            GetallStep::Attach
        } else {
            getall_route(st.attached, len)
        },
        len,
        out: None,
        all: false,
    }
}

impl GetallView {
    /// The answer fits the step.
    pub open spec fn expects(self, ev: GetallEventView) -> bool {
        match self.at {
            GetallStep::Attach => ev is Attached,
            GetallStep::LockWriter => ev is Locked && self.len > 0,
            GetallStep::UnlockWriter => ev is Unlocked,
            GetallStep::LoadAll => ev is Loaded && self.len > 0,
            GetallStep::Finish(_) => false,
        }
    }

    /// The listing and the store after an answer. The segment does not change.
    /// Without the lock nothing is listed: a value could change while it is
    /// copied.
    pub open spec fn next(self, st: StoreView, img: Image, ev: GetallEventView) -> (
        GetallView,
        StoreView,
    ) {
        match (self.at, ev) {
            (GetallStep::Attach, GetallEventView::Attached(ok)) => (
                GetallView { at: getall_route(ok, self.len), ..self },
                st.tried(ok),
            ),
            (GetallStep::LockWriter, GetallEventView::Locked(ok)) => if ok {
                (
                    GetallView {
                        at: GetallStep::UnlockWriter,
                        out: Some(packed(img.live(), self.len).0),
                        all: packed(img.live(), self.len).1,
                        ..self
                    },
                    st,
                )
            } else {
                (GetallView { at: GetallStep::Finish(false), ..self }, st)
            },
            (GetallStep::UnlockWriter, GetallEventView::Unlocked) => (
                GetallView { at: GetallStep::Finish(self.all), ..self },
                st,
            ),
            (GetallStep::LoadAll, GetallEventView::Loaded(fs)) => {
                let kvs = loaded_upto(fs, fs.len() as int);
                (
                    GetallView {
                        at: GetallStep::Finish(packed(kvs, self.len).1),
                        out: Some(packed(kvs, self.len).0),
                        all: packed(kvs, self.len).1,
                        ..self
                    },
                    st,
                )
            },
            _ => (self, st),
        }
    }
}

fn route(attached: bool, len: usize) -> (r: GetallStep)
    ensures
        r == getall_route(attached, len as int),
{
    if len == 0 {
        GetallStep::Finish(false)
    } else if attached {
        GetallStep::LockWriter
    } else {
        GetallStep::LoadAll
    }
}

impl Store {
    /// Starts to list every variable into a buffer of `len` bytes, in no
    /// particular order.
    pub fn getall(&mut self, len: usize) -> (op: GetallOp)
        requires
            old(self).wf(),
        ensures
            final(self).wf(),
            final(self)@ == old(self)@.counted(),
            op@ == getall_start(old(self)@, len as int),
            keeps_buffers(*old(self), *final(self)),
    {
        let at = if self.reattach() {
            GetallStep::Attach
        } else {
            route(!self.degraded(), len)
        };
        GetallOp { at, len, out: None, all: false }
    }
}

impl GetallOp {
    /// What to do now.
    pub fn now(&self) -> (r: GetallStep)
        ensures
            r == self@.at,
    {
        self.at
    }

    /// What goes into the buffer, if anything does.
    pub fn out(&self) -> (r: Option<&[u8]>)
        ensures
            match r {
                Some(b) => self@.out == Some(b@),
                None => self@.out is None,
            },
    {
        match &self.out {
            Some(b) => Some(b.as_slice()),
            None => None,
        }
    }

    /// Takes the answer to the current step, and says what to do next.
    pub fn step(&mut self, store: &mut Store, seg: &Segment, ev: GetallEvent) -> (r: GetallStep)
        requires
            old(self)@.expects(ev@),
            old(store).wf(),
            seg.wf(),
        ensures
            (final(self)@, final(store)@) == old(self)@.next(old(store)@, seg@, ev@),
            r == final(self)@.at,
            final(store).wf(),
            keeps_buffers(*old(store), *final(store)),
    {
        match ev {
            GetallEvent::Attached(ok) => {
                if ok {
                    store.adopt();
                }
                self.at = route(ok, self.len);
            },
            GetallEvent::Locked(ok) => {
                if ok {
                    let (out, all) = pack(&seg.for_each_live(), self.len);
                    self.out = Some(out);
                    self.all = all;
                    self.at = GetallStep::UnlockWriter;
                } else {
                    self.at = GetallStep::Finish(false);
                }
            },
            GetallEvent::Unlocked => {
                self.at = GetallStep::Finish(self.all);
            },
            GetallEvent::Loaded(fs) => {
                let kvs = load_readable(&fs);
                let (out, all) = pack(&kvs, self.len);
                self.out = Some(out);
                self.all = all;
                self.at = GetallStep::Finish(all);
            },
        }
        self.at
    }
}

// -------------------------------------------------------------------- laws --

proof fn lemma_live(img: Image, n: int)
    requires
        img.sound(),
        0 <= n <= INDEX_SLOTS,
    ensures
        forall|m: int|
            0 <= m < img.live_upto(n).len() ==> exists|i: int|
                0 <= i < n && #[trigger] img.live_at(i) == Some(#[trigger] img.live_upto(n)[m]),
        forall|i: int|
            0 <= i < n && #[trigger] img.live_at(i) is Some ==> img.live_upto(n).contains(
                img.live_at(i)->0,
            ),
        forall|a: int, b: int|
            0 <= a < img.live_upto(n).len() && 0 <= b < img.live_upto(n).len()
                && (#[trigger] img.live_upto(n)[a]).0 == (#[trigger] img.live_upto(n)[b]).0 ==> a
                == b,
    decreases n,
{
    if n > 0 {
        lemma_live(img, n - 1);
        let before = img.live_upto(n - 1);
        let all = img.live_upto(n);
        match img.live_at(n - 1) {
            Some(kv) => {
                assert(all == before.push(kv));
                assert forall|m: int| 0 <= m < all.len() implies exists|i: int|
                    0 <= i < n && #[trigger] img.live_at(i) == Some(#[trigger] all[m]) by {
                    if m < before.len() {
                        assert(all[m] == before[m]);
                        let i = choose|i: int|
                            0 <= i < n - 1 && #[trigger] img.live_at(i) == Some(before[m]);
                        assert(img.live_at(i) == Some(all[m]));
                    } else {
                        assert(img.live_at(n - 1) == Some(all[m]));
                    }
                }
                assert forall|i: int|
                    0 <= i < n && #[trigger] img.live_at(i) is Some implies all.contains(
                    img.live_at(i)->0,
                ) by {
                    if i < n - 1 {
                        let m = choose|m: int|
                            0 <= m < before.len() && before[m] == img.live_at(i)->0;
                        assert(all[m] == before[m]);
                    } else {
                        assert(all[all.len() - 1] == kv);
                    }
                }
                assert forall|m: int| 0 <= m < before.len() implies (#[trigger] all[m]).0
                    != kv.0 by {
                    assert(all[m] == before[m]);
                    let i = choose|i: int|
                        0 <= i < n - 1 && #[trigger] img.live_at(i) == Some(before[m]);
                    if before[m].0 == kv.0 {
                        assert(img.holds(i, kv.0));
                        assert(img.holds(n - 1, kv.0));
                    }
                }
            },
            None => {},
        }
    }
}

/// The listing of a segment has every key that has a value, with that value,
/// once, and nothing else.
pub proof fn law_live(img: Image, key: Seq<u8>, val: Seq<u8>)
    requires
        img.sound(),
    ensures
        img.live().contains((key, val)) <==> img.value(key) == Some(val),
        forall|a: int, b: int|
            0 <= a < img.live().len() && 0 <= b < img.live().len() && (#[trigger] img.live()[a]).0
                == (#[trigger] img.live()[b]).0 ==> a == b,
{
    lemma_live(img, INDEX_SLOTS as int);
    let kvs = img.live();
    if kvs.contains((key, val)) {
        let m = choose|m: int| 0 <= m < kvs.len() && kvs[m] == (key, val);
        let i = choose|i: int|
            0 <= i < INDEX_SLOTS && #[trigger] img.live_at(i) == Some(
                img.live_upto(INDEX_SLOTS as int)[m],
            );
        assert(img.holds(i, key));
        lemma_value_held(img, i, key);
    }
    if img.value(key) == Some(val) {
        if exists|i: int| #[trigger] img.holds(i, key) {
            let i = choose|i: int| #[trigger] img.holds(i, key);
            lemma_value_held(img, i, key);
            assert(img.live_at(i) == Some((key, val)));
        } else {
            lemma_value_unheld(img, key);
        }
    }
}

proof fn lemma_records_grow(kvs: Seq<(Seq<u8>, Seq<u8>)>, n: int, m: int)
    requires
        0 <= n <= m,
    ensures
        records(kvs, n).len() <= records(kvs, m).len(),
    decreases m,
{
    if n < m {
        lemma_records_grow(kvs, n, m - 1);
    }
}

proof fn lemma_fitting(kvs: Seq<(Seq<u8>, Seq<u8>)>, len: int, n: int)
    requires
        0 <= n <= kvs.len(),
        records(kvs, n).len() + 1 <= len,
    ensures
        n <= fitting(kvs, len, n) <= kvs.len(),
        records(kvs, fitting(kvs, len, n)).len() + 1 <= len,
        fitting(kvs, len, n) < kvs.len() ==> records(kvs, kvs.len() as int).len() + 1 > len,
    decreases kvs.len() - n,
{
    if n < kvs.len() {
        if records(kvs, n + 1).len() + 1 > len {
            lemma_records_grow(kvs, n + 1, kvs.len() as int);
        } else {
            lemma_fitting(kvs, len, n + 1);
        }
    }
}

/// A listing stays inside its buffer. It has everything exactly when all the
/// records and the zero byte behind them fit; a shorter one ends with a whole
/// record.
pub proof fn law_packed(kvs: Seq<(Seq<u8>, Seq<u8>)>, len: int)
    requires
        len > 0,
    ensures
        packed(kvs, len).0.len() <= len,
        packed(kvs, len).1 <==> records(kvs, kvs.len() as int).len() + 1 <= len,
        packed(kvs, len).1 ==> packed(kvs, len).0 == records(kvs, kvs.len() as int).push(0),
        exists|n: int|
            0 <= n <= kvs.len() && packed(kvs, len).0 == (#[trigger] records(kvs, n)).push(0),
{
    lemma_fitting(kvs, len, 0);
    let n = fitting(kvs, len, 0);
    assert(packed(kvs, len).0 == records(kvs, n).push(0));
}

/// Where the record of `kvs[n]` starts, if every record takes two bytes more than
/// its key and its value.
pub open spec fn offset(kvs: Seq<(Seq<u8>, Seq<u8>)>, n: int) -> int
    decreases n,
{
    if n <= 0 {
        0
    } else {
        offset(kvs, n - 1) + kvs[n - 1].0.len() + kvs[n - 1].1.len() + 2
    }
}

/// At the place of its record, `out` has the whole key, `=`, the whole value and
/// a zero byte.
pub open spec fn shows(out: Seq<u8>, kvs: Seq<(Seq<u8>, Seq<u8>)>, m: int) -> bool {
    let o = offset(kvs, m);
    let k = kvs[m].0;
    let v = kvs[m].1;
    &&& 0 <= o
    &&& o + k.len() + v.len() + 2 <= out.len()
    &&& forall|c: int| 0 <= c < k.len() ==> #[trigger] out[o + c] == k[c]
    &&& out[o + k.len()] == 61
    &&& forall|c: int| 0 <= c < v.len() ==> #[trigger] out[o + k.len() + 1 + c] == v[c]
    &&& out[o + k.len() + 1 + v.len()] == 0
}

/// `out` is the first `n` of `kvs`, one record behind the other, and a zero byte.
pub open spec fn lists(out: Seq<u8>, kvs: Seq<(Seq<u8>, Seq<u8>)>, n: int) -> bool {
    &&& 0 <= n <= kvs.len()
    &&& out.len() == offset(kvs, n) + 1
    &&& out.last() == 0
    &&& forall|m: int| 0 <= m < n ==> #[trigger] shows(out, kvs, m)
}

/// `out` is as many of `kvs` as fit `len` bytes, from the first on, and `all`
/// says whether that is all of them.
pub open spec fn listed_into(
    out: Seq<u8>,
    all: bool,
    kvs: Seq<(Seq<u8>, Seq<u8>)>,
    len: int,
) -> bool {
    exists|n: int|
        {
            &&& #[trigger] lists(out, kvs, n)
            &&& out.len() <= len
            &&& all <==> n == kvs.len()
            &&& n < kvs.len() ==> offset(kvs, n + 1) + 1 > len
        }
}

proof fn lemma_records_show(kvs: Seq<(Seq<u8>, Seq<u8>)>, n: int, more: Seq<u8>)
    requires
        0 <= n <= kvs.len(),
    ensures
        records(kvs, n).len() == offset(kvs, n),
        forall|m: int| 0 <= m < n ==> #[trigger] shows(records(kvs, n) + more, kvs, m),
    decreases n,
{
    if n > 0 {
        let r = record(kvs[n - 1]);
        let k = kvs[n - 1].0;
        let v = kvs[n - 1].1;
        let before = records(kvs, n - 1);
        let out = records(kvs, n) + more;
        lemma_records_show(kvs, n - 1, r + more);
        assert(out =~= before + (r + more));
        let o = offset(kvs, n - 1);
        assert(r.len() == k.len() + v.len() + 2);
        assert forall|c: int| 0 <= c < r.len() implies #[trigger] r[c] == out[o + c] by {}
        assert(shows(out, kvs, n - 1)) by {
            assert forall|c: int| 0 <= c < k.len() implies #[trigger] out[o + c] == k[c] by {
                assert(r[c] == k[c]);
            }
            assert(r[k.len() as int] == 61);
            assert(out[o + k.len()] == r[k.len() as int]);
            assert forall|c: int| 0 <= c < v.len() implies #[trigger] out[o + k.len() + 1 + c]
                == v[c] by {
                assert(r[k.len() + 1 + c] == v[c]);
                assert(out[o + (k.len() + 1 + c)] == r[k.len() + 1 + c]);
            }
            let e = k.len() + 1 + v.len() as int;
            assert(r[e] == 0);
            assert(out[o + e] == r[e]);
        }
    }
}

proof fn lemma_fitting_stops(kvs: Seq<(Seq<u8>, Seq<u8>)>, len: int, n: int)
    requires
        0 <= n <= kvs.len(),
    ensures
        fitting(kvs, len, n) < kvs.len() ==> records(kvs, fitting(kvs, len, n) + 1).len() + 1 > len,
    decreases kvs.len() - n,
{
    if n < kvs.len() && records(kvs, n + 1).len() + 1 <= len {
        lemma_fitting_stops(kvs, len, n + 1);
    }
}

/// A listing can be read back: each record is the whole key, `=`, the whole value
/// and a zero byte, one behind the other, and a zero byte ends them. It has as
/// many records as fit the buffer, from the first on, and says that it has
/// everything exactly when it does.
pub proof fn law_listing(kvs: Seq<(Seq<u8>, Seq<u8>)>, len: int)
    requires
        len > 0,
    ensures
        listed_into(packed(kvs, len).0, packed(kvs, len).1, kvs, len),
        packed(kvs, len).1 <==> offset(kvs, kvs.len() as int) + 1 <= len,
{
    let n = fitting(kvs, len, 0);
    lemma_fitting(kvs, len, 0);
    lemma_fitting_stops(kvs, len, 0);
    lemma_records_show(kvs, n, seq![0u8]);
    assert(records(kvs, n).push(0) =~= records(kvs, n) + seq![0u8]);
    lemma_records_show(kvs, kvs.len() as int, Seq::empty());
    if n < kvs.len() {
        lemma_records_show(kvs, n + 1, Seq::empty());
    }
    assert(lists(packed(kvs, len).0, kvs, n));
}

/// A process that has a segment, and a buffer, lists what the segment holds, by
/// taking the lock and releasing it: every variable once, with its whole value,
/// and no other, as far as the buffer goes. It succeeds exactly when all of it
/// fits. Without the lock it fails.
pub proof fn law_attached_listing(st: StoreView, img: Image, len: int)
    requires
        st.attached,
        len > 0,
        img.sound(),
    ensures
        ({
            let op = getall_start(st, len);
            let (op1, st1) = op.next(st, img, GetallEventView::Locked(true));
            let (op2, st2) = op1.next(st1, img, GetallEventView::Unlocked);
            let (no, _) = op.next(st, img, GetallEventView::Locked(false));
            &&& op.at == GetallStep::LockWriter
            &&& op1.at == GetallStep::UnlockWriter
            &&& no.at == GetallStep::Finish(false)
            &&& no.out is None
            &&& st2 == st
            &&& op2.out is Some
            &&& exists|kvs: Seq<(Seq<u8>, Seq<u8>)>, all: bool|
                {
                    &&& op2.at == GetallStep::Finish(all)
                    &&& #[trigger] listed_into(op2.out->0, all, kvs, len)
                    &&& all <==> offset(kvs, kvs.len() as int) + 1 <= len
                    &&& every_variable_once(img, kvs)
                }
        }),
{
    let kvs = img.live();
    law_listing(kvs, len);
    lemma_every_variable_once(img);
    let all = packed(kvs, len).1;
    let op = getall_start(st, len);
    let (op1, st1) = op.next(st, img, GetallEventView::Locked(true));
    let (op2, st2) = op1.next(st1, img, GetallEventView::Unlocked);
    assert(op2.out == Some(packed(kvs, len).0));
    assert(listed_into(op2.out->0, all, kvs, len));
}

/// `kvs` has every key that has a value, with that value, once, and nothing else.
pub open spec fn every_variable_once(img: Image, kvs: Seq<(Seq<u8>, Seq<u8>)>) -> bool {
    &&& forall|key: Seq<u8>, val: Seq<u8>|
        #[trigger] kvs.contains((key, val)) <==> img.value(key) == Some(val)
    &&& forall|a: int, b: int|
        0 <= a < b < kvs.len() ==> (#[trigger] kvs[a]).0 != (#[trigger] kvs[b]).0
}

proof fn lemma_every_variable_once(img: Image)
    requires
        img.sound(),
    ensures
        every_variable_once(img, img.live()),
{
    assert forall|key: Seq<u8>, val: Seq<u8>|
        #[trigger] img.live().contains((key, val)) <==> img.value(key) == Some(val) by {
        law_live(img, key, val);
    }
    law_live(img, Seq::empty(), Seq::empty());
}

/// A process without a segment lists what it can read of the files of keys, and
/// succeeds exactly when all of that fits.
pub proof fn law_detached_listing(st: StoreView, img: Image, len: int, fs: Seq<Found>)
    requires
        !st.attached,
        !st.wants_attach(),
        len > 0,
    ensures
        ({
            let op = getall_start(st, len);
            let (op1, st1) = op.next(st, img, GetallEventView::Loaded(fs));
            let kvs = loaded_upto(fs, fs.len() as int);
            let all = offset(kvs, kvs.len() as int) + 1 <= len;
            &&& op.at == GetallStep::LoadAll
            &&& st1 == st
            &&& op1.at == GetallStep::Finish(all)
            &&& op1.out is Some
            &&& listed_into(op1.out->0, all, kvs, len)
        }),
{
    law_listing(loaded_upto(fs, fs.len() as int), len);
}

/// A listing into no room fails. A process that wants to attach tries that
/// first, and then goes on as one that has, or has not, a segment.
pub proof fn law_listing_starts(st: StoreView, img: Image, len: int, ok: bool)
    ensures
        st.wants_attach() ==> getall_start(st, len).at == GetallStep::Attach,
        !st.wants_attach() && len == 0 ==> getall_start(st, len).at == GetallStep::Finish(false),
        st.wants_attach() ==> ({
            let (op, st1) = getall_start(st, len).next(st, img, GetallEventView::Attached(ok));
            &&& st1.attached == ok
            &&& op.out is None
            &&& op.len == len
            &&& op.at == if len == 0 {
                GetallStep::Finish(false)
            } else if ok {
                GetallStep::LockWriter
            } else {
                GetallStep::LoadAll
            }
        }),
{
}

} // verus!
