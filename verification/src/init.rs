//! Attaching to the shared segment, and bringing it up.
//!
//! Populating the segment is the one operation whose result depends on when it
//! happens: it decides what the store contains for every process for the rest
//! of the boot. So it happens only when asked for.

use vstd::prelude::*;

use crate::disk::{all_read, load_all, loaded_upto, store_available, Found, Kind, Meta};
use crate::image::{Image, WriteView};
use crate::shm::{adds_unpublished, pairs_of, Segment, SEGMENT_SIZE};
use crate::store::{keeps_buffers, Store, StoreView};

verus! {

// --------------------------------------------------------------- attaching --

/// What attaching to the segment is to do next.
#[derive(Clone, Copy, Debug, PartialEq, Eq, Structural)]
pub enum AttachStep {
    /// Open the shared object, without creating it.
    Open,
    /// Ask for the size of the object: touching pages past its end is fatal.
    Size,
    /// Map the object.
    Mmap,
    /// Copy the header.
    Look,
    /// Take the writer lock and release it: whoever is populating the segment
    /// holds it.
    Wait,
    /// Copy the header again, and look at the device of the store.
    Check,
    /// Nothing: this is whether the segment can be used.
    Finish(bool),
}

/// What came of a step of attaching.
#[derive(Clone, Copy, Debug, PartialEq, Eq, Structural)]
pub enum AttachEvent {
    /// Whether the step succeeded.
    Did(bool),
    /// The size of the object, if it could be had.
    Size(Option<u64>),
    /// The header was copied.
    Looked,
    /// The lock was waited for.
    Waited,
    /// The header was copied, and this is the device of the store.
    Checked(Option<u64>),
}

/// Attaching in progress.
#[derive(Debug)]
pub struct AttachOp {
    at: AttachStep,
}

/// The answer fits the step.
pub open spec fn attach_expects(at: AttachStep, ev: AttachEvent) -> bool {
    match at {
        AttachStep::Open => ev is Did,
        AttachStep::Size => ev is Size,
        AttachStep::Mmap => ev is Did,
        AttachStep::Look => ev is Looked,
        AttachStep::Wait => ev is Waited,
        AttachStep::Check => ev is Checked,
        AttachStep::Finish(_) => false,
    }
}

/// What comes after a step. A segment that is not ready is still being
/// populated, or its creator died; after waiting for the lock it is looked at
/// once more.
pub open spec fn attach_next(at: AttachStep, img: Image, ev: AttachEvent) -> AttachStep {
    match (at, ev) {
        (AttachStep::Open, AttachEvent::Did(ok)) => if ok {
            AttachStep::Size
        } else {
            AttachStep::Finish(false)
        },
        (AttachStep::Size, AttachEvent::Size(size)) => match size {
            Some(n) if n >= SEGMENT_SIZE => AttachStep::Mmap,
            _ => AttachStep::Finish(false),
        },
        (AttachStep::Mmap, AttachEvent::Did(ok)) => if ok {
            AttachStep::Look
        } else {
            AttachStep::Finish(false)
        },
        (AttachStep::Look, AttachEvent::Looked) => if img.ready == 0 {
            AttachStep::Wait
        } else {
            AttachStep::Check
        },
        (AttachStep::Wait, AttachEvent::Waited) => AttachStep::Check,
        (AttachStep::Check, AttachEvent::Checked(dev)) => AttachStep::Finish(img.usable(dev)),
        _ => at,
    }
}

impl AttachOp {
    /// What is to be done.
    pub closed spec fn at(self) -> AttachStep {
        self.at
    }

    /// What to do now.
    pub fn now(&self) -> (r: AttachStep)
        ensures
            r == self.at(),
    {
        self.at
    }

    /// Takes the answer to the current step, and says what to do next.
    pub fn step(&mut self, seg: &Segment, ev: AttachEvent) -> (r: AttachStep)
        requires
            attach_expects(old(self).at(), ev),
        ensures
            final(self).at() == attach_next(old(self).at(), seg@, ev),
            r == final(self).at(),
    {
        self.at = match (self.at, ev) {
            (AttachStep::Open, AttachEvent::Did(ok)) => if ok {
                AttachStep::Size
            } else {
                AttachStep::Finish(false)
            },
            (AttachStep::Size, AttachEvent::Size(size)) => match size {
                Some(n) => if n >= SEGMENT_SIZE as u64 {
                    AttachStep::Mmap
                } else {
                    AttachStep::Finish(false)
                },
                None => AttachStep::Finish(false),
            },
            (AttachStep::Mmap, AttachEvent::Did(ok)) => if ok {
                AttachStep::Look
            } else {
                AttachStep::Finish(false)
            },
            (AttachStep::Look, AttachEvent::Looked) => if !seg.is_ready() {
                AttachStep::Wait
            } else {
                AttachStep::Check
            },
            (AttachStep::Wait, AttachEvent::Waited) => AttachStep::Check,
            (AttachStep::Check, AttachEvent::Checked(dev)) => AttachStep::Finish(
                seg.validate(dev).is_ok(),
            ),
            (at, _) => at,
        };
        self.at
    }
}

impl Segment {
    /// Starts to attach to a segment that is there. None is ever made here.
    pub fn attach() -> (op: AttachOp)
        ensures
            op.at() == AttachStep::Open,
    {
        AttachOp { at: AttachStep::Open }
    }
}

/// Attaching succeeds only with a segment that is published, has this layout,
/// and describes the filesystem that the store is on; and never without having
/// looked.
pub proof fn law_attach_checks(at: AttachStep, img: Image, ev: AttachEvent)
    requires
        attach_expects(at, ev),
        attach_next(at, img, ev) == AttachStep::Finish(true),
    ensures
        at == AttachStep::Check,
        ev is Checked && img.usable(ev->Checked_0),
{
}

// ------------------------------------------------------------- bringing up --

/// What bringing the segment up is to do next.
#[derive(Clone, Copy, Debug, PartialEq, Eq, Structural)]
pub enum InitStep {
    /// See whether the store's directory can be used, and has a device.
    Available,
    /// Try to attach to the segment.
    Attach,
    /// Remove the name of the segment: what it names cannot be used.
    Retire,
    /// Create the shared object, unless there is one.
    Create,
    /// Try to attach to the segment of whoever was faster.
    AttachTheirs,
    /// Take the writer lock and release it: whoever was faster holds it.
    Wait,
    /// Try to attach once more.
    AttachLast,
    /// Take the writer lock.
    Lock,
    /// Give the object its size, which makes it all zeros.
    Resize,
    /// Ask for the size of the object: touching pages past its end is fatal.
    Size,
    /// Map the object.
    Mmap,
    /// Ask for the device of the store.
    Device,
    /// Load every file.
    Load,
    /// Release the writer lock, if it is held, and drop the mapping.
    Unlock,
    /// Remove the name of the segment: it was not populated.
    Remove,
    /// Make the stores, the last of them last, and release the writer lock.
    Publish,
    /// Nothing: this is how it went.
    Finish(bool),
}

/// What came of a step of bringing the segment up.
#[derive(Debug)]
pub enum InitEvent {
    /// Whether the step succeeded.
    Did(bool),
    /// What there is of the store's directory, and its device, if it could be
    /// had.
    Seen(Option<Meta>, Option<u64>),
    /// The size of the segment, if it could be had.
    Size(Option<u64>),
    /// The device of the store, if it could be had.
    Device(Option<u64>),
    /// The entries of the directory, with the contents of the keys, if all of
    /// them could be listed.
    Loaded(Option<Vec<Found>>),
}

/// What came of a step of bringing the segment up.
pub enum InitEventView {
    Did(bool),
    Seen(Option<Meta>, Option<u64>),
    Size(Option<u64>),
    Device(Option<u64>),
    Loaded(Option<Seq<Found>>),
}

impl View for InitEvent {
    type V = InitEventView;

    open spec fn view(&self) -> InitEventView {
        match self {
            InitEvent::Did(b) => InitEventView::Did(*b),
            InitEvent::Seen(m, d) => InitEventView::Seen(*m, *d),
            InitEvent::Size(n) => InitEventView::Size(*n),
            InitEvent::Device(d) => InitEventView::Device(*d),
            InitEvent::Loaded(l) => InitEventView::Loaded(
                match l {
                    Some(fs) => Some(fs@),
                    None => None,
                },
            ),
        }
    }
}

/// Bringing the segment up, in progress.
#[derive(Debug)]
pub struct InitOp {
    at: InitStep,
    held: bool,
    unlock_first: bool,
}

/// The state of bringing the segment up.
#[verifier::ext_equal]
pub struct InitView {
    pub at: InitStep,
    /// The writer lock is held.
    pub held: bool,
    /// The lock is released before the name of the segment is removed.
    pub unlock_first: bool,
}

impl View for InitOp {
    type V = InitView;

    closed spec fn view(&self) -> InitView {
        InitView { at: self.at, held: self.held, unlock_first: self.unlock_first }
    }
}

/// Bringing the segment up, at the start.
pub open spec fn init_start(st: StoreView) -> InitView {
    InitView {
        at: if st.attached {
            InitStep::Finish(true)
        } else {
            InitStep::Available
        },
        held: false,
        unlock_first: false,
    }
}

/// The image and the result of putting the first `n` of `kvs` into it, none of
/// them owed to the disk. All are put, whether one before failed or not.
pub open spec fn preloaded(img: Image, kvs: Seq<(Seq<u8>, Seq<u8>)>, n: int) -> (Image, bool)
    decreases n,
{
    if n <= 0 {
        (img, true)
    } else {
        let (before, ok) = preloaded(img, kvs, n - 1);
        let (now, put) = before.put(kvs[n - 1].0, kvs[n - 1].1, false);
        (now, ok && put)
    }
}

impl InitView {
    /// The answer fits the step.
    pub open spec fn expects(self, ev: InitEventView) -> bool {
        match self.at {
            InitStep::Available => ev is Seen,
            InitStep::Size => ev is Size,
            InitStep::Device => ev is Device,
            InitStep::Load => ev is Loaded,
            InitStep::Finish(_) => false,
            _ => ev is Did,
        }
    }

    /// The writer lock is held while a segment that was created is brought up,
    /// and not before or after.
    pub open spec fn ordered(self) -> bool {
        match self.at {
            InitStep::Resize
            | InitStep::Size
            | InitStep::Mmap
            | InitStep::Device
            | InitStep::Load
            | InitStep::Publish => self.held,
            InitStep::Unlock => true,
            InitStep::Remove => !(self.held && self.unlock_first),
            _ => !self.held,
        }
    }

    /// At another step.
    pub open spec fn to(self, at: InitStep) -> InitView {
        InitView { at, ..self }
    }

    /// Giving up on a segment that was created.
    pub open spec fn abandoned(self, unlock_first: bool) -> InitView {
        InitView {
            at: if unlock_first {
                InitStep::Unlock
            } else {
                InitStep::Remove
            },
            unlock_first,
            ..self
        }
    }

    /// What comes after an answer, with the store and the segment then.
    ///
    /// A segment that was created is published only when every file was read,
    /// and put into it, under the writer lock; anything less is removed. What is
    /// absent from a published segment does not exist.
    pub open spec fn next(self, st: StoreView, img: Image, ev: InitEventView) -> (
        InitView,
        StoreView,
        Image,
    ) {
        match (self.at, ev) {
            (InitStep::Available, InitEventView::Seen(meta, dev)) => (
                self.to(
                    if meta is Some && (meta->0).kind == Kind::Directory && dev is Some {
                        InitStep::Attach
                    } else {
                        InitStep::Finish(false)
                    },
                ),
                st,
                img,
            ),
            (InitStep::Attach, InitEventView::Did(ok)) => (
                self.to(
                    if ok {
                        InitStep::Finish(true)
                    } else {
                        InitStep::Retire
                    },
                ),
                st.tried(ok),
                img,
            ),
            (InitStep::Retire, InitEventView::Did(_)) => (self.to(InitStep::Create), st, img),
            (InitStep::Create, InitEventView::Did(ok)) => (
                self.to(
                    if ok {
                        InitStep::Lock
                    } else {
                        InitStep::AttachTheirs
                    },
                ),
                st,
                img,
            ),
            (InitStep::AttachTheirs, InitEventView::Did(ok)) => (
                self.to(
                    if ok {
                        InitStep::Finish(true)
                    } else {
                        InitStep::Wait
                    },
                ),
                st.tried(ok),
                img,
            ),
            (InitStep::Wait, InitEventView::Did(_)) => (self.to(InitStep::AttachLast), st, img),
            (InitStep::AttachLast, InitEventView::Did(ok)) => (
                self.to(InitStep::Finish(ok)),
                st.tried(ok),
                img,
            ),
            (InitStep::Lock, InitEventView::Did(ok)) => (
                if ok {
                    InitView { at: InitStep::Resize, held: true, ..self }
                } else {
                    self.abandoned(false)
                },
                st,
                img,
            ),
            (InitStep::Resize, InitEventView::Did(ok)) => (
                if ok {
                    self.to(InitStep::Size)
                } else {
                    self.abandoned(false)
                },
                st,
                img,
            ),
            (InitStep::Size, InitEventView::Size(size)) => (
                if size is Some && size->0 >= SEGMENT_SIZE {
                    self.to(InitStep::Mmap)
                } else {
                    self.abandoned(false)
                },
                st,
                img,
            ),
            (InitStep::Mmap, InitEventView::Did(ok)) => (
                if ok {
                    self.to(InitStep::Device)
                } else {
                    self.abandoned(false)
                },
                st,
                img,
            ),
            (InitStep::Device, InitEventView::Device(dev)) => match dev {
                Some(d) => (self.to(InitStep::Load), st, img.with_header(d)),
                None => (self.abandoned(true), st, img),
            },
            (InitStep::Load, InitEventView::Loaded(files)) => match files {
                Some(fs) => if all_read(fs) {
                    let kvs = loaded_upto(fs, fs.len() as int);
                    let (filled, ok) = preloaded(img, kvs, kvs.len() as int);
                    if ok {
                        (self.to(InitStep::Publish), st, Image { ready: 1, ..filled })
                    } else {
                        (self.abandoned(true), st, filled)
                    }
                } else {
                    (self.abandoned(true), st, img)
                },
                None => (self.abandoned(true), st, img),
            },
            (InitStep::Publish, InitEventView::Did(_)) => (
                InitView { at: InitStep::Finish(true), held: false, ..self },
                st.adopted(),
                img,
            ),
            (InitStep::Unlock, InitEventView::Did(_)) => (
                InitView {
                    at: if self.unlock_first {
                        InitStep::Remove
                    } else {
                        InitStep::Finish(false)
                    },
                    held: false,
                    ..self
                },
                st,
                img,
            ),
            (InitStep::Remove, InitEventView::Did(_)) => (
                self.to(
                    if self.unlock_first {
                        InitStep::Finish(false)
                    } else {
                        InitStep::Unlock
                    },
                ),
                st,
                img,
            ),
            _ => (self, st, img),
        }
    }
}

impl Store {
    /// Starts to bring the shared store up, from the files, unless there is a
    /// segment that can be used.
    pub fn init(&self) -> (op: InitOp)
        ensures
            op@ == init_start(self@),
            op@.ordered(),
    {
        let at = if !self.degraded() {
            InitStep::Finish(true)
        } else {
            InitStep::Available
        };
        InitOp { at, held: false, unlock_first: false }
    }
}

/// Puts every key and value into the segment, and says whether all of them went
/// in.
fn preload(seg: &mut Segment, kvs: &Vec<(Vec<u8>, Vec<u8>)>) -> (ok: bool)
    requires
        old(seg).wf(),
    ensures
        final(seg).wf(),
        final(seg).base() == old(seg).base(),
        (final(seg)@, ok) == preloaded(old(seg)@, pairs_of(kvs@), kvs@.len() as int),
        adds_unpublished(old(seg).log(), final(seg).log()),
{
    assert(seg.log().subrange(0, seg.log().len() as int) =~= seg.log());
    let ghost views = pairs_of(kvs@);
    let mut ok = true;
    let mut n: usize = 0;
    while n < kvs.len()
        invariant
            n <= kvs.len(),
            views == pairs_of(kvs@),
            seg.wf(),
            seg.base() == old(seg).base(),
            (seg@, ok) == preloaded(old(seg)@, views, n as int),
            adds_unpublished(old(seg).log(), seg.log()),
        decreases kvs.len() - n,
    {
        let ghost log = seg.log();
        assert(views[n as int] == (kvs@[n as int].0@, kvs@[n as int].1@));
        if seg.put(kvs[n].0.as_slice(), kvs[n].1.as_slice(), false).is_err() {
            ok = false;
        }
        proof {
            let log0 = old(seg).log();
            assert(seg.log().subrange(0, log0.len() as int) =~= seg.log().subrange(
                0,
                log.len() as int,
            ).subrange(0, log0.len() as int));
            assert forall|j: int| log0.len() <= j < seg.log().len() implies !(
            #[trigger] seg.log()[j] is Ready) by {
                if j < log.len() {
                    assert(seg.log().subrange(0, log.len() as int)[j] == log[j]);
                }
            }
        }
        n += 1;
    }
    ok
}

impl InitOp {
    /// What to do now.
    pub fn now(&self) -> (r: InitStep)
        ensures
            r == self@.at,
    {
        self.at
    }

    /// Whether the writer lock is held.
    pub fn held(&self) -> (r: bool)
        ensures
            r == self@.held,
    {
        self.held
    }

    fn abandon(&mut self, unlock_first: bool)
        ensures
            final(self)@ == old(self)@.abandoned(unlock_first),
    {
        self.at = if unlock_first {
            InitStep::Unlock
        } else {
            InitStep::Remove
        };
        self.unlock_first = unlock_first;
    }

    /// Takes the answer to the current step, and says what to do next.
    pub fn step(&mut self, store: &mut Store, seg: &mut Segment, ev: InitEvent) -> (r: InitStep)
        requires
            old(self)@.expects(ev@),
            old(store).wf(),
            old(seg).wf(),
        ensures
            (final(self)@, final(store)@, final(seg)@) == old(self)@.next(
                old(store)@,
                old(seg)@,
                ev@,
            ),
            r == final(self)@.at,
            final(store).wf(),
            keeps_buffers(*old(store), *final(store)),
            final(seg).wf(),
            final(seg).base() == old(seg).base(),
            old(self)@.ordered() ==> final(self)@.ordered(),
            old(self)@.at != InitStep::Device && old(self)@.at != InitStep::Load ==> *final(seg)
                == *old(seg),
            // The segment is published by the last store, and by no other.
            if final(self)@.at == InitStep::Publish {
                &&& final(seg).log().len() > 0
                &&& final(seg).log().last() == WriteView::Ready(1)
                &&& adds_unpublished(old(seg).log(), final(seg).log().drop_last())
            } else {
                adds_unpublished(old(seg).log(), final(seg).log())
            },
    {
        let ghost log0 = seg.log();
        assert(log0.subrange(0, log0.len() as int) =~= log0);
        match ev {
            InitEvent::Seen(meta, dev) => {
                self.at = if store_available(meta) && dev.is_some() {
                    InitStep::Attach
                } else {
                    InitStep::Finish(false)
                };
            },
            InitEvent::Size(size) => {
                let fits = match size {
                    Some(n) => n >= SEGMENT_SIZE as u64,
                    None => false,
                };
                if fits {
                    self.at = InitStep::Mmap;
                } else {
                    self.abandon(false);
                }
            },
            InitEvent::Device(dev) => {
                match dev {
                    Some(d) => {
                        seg.init_header(d);
                        assert(seg.log().subrange(0, log0.len() as int) =~= log0);
                        self.at = InitStep::Load;
                    },
                    None => {
                        self.abandon(true);
                    },
                }
            },
            InitEvent::Loaded(files) => {
                match files {
                    Some(fs) => {
                        let ghost listed = fs@;
                        match load_all(fs) {
                            Ok(kvs) => {
                                assert(all_read(listed));
                                assert(pairs_of(kvs@).len() == kvs@.len());
                                if preload(seg, &kvs) {
                                    let ghost log1 = seg.log();
                                    seg.publish();
                                    assert(seg.log().drop_last() =~= log1);
                                    self.at = InitStep::Publish;
                                } else {
                                    self.abandon(true);
                                }
                            },
                            Err(_) => {
                                self.abandon(true);
                            },
                        }
                    },
                    None => {
                        self.abandon(true);
                    },
                }
            },
            InitEvent::Did(ok) => {
                match self.at {
                    InitStep::Attach => {
                        if ok {
                            store.adopt();
                            self.at = InitStep::Finish(true);
                        } else {
                            self.at = InitStep::Retire;
                        }
                    },
                    InitStep::Retire => {
                        self.at = InitStep::Create;
                    },
                    InitStep::Create => {
                        self.at = if ok {
                            InitStep::Lock
                        } else {
                            InitStep::AttachTheirs
                        };
                    },
                    InitStep::AttachTheirs => {
                        if ok {
                            store.adopt();
                            self.at = InitStep::Finish(true);
                        } else {
                            self.at = InitStep::Wait;
                        }
                    },
                    InitStep::Wait => {
                        self.at = InitStep::AttachLast;
                    },
                    InitStep::AttachLast => {
                        if ok {
                            store.adopt();
                        }
                        self.at = InitStep::Finish(ok);
                    },
                    InitStep::Lock => {
                        if ok {
                            self.held = true;
                            self.at = InitStep::Resize;
                        } else {
                            self.abandon(false);
                        }
                    },
                    InitStep::Resize => {
                        if ok {
                            self.at = InitStep::Size;
                        } else {
                            self.abandon(false);
                        }
                    },
                    InitStep::Mmap => {
                        if ok {
                            self.at = InitStep::Device;
                        } else {
                            self.abandon(false);
                        }
                    },
                    InitStep::Publish => {
                        store.adopt();
                        self.held = false;
                        self.at = InitStep::Finish(true);
                    },
                    InitStep::Unlock => {
                        self.held = false;
                        self.at = if self.unlock_first {
                            InitStep::Remove
                        } else {
                            InitStep::Finish(false)
                        };
                    },
                    InitStep::Remove => {
                        self.at = if self.unlock_first {
                            InitStep::Finish(false)
                        } else {
                            InitStep::Unlock
                        };
                    },
                    _ => {},
                }
            },
        }
        self.at
    }
}

} // verus!
