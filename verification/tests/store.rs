//! The library at work, with the kernel and the disk played by a few maps.

use std::cell::RefCell;
use std::collections::BTreeMap;
use std::rc::Rc;

use nvram::api::{buffer_len, get_int as int_of, key_bytes, status};
use nvram::clear::{ClearEvent, ClearStep};
use nvram::commit::{CommitEvent, CommitOp, CommitStep};
use nvram::disk::{self, DirEntry, FileOp, FileStep, Found, Kind, Meta, Removal, Visit, MAX_KEY_LEN};
use nvram::edit::{EditEvent, EditOp, EditStep};
use nvram::get::{GetEvent, GetStep};
use nvram::getall::{GetallEvent, GetallStep};
use nvram::hash::fnv1a;
use nvram::init::{AttachEvent, AttachStep, InitEvent, InitStep};
use nvram::paths::{set_paths, shm_name, Paths};
use nvram::sem::{Guard, LockStep, Outcome};
use nvram::peek::{PeekEvent, PeekOp, PeekStep};
use nvram::shm::{Read, Segment, SEGMENT_SIZE};
use nvram::store::{poison_slot, Store};

const E_SUCCESS: i32 = 1;
const E_FAILURE: i32 = 0;

/// One filesystem.
struct Disk {
    dev: u64,
    present: bool,
    files: BTreeMap<Vec<u8>, (Vec<u8>, u64)>,
}

/// A shared object.
struct Shm {
    size: u64,
    seg: Segment,
}

/// A semaphore.
#[derive(Default)]
struct Semaphore {
    made: bool,
    held: bool,
}

/// The machine that the processes run on.
struct World {
    disks: Vec<Disk>,
    mounted: usize,
    shm: Option<Rc<RefCell<Shm>>>,
    shm_works: bool,
    writer: Semaphore,
    commit: Semaphore,
    /// Files that can be neither read nor removed.
    unreadable: Vec<Vec<u8>>,
    signals: u32,
    flushes: u32,
    writes: u32,
    next_inode: u64,
}

type Machine = Rc<RefCell<World>>;

fn machine() -> Machine {
    let disks = vec![
        Disk { dev: 1, present: true, files: BTreeMap::new() },
        Disk { dev: 2, present: true, files: BTreeMap::new() },
    ];
    Rc::new(RefCell::new(World {
        disks,
        mounted: 0,
        shm: None,
        shm_works: true,
        writer: Semaphore::default(),
        commit: Semaphore::default(),
        unreadable: Vec::new(),
        signals: 0,
        flushes: 0,
        writes: 0,
        next_inode: 1,
    }))
}

impl World {
    fn disk(&mut self) -> &mut Disk {
        let n = self.mounted;
        &mut self.disks[n]
    }

    fn device(&mut self) -> Option<u64> {
        let d = self.disk();
        if d.present {
            Some(d.dev)
        } else {
            None
        }
    }

    fn create(&mut self, name: &[u8], contents: &[u8]) {
        let inode = self.next_inode;
        self.next_inode += 1;
        self.disk().files.insert(name.to_vec(), (contents.to_vec(), inode));
    }

    fn read(&mut self, name: &[u8]) -> Option<Vec<u8>> {
        self.disk().files.get(name).map(|f| f.0.clone())
    }

    /// Everything in the store's directory, as a load sees it.
    fn load_all(&mut self) -> Option<Vec<Found>> {
        if !self.disk().present {
            return None;
        }
        let names: Vec<Vec<u8>> = self.disk().files.keys().cloned().collect();
        let mut found = Vec::new();
        for name in names {
            let entry = DirEntry { name: name.clone(), is_file: true };
            let contents = match disk::visit(&entry) {
                Visit::Skip => None,
                Visit::Sweep => {
                    self.disk().files.remove(&name);
                    None
                }
                Visit::Load if self.unreadable.contains(&name) => None,
                Visit::Load => self.read(&name),
            };
            found.push(Found { entry, contents });
        }
        Some(found)
    }
}

/// One process.
struct Proc {
    m: Machine,
    paths: Paths,
    pid: u32,
    store: Store,
    mapped: Option<Rc<RefCell<Shm>>>,
    blank: Segment,
}

impl Proc {
    /// A process that starts: it attaches if there is something to attach to.
    fn start(m: &Machine) -> Proc {
        let mut p = Proc {
            m: m.clone(),
            paths: Paths::new(),
            pid: 4242,
            store: Store::new(false),
            mapped: None,
            blank: Segment::zeroed(),
        };
        set_paths(&mut p.paths, "/scratch", "/nvram-test");
        assert_eq!(shm_name(&p.paths), b"/nvram-test\0");
        let ok = p.attach();
        p.store = Store::new(ok);
        p
    }

    fn degraded(&self) -> bool {
        self.store.degraded()
    }

    // ------------------------------------------------------------- locks --

    fn semaphore<T>(&self, commit: bool, f: impl Fn(&mut Semaphore) -> T) -> T {
        let mut w = self.m.borrow_mut();
        if commit {
            f(&mut w.commit)
        } else {
            f(&mut w.writer)
        }
    }

    fn lock(&self, commit: bool) -> Option<Guard> {
        let mut g = if commit { Guard::acquire_commit() } else { Guard::acquire() };
        assert_eq!(g.proj(), if commit { 66 } else { 65 });
        loop {
            let outcome = match g.now() {
                LockStep::Key => {
                    if self.m.borrow_mut().disk().present {
                        Outcome::Done
                    } else {
                        Outcome::Failed
                    }
                }
                LockStep::Create => {
                    if self.semaphore(commit, |s| std::mem::replace(&mut s.made, true)) {
                        Outcome::Exists
                    } else {
                        Outcome::Done
                    }
                }
                LockStep::Init | LockStep::Open | LockStep::Destroy => Outcome::Done,
                LockStep::Wait => {
                    let mut w = self.m.borrow_mut();
                    if w.signals > 0 {
                        w.signals -= 1;
                        Outcome::Interrupted
                    } else {
                        drop(w);
                        let held = self.semaphore(commit, |s| std::mem::replace(&mut s.held, true));
                        assert!(!held, "this would wait for another process");
                        Outcome::Done
                    }
                }
                LockStep::Held => return Some(g),
                LockStep::Post => unreachable!(),
                LockStep::Free => return None,
            };
            g.step(outcome);
        }
    }

    fn unlock(&self, commit: bool, mut g: Guard) {
        g.release();
        self.semaphore(commit, |s| s.held = false);
        assert_eq!(g.step(Outcome::Done), LockStep::Free);
    }

    // --------------------------------------------------------- attaching --

    fn attach(&mut self) -> bool {
        let mut op = Segment::attach();
        let mut candidate: Option<Rc<RefCell<Shm>>> = None;
        loop {
            let ev = match op.now() {
                AttachStep::Open => {
                    let w = self.m.borrow();
                    if w.shm_works {
                        candidate = w.shm.clone();
                    }
                    AttachEvent::Did(candidate.is_some())
                }
                AttachStep::Size => AttachEvent::Size(candidate.as_ref().map(|c| c.borrow().size)),
                AttachStep::Mmap => AttachEvent::Did(true),
                AttachStep::Look => AttachEvent::Looked,
                AttachStep::Wait => {
                    if let Some(g) = self.lock(false) {
                        self.unlock(false, g);
                    }
                    AttachEvent::Waited
                }
                AttachStep::Check => AttachEvent::Checked(self.m.borrow_mut().device()),
                AttachStep::Finish(ok) => {
                    if ok {
                        self.mapped = candidate;
                    }
                    return ok;
                }
            };
            match &candidate {
                Some(c) => op.step(&c.borrow().seg, ev),
                None => op.step(&self.blank, ev),
            };
        }
    }

    /// Lets `f` work on the segment that this process has mapped.
    fn with_segment<T>(&mut self, f: impl FnOnce(&mut Store, &mut Segment) -> T) -> T {
        match self.mapped.clone() {
            Some(c) => {
                let mut c = c.borrow_mut();
                let r = f(&mut self.store, &mut c.seg);
                c.seg.take_writes();
                r
            }
            None => f(&mut self.store, &mut self.blank),
        }
    }

    fn slot_value(&self, key: &[u8]) -> u64 {
        let c = self.mapped.as_ref().unwrap().borrow();
        let slot = c.seg.slot_of(fnv1a(key));
        c.seg.slot_value(slot)
    }

    // ----------------------------------------------------------- reading --

    fn peek(&self, key: &[u8]) -> Read {
        let c = self.mapped.as_ref().unwrap().borrow();
        let mut op = PeekOp::new(key);
        let slot = op.slot();
        loop {
            let ev = match op.now() {
                PeekStep::Counters | PeekStep::Recheck => {
                    PeekEvent::Counters(c.seg.slot_value(slot), c.seg.arena_value())
                }
                PeekStep::Entry(i) => PeekEvent::Entry(c.seg.index()[i]),
                PeekStep::Key { off, len } | PeekStep::Value { off, len } => {
                    PeekEvent::Bytes(c.seg.arena()[off..off + len].to_vec())
                }
                PeekStep::Finish => return op.read(),
            };
            op.step(ev);
        }
    }

    fn run_get(&mut self, key: &[u8]) {
        let mut op = self.store.get(key);
        let mut guard: Option<Guard> = None;
        loop {
            let ev = match op.now() {
                GetStep::Attach => GetEvent::Attached(self.attach()),
                GetStep::LoadSlot => GetEvent::Slot(self.slot_value(op.key())),
                GetStep::Sample => {
                    let before = self.slot_value(op.key());
                    GetEvent::Sampled { before, read: self.peek(op.key()) }
                }
                GetStep::LockWriter => {
                    guard = self.lock(false);
                    GetEvent::Locked(guard.is_some())
                }
                GetStep::UnlockWriter => {
                    self.unlock(false, guard.take().unwrap());
                    GetEvent::Unlocked
                }
                GetStep::ReadFile => {
                    let path = disk::key_path(&self.paths, op.key());
                    GetEvent::File(path.and_then(|p| self.m.borrow_mut().read(&p[9..])))
                }
                GetStep::Finish => return,
            };
            self.with_segment(|store, seg| op.step(store, seg, ev));
        }
    }

    /// The bytes that a read hands out.
    fn get_raw(&mut self, key: &str) -> Option<&[u8]> {
        let key = key_bytes(Some(key.as_bytes()))?;
        self.run_get(key);
        self.store.cached(key).map(|v| &v[..])
    }

    fn get(&mut self, key: &str) -> Option<String> {
        let v = self.get_raw(key)?;
        assert_eq!(v[v.len() - 1], 0);
        Some(String::from_utf8_lossy(&v[..v.len() - 1]).into_owned())
    }

    /// How much this process holds, as it is printed.
    fn held(&self) -> usize {
        format!("{:?}", self.store).len()
    }

    /// What the segment says of its contents.
    fn stored(&self) -> (u64, u64, u64) {
        let c = self.mapped.as_ref().unwrap().borrow();
        let h = c.seg.header();
        (h.arena_used, h.arena_garbage, h.global_gen)
    }

    /// Where the bytes are that a read hands out.
    fn place(&mut self, key: &str) -> usize {
        self.get_raw(key).unwrap().as_ptr() as usize
    }

    fn get_int(&mut self, key: &str) -> i32 {
        int_of(self.get_raw(key))
    }

    // ---------------------------------------------------------- changing --

    fn path_name(path: &[u8]) -> Vec<u8> {
        assert_eq!(&path[..9], b"/scratch/");
        path[9..].to_vec()
    }

    fn run_file(&mut self, op: &mut FileOp) -> bool {
        let val = op.val().to_vec();
        let tmp = Proc::path_name(op.tmp());
        loop {
            let mut w = self.m.borrow_mut();
            if !w.disk().present {
                return false;
            }
            match op.now() {
                FileStep::Create => w.create(&tmp, b""),
                FileStep::Write => w.disk().files.get_mut(&tmp).unwrap().0 = val.clone(),
                FileStep::Flush => w.flushes += 1,
                FileStep::Rename => {
                    let dst = Proc::path_name(op.dst().unwrap());
                    let f = w.disk().files.remove(&tmp).unwrap();
                    w.disk().files.insert(dst, f);
                    w.writes += 1;
                }
                FileStep::Unlink => {
                    w.disk().files.remove(&tmp);
                }
                FileStep::Finish(ok) => return ok,
            }
            op.step(true);
        }
    }

    fn remove_file(&mut self, key: &[u8]) -> bool {
        let path = match disk::key_path(&self.paths, key) {
            Some(p) => p,
            None => return false,
        };
        let gone = self.m.borrow_mut().disk().files.remove(&Proc::path_name(&path));
        let outcome = if gone.is_some() { Removal::Removed } else { Removal::NotFound };
        disk::remove(outcome).is_ok()
    }

    fn run_edit(&mut self, mut op: EditOp) -> i32 {
        let mut guard: Option<Guard> = None;
        loop {
            let ev = match op.now() {
                EditStep::Attach => EditEvent::Attached(self.attach()),
                EditStep::LoadSlot => EditEvent::Slot(self.slot_value(op.key())),
                EditStep::LockWriter => {
                    guard = self.lock(false);
                    EditEvent::Locked(guard.is_some())
                }
                EditStep::UnlockWriter => {
                    self.unlock(false, guard.take().unwrap());
                    EditEvent::Unlocked
                }
                EditStep::WriteFile => {
                    let val = op.val().unwrap();
                    let ok = match disk::write_atomic(&self.paths, self.pid, op.key(), val) {
                        Some(mut f) => self.run_file(&mut f),
                        None => false,
                    };
                    EditEvent::Filed(ok)
                }
                EditStep::RemoveFile => EditEvent::Filed(self.remove_file(op.key())),
                EditStep::Finish(ok) => return status(ok),
            };
            self.with_segment(|store, seg| op.step(store, seg, ev));
        }
    }

    fn set(&mut self, key: &str, val: &str) -> i32 {
        match key_bytes(Some(key.as_bytes())) {
            Some(k) => {
                let op = self.store.set(k, val.as_bytes());
                self.run_edit(op)
            }
            None => E_FAILURE,
        }
    }

    fn unset(&mut self, key: &str) -> i32 {
        match key_bytes(Some(key.as_bytes())) {
            Some(k) => {
                let op = self.store.unset(k);
                self.run_edit(op)
            }
            None => E_FAILURE,
        }
    }

    // -------------------------------------------------------- committing --

    fn flush(&mut self) -> bool {
        let mut w = self.m.borrow_mut();
        w.flushes += 1;
        w.disk().present
    }

    fn start_commit(&mut self) -> Commit {
        Commit { op: self.store.commit(), tmp: BTreeMap::new(), writer: None, commit: None }
    }

    /// Runs a commit up to its first file, or to its end.
    fn commit_to_window(&mut self) -> Commit {
        let mut c = self.start_commit();
        while !matches!(c.op.now(), CommitStep::Stage(_) | CommitStep::Finish(_)) {
            self.commit_step(&mut c);
        }
        c
    }

    fn finish_commit(&mut self, mut c: Commit) -> i32 {
        loop {
            if let CommitStep::Finish(ok) = c.op.now() {
                assert!(c.writer.is_none() && c.commit.is_none());
                return status(ok);
            }
            self.commit_step(&mut c);
        }
    }

    fn commit(&mut self) -> i32 {
        let c = self.start_commit();
        self.finish_commit(c)
    }

    fn commit_step(&mut self, c: &mut Commit) {
        let ev = match c.op.now() {
            CommitStep::Attach => CommitEvent::Attached(self.attach()),
            CommitStep::LockCommit => {
                c.commit = self.lock(true);
                CommitEvent::Locked(c.commit.is_some())
            }
            CommitStep::LockWriter | CommitStep::LockAgain => {
                c.writer = self.lock(false);
                CommitEvent::Locked(c.writer.is_some())
            }
            CommitStep::Look => {
                let mut metas = Vec::new();
                for (key, _) in c.op.queries() {
                    let f = self.m.borrow_mut().read(key);
                    metas.push(f.map(|b| Meta { kind: Kind::File, len: b.len() as u64 }));
                }
                CommitEvent::Looked(metas)
            }
            CommitStep::UnlockWriter | CommitStep::UnlockAgain => {
                self.unlock(false, c.writer.take().unwrap());
                CommitEvent::Unlocked
            }
            CommitStep::Stage(i) => {
                let p = &c.op.pending()[i];
                let key = p.key.clone();
                let val = p.val.clone().unwrap();
                let ok = match disk::stage(&self.paths, self.pid, &key, &val) {
                    Some(mut f) => {
                        let ok = self.run_file(&mut f);
                        c.tmp.insert(i, f.tmp().to_vec());
                        ok
                    }
                    None => false,
                };
                CommitEvent::Did(ok)
            }
            CommitStep::FlushStaged | CommitStep::Flush => CommitEvent::Did(self.flush()),
            CommitStep::Discard(i) => {
                let name = Proc::path_name(&c.tmp[&i]);
                self.m.borrow_mut().disk().files.remove(&name);
                CommitEvent::Did(true)
            }
            CommitStep::Publish(i) => {
                let key = c.op.pending()[i].key.clone();
                let mut f = disk::publish(&self.paths, c.tmp[&i].clone(), &key);
                CommitEvent::Did(self.run_file(&mut f))
            }
            CommitStep::Unlink(i) => {
                let key = c.op.pending()[i].key.clone();
                CommitEvent::Did(self.remove_file(&key))
            }
            CommitStep::UnlockCommit => {
                self.unlock(true, c.commit.take().unwrap());
                CommitEvent::Unlocked
            }
            CommitStep::Finish(_) => unreachable!(),
        };
        self.with_segment(|store, seg| c.op.step(store, seg, ev));
    }

    // ---------------------------------------------------------- clearing --

    fn clear(&mut self) -> i32 {
        let mut op = self.store.clear();
        let mut writer: Option<Guard> = None;
        let mut commit: Option<Guard> = None;
        loop {
            let ev = match op.now() {
                ClearStep::Attach => ClearEvent::Attached(self.attach()),
                ClearStep::LockCommit => {
                    commit = self.lock(true);
                    ClearEvent::Locked(commit.is_some())
                }
                ClearStep::LockWriter => {
                    writer = self.lock(false);
                    ClearEvent::Locked(writer.is_some())
                }
                ClearStep::RemoveAll => {
                    let mut w = self.m.borrow_mut();
                    let names: Vec<Vec<u8>> = w.disk().files.keys().cloned().collect();
                    let entries: Vec<DirEntry> = names
                        .into_iter()
                        .map(|name| DirEntry { name, is_file: true })
                        .collect();
                    let mut outcomes = Vec::new();
                    for name in disk::files_to_remove(&entries) {
                        if w.unreadable.contains(&name) {
                            outcomes.push(Removal::Failed);
                        } else {
                            w.disk().files.remove(&name);
                            outcomes.push(Removal::Removed);
                        }
                    }
                    ClearEvent::Removed(if w.disk().present { Some(outcomes) } else { None })
                }
                ClearStep::UnlockWriter => {
                    self.unlock(false, writer.take().unwrap());
                    ClearEvent::Unlocked
                }
                ClearStep::Flush => ClearEvent::Did(self.flush()),
                ClearStep::UnlockCommit => {
                    self.unlock(true, commit.take().unwrap());
                    ClearEvent::Unlocked
                }
                ClearStep::Finish(ok) => return status(ok),
            };
            self.with_segment(|store, seg| op.step(store, seg, ev));
        }
    }

    // ----------------------------------------------------------- listing --

    fn getall(&mut self, buf: &mut [u8]) -> i32 {
        let len = match buffer_len(true, buf.len() as i32) {
            Some(n) => n,
            None => return E_FAILURE,
        };
        let mut op = self.store.getall(len);
        let mut guard: Option<Guard> = None;
        loop {
            let ev = match op.now() {
                GetallStep::Attach => GetallEvent::Attached(self.attach()),
                GetallStep::LockWriter => {
                    guard = self.lock(false);
                    GetallEvent::Locked(guard.is_some())
                }
                GetallStep::UnlockWriter => {
                    self.unlock(false, guard.take().unwrap());
                    GetallEvent::Unlocked
                }
                GetallStep::LoadAll => {
                    let kvs = self.m.borrow_mut().load_all();
                    GetallEvent::Loaded(kvs.unwrap_or_default())
                }
                GetallStep::Finish(ok) => {
                    if let Some(out) = op.out() {
                        buf[..out.len()].copy_from_slice(out);
                    }
                    return status(ok);
                }
            };
            self.with_segment(|store, seg| op.step(store, seg, ev));
        }
    }

    // ------------------------------------------------------- bringing up --

    fn init(&mut self) -> bool {
        let mut op = self.store.init();
        let mut guard: Option<Guard> = None;
        let mut made: Option<Rc<RefCell<Shm>>> = None;
        loop {
            let ev = match op.now() {
                InitStep::Available => {
                    let mut w = self.m.borrow_mut();
                    let meta = Meta { kind: Kind::Directory, len: 0 };
                    let dev = w.device();
                    InitEvent::Seen(dev.map(|_| meta), dev)
                }
                InitStep::Attach | InitStep::AttachTheirs | InitStep::AttachLast => {
                    InitEvent::Did(self.attach())
                }
                InitStep::Retire | InitStep::Remove => {
                    self.m.borrow_mut().shm = None;
                    InitEvent::Did(true)
                }
                InitStep::Create => {
                    let mut w = self.m.borrow_mut();
                    let ok = w.shm_works && w.shm.is_none();
                    if ok {
                        let c = Rc::new(RefCell::new(Shm { size: 0, seg: Segment::zeroed() }));
                        w.shm = Some(c.clone());
                        made = Some(c);
                    }
                    InitEvent::Did(ok)
                }
                InitStep::Wait => {
                    if let Some(g) = self.lock(false) {
                        self.unlock(false, g);
                    }
                    InitEvent::Did(true)
                }
                InitStep::Lock => {
                    guard = self.lock(false);
                    InitEvent::Did(guard.is_some())
                }
                InitStep::Resize => {
                    made.as_ref().unwrap().borrow_mut().size = SEGMENT_SIZE as u64;
                    InitEvent::Did(true)
                }
                InitStep::Size => InitEvent::Size(Some(made.as_ref().unwrap().borrow().size)),
                InitStep::Mmap => InitEvent::Did(true),
                InitStep::Device => InitEvent::Device(self.m.borrow_mut().device()),
                InitStep::Load => InitEvent::Loaded(self.m.borrow_mut().load_all()),
                InitStep::Unlock => {
                    if let Some(g) = guard.take() {
                        self.unlock(false, g);
                    }
                    InitEvent::Did(true)
                }
                InitStep::Publish => {
                    if let Some(g) = guard.take() {
                        self.unlock(false, g);
                    }
                    self.mapped = made.clone();
                    InitEvent::Did(true)
                }
                InitStep::Finish(ok) => {
                    assert!(guard.is_none());
                    return ok;
                }
            };
            match &made {
                Some(c) => {
                    let mut c = c.borrow_mut();
                    op.step(&mut self.store, &mut c.seg, ev);
                    c.seg.take_writes();
                }
                None => {
                    op.step(&mut self.store, &mut self.blank, ev);
                }
            }
        }
    }

    // ------------------------------------------------------------- tests --

    fn poison(&mut self, key: &str) -> bool {
        self.with_segment(|store, seg| poison_slot(store, seg, key.as_bytes()))
    }

    /// A missing variable never matches.
    fn matches(&mut self, key: &str, val: &str) -> bool {
        self.get(key).as_deref() == Some(val)
    }
}

/// A commit in progress, with what its process holds.
struct Commit {
    op: CommitOp,
    tmp: BTreeMap<usize, Vec<u8>>,
    writer: Option<Guard>,
    commit: Option<Guard>,
}

/// A machine whose store is up, and a process on it.
struct Scratch {
    m: Machine,
}

impl Scratch {
    fn new() -> (Scratch, Proc) {
        let (s, mut p) = Scratch::new_uninitialised();
        assert!(p.init());
        (s, p)
    }

    /// The same, before the store was brought up.
    fn new_uninitialised() -> (Scratch, Proc) {
        let m = machine();
        let p = Proc::start(&m);
        (Scratch { m }, p)
    }

    /// Another process, or the same program started anew.
    fn process(&self) -> Proc {
        Proc::start(&self.m)
    }

    /// Only the files survive.
    fn reboot(&self) -> Proc {
        let mut p = self.reboot_without_init();
        assert!(p.init());
        p
    }

    fn reboot_without_init(&self) -> Proc {
        self.m.borrow_mut().shm = None;
        Proc::start(&self.m)
    }

    fn disk_read(&self, key: &str) -> Option<Vec<u8>> {
        self.m.borrow_mut().read(key.as_bytes())
    }

    fn disk_read_str(&self, key: &str) -> Option<String> {
        self.disk_read(key).map(|b| String::from_utf8_lossy(&b).into_owned())
    }

    fn disk_write(&self, key: &str, val: &[u8]) {
        self.m.borrow_mut().create(key.as_bytes(), val);
    }

    fn wipe(&self) {
        self.m.borrow_mut().disk().files.clear();
    }

    fn names(&self) -> Vec<String> {
        let mut w = self.m.borrow_mut();
        w.disk().files.keys().map(|k| String::from_utf8_lossy(k).into_owned()).collect()
    }

    /// Every write renames a fresh file into place, so that another number
    /// means that the key was rewritten.
    fn inode(&self, key: &str) -> Option<u64> {
        self.m.borrow_mut().disk().files.get(key.as_bytes()).map(|f| f.1)
    }
}

/// Splits a listing into its records.
fn parse_getall(buf: &[u8]) -> Vec<String> {
    let mut out = Vec::new();
    let mut start = 0usize;
    while start < buf.len() {
        let end = match buf[start..].iter().position(|&b| b == 0) {
            Some(e) => start + e,
            None => break,
        };
        if end == start {
            break;
        }
        out.push(String::from_utf8_lossy(&buf[start..end]).into_owned());
        start = end + 1;
    }
    out
}

// ----------------------------------------------------------- the contract --

#[test]
fn set_get_unset_roundtrip() {
    let (_s, mut p) = Scratch::new();
    assert_eq!(p.set("lan_ipaddr", "192.168.1.1"), E_SUCCESS);
    assert_eq!(p.get("lan_ipaddr").as_deref(), Some("192.168.1.1"));
    assert_eq!(p.unset("lan_ipaddr"), E_SUCCESS);
    assert_eq!(p.get("lan_ipaddr"), None);
}

/// A key set to the empty string exists, distinctly from one that does not.
#[test]
fn empty_is_not_absent() {
    let (_s, mut p) = Scratch::new();
    assert!(p.get_raw("never_set").is_none(), "absent key must be nothing");
    assert_eq!(p.set("cstats_exclude", ""), E_SUCCESS);
    assert!(p.get_raw("cstats_exclude").is_some(), "empty value must be something");
    assert_eq!(p.get("cstats_exclude").as_deref(), Some(""));
}

/// A cached absence must be invalidated when the key appears.
#[test]
fn negative_entry_is_invalidated() {
    let (_s, mut p) = Scratch::new();
    assert!(p.get_raw("later").is_none());
    assert_eq!(p.set("later", "here"), E_SUCCESS);
    assert_eq!(p.get("later").as_deref(), Some("here"));
}

#[test]
fn large_value_roundtrip() {
    let (s, mut p) = Scratch::new();
    let big = "A".repeat(64 * 1024);
    assert_eq!(p.set("vpns1_ca", &big), E_SUCCESS);
    assert_eq!(p.get("vpns1_ca").as_deref(), Some(big.as_str()));
    assert_eq!(p.commit(), E_SUCCESS);
    assert_eq!(s.disk_read("vpns1_ca").unwrap().len(), 64 * 1024);
}

#[test]
fn multiline_pem_roundtrip() {
    let (_s, mut p) = Scratch::new();
    let mut pem = String::new();
    for _ in 0..400 {
        pem.push_str("-----BEGIN CERTIFICATE-----\n");
        pem.push_str("MIIDdzCCAl+gAwIBAgIEAgAAuTANBgkqhkiG9w0BAQUFADBaMQswCQYDVQQGEwJJ\n");
        pem.push_str("-----END CERTIFICATE-----\n");
    }
    assert!(pem.len() > 16 * 1024);
    assert_eq!(p.set("vpns1_ca", &pem), E_SUCCESS);
    assert_eq!(p.get("vpns1_ca").as_deref(), Some(pem.as_str()));
}

/// A value with an equals sign survives the listing.
#[test]
fn value_with_equals_sign() {
    let (_s, mut p) = Scratch::new();
    assert_eq!(p.set("script_fire", "a=b=c"), E_SUCCESS);
    let mut buf = vec![0u8; 64 * 1024];
    assert_eq!(p.getall(&mut buf), E_SUCCESS);
    let recs = parse_getall(&buf);
    assert!(recs.contains(&"script_fire=a=b=c".to_string()), "{:?}", recs);
}

/// Repeated reads of an unchanged key hand out the same bytes.
#[test]
fn repeated_get_returns_stable_pointer() {
    let (_s, mut p) = Scratch::new();
    p.set("wan_proto", "dhcp");
    let first = p.place("wan_proto");
    for _ in 0..10_000 {
        assert_eq!(p.place("wan_proto"), first);
    }
}

/// Bytes taken before a change are still there after it.
#[test]
fn pointer_survives_one_change() {
    let (_s, mut p) = Scratch::new();
    p.set("lan_ipaddr", "192.168.1.1");
    let old = p.place("lan_ipaddr");
    p.set("lan_ipaddr", "10.0.0.1");
    assert_eq!(p.get("lan_ipaddr").as_deref(), Some("10.0.0.1"));
    assert_ne!(p.place("lan_ipaddr"), old);

    let still = p.store.retired(b"lan_ipaddr").unwrap();
    assert_eq!(still.as_ptr() as usize, old);
    assert_eq!(&still[..], b"192.168.1.1\0");
}

/// Setting a key to the value it has must not touch anything.
#[test]
fn redundant_set_is_a_noop() {
    let (_s, mut p) = Scratch::new();
    p.set("wan_proto", "dhcp");
    let p1 = p.place("wan_proto");
    assert_eq!(p.set("wan_proto", "dhcp"), E_SUCCESS);
    assert_eq!(p.place("wan_proto"), p1, "no-op set must not move the value");
}

#[test]
fn get_int_parses_text() {
    let (_s, mut p) = Scratch::new();
    p.set("cstats_stime", "48");
    assert_eq!(p.get_int("cstats_stime"), 48);
    p.set("neg", "-7");
    assert_eq!(p.get_int("neg"), -7);
    p.set("junk", "12abc");
    assert_eq!(p.get_int("junk"), 12, "must behave like atoi()");
    p.set("empty", "");
    assert_eq!(p.get_int("empty"), 0);
    assert_eq!(p.get_int("absent"), 0);
}

/// A set without a commit is visible, and does not reach the disk.
#[test]
fn set_is_not_durable_until_commit() {
    let (s, mut p) = Scratch::new();
    p.set("wan_proto", "pppoe");
    assert_eq!(p.get("wan_proto").as_deref(), Some("pppoe"));
    assert!(s.disk_read("wan_proto").is_none(), "set must not write to disk");
    assert_eq!(p.commit(), E_SUCCESS);
    assert_eq!(s.disk_read("wan_proto").as_deref(), Some(&b"pppoe"[..]));
}

#[test]
fn uncommitted_values_lost_on_reboot() {
    let (s, mut p) = Scratch::new();
    p.set("kept", "yes");
    assert_eq!(p.commit(), E_SUCCESS);
    p.set("dropped", "no");
    let mut p = s.reboot();
    assert_eq!(p.get("kept").as_deref(), Some("yes"));
    assert_eq!(p.get("dropped"), None, "uncommitted value must not survive");
}

#[test]
fn unset_then_commit_removes_file() {
    let (s, mut p) = Scratch::new();
    p.set("temp", "x");
    p.commit();
    assert!(s.disk_read("temp").is_some());
    p.unset("temp");
    p.commit();
    assert!(s.disk_read("temp").is_none(), "commit must unlink the file");
    let mut p = s.reboot();
    assert_eq!(p.get("temp"), None);
}

#[test]
fn preload_reads_existing_store() {
    let (s, _p) = Scratch::new();
    s.disk_write("lan_ifname", b"br0");
    s.disk_write("empty_one", b"");
    let mut p = s.reboot();
    assert_eq!(p.get("lan_ifname").as_deref(), Some("br0"));
    assert_eq!(p.get("empty_one").as_deref(), Some(""));
    assert!(p.get_raw("empty_one").is_some(), "empty != absent");
}

/// A clear empties the segment and the disk.
#[test]
fn clear_empties_both_tiers() {
    let (s, mut p) = Scratch::new();
    p.set("a", "1");
    p.set("b", "2");
    p.commit();
    assert!(s.disk_read("a").is_some());
    assert_eq!(p.clear(), E_SUCCESS);
    assert_eq!(p.get("a"), None, "segment must be empty");
    assert!(s.disk_read("a").is_none(), "disk must be empty");
    let mut p = s.reboot();
    assert_eq!(p.get("a"), None, "and must stay empty across a reboot");
}

#[test]
fn getall_emits_packed_records() {
    let (_s, mut p) = Scratch::new();
    p.set("k1", "v1");
    p.set("k2", "");
    p.set("k3", "v3");
    let mut buf = vec![0u8; 64 * 1024];
    assert_eq!(p.getall(&mut buf), E_SUCCESS);
    let mut recs = parse_getall(&buf);
    recs.sort();
    assert_eq!(recs, vec!["k1=v1", "k2=", "k3=v3"]);
}

#[test]
fn getall_reports_failure_when_buffer_too_small() {
    let (_s, mut p) = Scratch::new();
    for i in 0..50 {
        p.set(&format!("key{}", i), "some-value-here");
    }
    let mut buf = vec![0u8; 32];
    assert_eq!(p.getall(&mut buf), 0, "must report overflow, not truncate silently");
}

/// Enough overwrites to force compactions.
#[test]
fn survives_arena_compaction() {
    let (_s, mut p) = Scratch::new();
    let big = "x".repeat(64 * 1024);
    for i in 0..64 {
        assert_eq!(p.set("churn", &format!("{}{}", i, big)), E_SUCCESS, "pass {}", i);
        p.set("stable_key", "unchanged");
        assert_eq!(
            p.get("stable_key").as_deref(),
            Some("unchanged"),
            "compaction lost an unrelated key on pass {}",
            i
        );
    }
    assert!(p.get("churn").unwrap().starts_with("63"));
}

#[test]
fn many_keys() {
    let (_s, mut p) = Scratch::new();
    for i in 0..1200 {
        assert_eq!(p.set(&format!("var_{}", i), &format!("value_{}", i)), E_SUCCESS, "i={}", i);
    }
    for i in 0..1200 {
        assert_eq!(
            p.get(&format!("var_{}", i)).as_deref(),
            Some(format!("value_{}", i).as_str())
        );
    }
    let mut buf = vec![0u8; 1024 * 1024];
    assert_eq!(p.getall(&mut buf), E_SUCCESS);
    assert_eq!(parse_getall(&buf).len(), 1200);
}

/// Without shared memory only speed and deferred commits are lost.
#[test]
fn degrades_gracefully_without_shared_memory() {
    let m = machine();
    m.borrow_mut().shm_works = false;
    let mut p = Proc::start(&m);
    let s = Scratch { m };
    assert!(p.degraded(), "expected the degraded path");
    assert_eq!(p.set("lan_ipaddr", "192.168.1.1"), E_SUCCESS);
    assert_eq!(p.get("lan_ipaddr").as_deref(), Some("192.168.1.1"));
    assert_eq!(s.disk_read("lan_ipaddr").unwrap(), b"192.168.1.1");
    assert_eq!(p.get("absent"), None);
    assert_eq!(p.unset("lan_ipaddr"), E_SUCCESS);
    assert_eq!(p.get("lan_ipaddr"), None);
    assert!(!p.init(), "there is nothing to bring up");
}

/// The segment is authoritative, so a commit re-establishes a store that
/// something else emptied.
#[test]
fn commit_restores_a_wiped_store() {
    let (s, mut p) = Scratch::new();
    p.set("lan_ipaddr", "192.168.1.1");
    p.set("wan_proto", "dhcp");
    p.set("empty_one", "");
    assert_eq!(p.commit(), E_SUCCESS);
    assert!(s.disk_read("lan_ipaddr").is_some());
    assert_eq!(p.commit(), E_SUCCESS);

    s.wipe();
    assert!(s.disk_read("lan_ipaddr").is_none());
    assert_eq!(p.get("lan_ipaddr").as_deref(), Some("192.168.1.1"));

    assert_eq!(p.commit(), E_SUCCESS);
    assert_eq!(s.disk_read("lan_ipaddr").as_deref(), Some(&b"192.168.1.1"[..]));
    assert_eq!(s.disk_read("wan_proto").as_deref(), Some(&b"dhcp"[..]));
    assert_eq!(s.disk_read("empty_one").as_deref(), Some(&b""[..]));

    let mut p = s.reboot();
    assert_eq!(p.get("lan_ipaddr").as_deref(), Some("192.168.1.1"));
    assert_eq!(p.get("empty_one").as_deref(), Some(""), "empty value must survive");
}

#[test]
fn commit_repairs_a_mangled_file() {
    let (s, mut p) = Scratch::new();
    p.set("qos_orules", "a-long-original-value");
    p.commit();
    s.disk_write("qos_orules", b"short");
    assert_eq!(p.commit(), E_SUCCESS);
    assert_eq!(s.disk_read("qos_orules").as_deref(), Some(&b"a-long-original-value"[..]));
}

#[test]
fn commit_does_not_resurrect_unset_keys() {
    let (s, mut p) = Scratch::new();
    p.set("temp", "x");
    p.commit();
    p.unset("temp");
    p.commit();
    assert!(s.disk_read("temp").is_none());
    p.set("other", "y");
    assert_eq!(p.commit(), E_SUCCESS);
    assert!(s.disk_read("temp").is_none(), "unset key came back");
    let mut p = s.reboot();
    assert_eq!(p.get("temp"), None);
}

// -------------------------------------------------------- unchanged values --

#[test]
fn an_unchanged_set_with_a_warm_cache_does_not_rewrite() {
    let (s, mut p) = Scratch::new();
    p.set("k", "v");
    assert_eq!(p.commit(), 1);
    let before = s.inode("k").expect("file");
    assert_eq!(p.get("k").as_deref(), Some("v"));
    p.set("k", "v");
    assert_eq!(p.commit(), 1);
    assert_eq!(s.inode("k"), Some(before));
}

#[test]
fn an_unchanged_set_with_a_cold_cache_does_not_rewrite() {
    let (s, mut p) = Scratch::new();
    p.set("os_version", "2026.1");
    assert_eq!(p.commit(), 1);
    let before = s.inode("os_version").expect("file");
    let mut p = s.process();
    p.set("os_version", "2026.1");
    assert_eq!(p.commit(), 1);
    assert_eq!(
        s.inode("os_version"),
        Some(before),
        "the no-op check must consult the segment, not just this process's cache"
    );
}

#[test]
fn a_boot_of_unchanged_sets_writes_nothing() {
    let (s, mut p) = Scratch::new();
    let keys: Vec<String> = (0..1100).map(|i| format!("nv_key_{:04}", i)).collect();
    for k in &keys {
        p.set(k, "value");
    }
    assert_eq!(p.commit(), 1);
    let before: Vec<Option<u64>> = keys.iter().map(|k| s.inode(k)).collect();

    let mut p = s.reboot();
    for k in &keys {
        p.set(k, "value");
    }
    assert_eq!(p.commit(), 1);
    let after: Vec<Option<u64>> = keys.iter().map(|k| s.inode(k)).collect();

    let rewritten = before.iter().zip(after.iter()).filter(|(a, b)| a != b).count();
    assert_eq!(rewritten, 0, "{} of {} keys were rewritten unnecessarily", rewritten, keys.len());
}

#[test]
fn a_genuine_change_still_reaches_the_disk() {
    let (s, mut p) = Scratch::new();
    p.set("k", "one");
    assert_eq!(p.commit(), 1);
    let before = s.inode("k").expect("file");
    let mut p = s.process();
    p.set("k", "two");
    assert_eq!(p.commit(), 1);
    assert_ne!(s.inode("k"), Some(before), "a real change must be written");
    assert_eq!(s.disk_read_str("k").as_deref(), Some("two"));
}

#[test]
fn a_key_already_owing_the_disk_a_write_still_gets_one() {
    let (s, mut p) = Scratch::new();
    p.set("k", "one");
    assert_eq!(p.commit(), 1);
    p.set("k", "two");
    p.set("k", "two");
    assert_eq!(p.commit(), 1);
    assert_eq!(s.disk_read_str("k").as_deref(), Some("two"));
}

#[test]
fn an_unchanged_set_does_not_invalidate_another_processs_cache() {
    let (s, mut p) = Scratch::new();
    p.set("k", "v");
    let before = p.place("k");
    let counter = p.slot_value(b"k");
    let mut q = s.process();
    q.set("k", "v");
    assert_eq!(q.get("k").as_deref(), Some("v"));
    assert_eq!(p.slot_value(b"k"), counter);
    assert_eq!(p.place("k"), before);
}

// -------------------------------------------------------------- bringing up --

/// A directory that is mounted over later, and what is mounted over it.
struct Mount {
    s: Scratch,
}

impl Mount {
    fn new() -> Mount {
        let (s, _) = Scratch::new_uninitialised();
        Mount { s }
    }

    fn unmounted(&self) {
        self.s.m.borrow_mut().mounted = 0;
    }

    fn mounted(&self) {
        self.s.m.borrow_mut().mounted = 1;
    }

    fn write_partition(&self, key: &str, val: &str) {
        let mut w = self.s.m.borrow_mut();
        let was = w.mounted;
        w.mounted = 1;
        w.create(key.as_bytes(), val.as_bytes());
        w.mounted = was;
    }
}

#[test]
fn an_nvram_call_does_not_create_a_segment() {
    let m = Mount::new();
    m.unmounted();
    let mut p = m.s.process();
    assert!(p.get_raw("anything").is_none());
    p.set("something", "value");
    let _ = p.get("something");
    assert!(p.degraded(), "no call may bring the shared store up");
    assert!(m.s.m.borrow().shm.is_none());
}

#[test]
fn a_read_before_the_mount_does_not_poison_the_boot() {
    let m = Mount::new();
    m.write_partition("restore_defaults", "0");
    m.write_partition("lan_ipaddr", "10.0.0.1");
    m.unmounted();
    let mut p = m.s.process();
    assert!(p.get_raw("restore_defaults").is_none());
    m.mounted();
    assert!(p.init(), "init must succeed once the store is mounted");
    assert_eq!(
        p.get("restore_defaults").as_deref(),
        Some("0"),
        "the real partition must be what the boot sees"
    );
    assert_eq!(p.get("lan_ipaddr").as_deref(), Some("10.0.0.1"));
}

#[test]
fn writes_made_before_init_are_picked_up_by_it() {
    let m = Mount::new();
    m.mounted();
    let mut p = m.s.process();
    p.set("early", "value");
    assert!(p.degraded());
    assert_eq!(
        m.s.disk_read_str("early").as_deref(),
        Some("value"),
        "a detached write must be durable immediately"
    );
    assert!(p.init());
    assert_eq!(
        p.get("early").as_deref(),
        Some("value"),
        "the preload must include what was written before it"
    );
}

#[test]
fn a_segment_built_before_the_mount_is_rejected_after_it() {
    let m = Mount::new();
    m.write_partition("lan_ipaddr", "10.0.0.1");
    m.unmounted();
    let mut p = m.s.process();
    assert!(p.init());
    assert!(!p.degraded());
    assert!(p.get_raw("lan_ipaddr").is_none(), "built from the wrong directory");
    m.mounted();
    let mut p = m.s.process();
    assert!(p.degraded(), "a segment built from a different filesystem must be rejected");
    assert_eq!(
        p.get("lan_ipaddr").as_deref(),
        Some("10.0.0.1"),
        "detached reads must still see the real store"
    );
}

#[test]
fn init_rebuilds_a_segment_that_was_built_before_the_mount() {
    let m = Mount::new();
    m.write_partition("lan_ipaddr", "10.0.0.1");
    m.unmounted();
    assert!(m.s.process().init());
    m.mounted();
    let mut p = m.s.process();
    assert!(p.degraded());
    assert!(p.init(), "init must recover from a stale segment");
    assert!(!p.degraded());
    assert_eq!(p.get("lan_ipaddr").as_deref(), Some("10.0.0.1"));
}

#[test]
fn a_detached_process_picks_up_a_segment_created_later() {
    let m = Mount::new();
    m.mounted();
    m.write_partition("k", "from-disk");
    let mut p = m.s.process();
    assert_eq!(p.get("k").as_deref(), Some("from-disk"));
    assert!(p.degraded());
    assert!(p.init());
    assert!(!p.degraded());
    assert_eq!(p.get("k").as_deref(), Some("from-disk"));
    p.set("k", "changed");
    assert_eq!(p.get("k").as_deref(), Some("changed"));
}

#[test]
fn a_detached_read_is_never_stale() {
    let m = Mount::new();
    m.mounted();
    m.write_partition("k", "one");
    let mut p = m.s.process();
    assert_eq!(p.get("k").as_deref(), Some("one"));
    m.write_partition("k", "two");
    assert_eq!(p.get("k").as_deref(), Some("two"), "a detached process must re-read, not cache");
}

#[test]
fn init_is_idempotent() {
    let m = Mount::new();
    m.mounted();
    let mut p = m.s.process();
    assert!(p.init());
    p.set("k", "v");
    assert!(p.init(), "a second init must be a no-op, not a rebuild");
    assert_eq!(
        p.get("k").as_deref(),
        Some("v"),
        "re-running init must not discard uncommitted state"
    );
}

#[test]
fn init_fails_when_the_store_is_not_there() {
    let m = Mount::new();
    m.mounted();
    m.s.m.borrow_mut().disk().present = false;
    let mut p = m.s.process();
    assert!(!p.init(), "init must report failure rather than build a store out of nothing");
    assert!(p.degraded());
}

fn router_defaults() -> Vec<(String, String)> {
    let mut v = vec![
        ("restore_defaults".to_string(), "0".to_string()),
        ("lan_ipaddr".to_string(), "192.168.1.1".to_string()),
    ];
    for i in 0..1100 {
        v.push((format!("nv_key_{:04}", i), format!("value-{}", i)));
    }
    v
}

/// What a boot does to its defaults. Returns whether it restored them.
fn restore_defaults(p: &mut Proc, defaults: &[(String, String)]) -> bool {
    let restoring = !p.matches("restore_defaults", "0");
    for (k, v) in defaults {
        if restoring || p.get_raw(k).is_none() {
            p.set(k, v);
        }
    }
    p.commit();
    restoring
}

#[test]
fn two_boots_with_a_pre_mount_touch_do_not_restore_defaults_twice() {
    let m = Mount::new();
    let d = router_defaults();

    m.unmounted();
    let mut p = m.s.process();
    let _ = p.get("anything");
    m.mounted();
    assert!(p.init());
    assert!(restore_defaults(&mut p, &d), "a fresh store must restore defaults");

    m.unmounted();
    let mut p = m.s.reboot_without_init();
    let _ = p.get("anything");
    m.mounted();
    assert!(p.init());
    assert!(!restore_defaults(&mut p, &d), "defaults must not be restored a second time");

    let mut lost = 0;
    for (k, v) in &d {
        if p.get(k).as_deref() != Some(v.as_str()) {
            lost += 1;
        }
    }
    assert_eq!(lost, 0, "{} values lost across the reboot", lost);
}

#[test]
fn a_user_setting_saved_after_defaults_survives_the_next_boot() {
    let m = Mount::new();
    let d = router_defaults();
    m.mounted();
    let mut p = m.s.process();
    assert!(p.init());
    restore_defaults(&mut p, &d);

    p.set("lan_ipaddr", "10.0.0.1");
    p.set("wan_hostname", "myrouter");
    assert_eq!(p.commit(), 1);

    let mut p = m.s.reboot();
    assert!(!restore_defaults(&mut p, &d), "must not wipe the user's settings");
    assert_eq!(p.get("lan_ipaddr").as_deref(), Some("10.0.0.1"));
    assert_eq!(p.get("wan_hostname").as_deref(), Some("myrouter"));
}

// ------------------------------------------------------------- key names --

#[test]
fn a_key_containing_a_separator_is_refused() {
    let (_s, mut p) = Scratch::new();
    assert_eq!(p.set("a/b", "x"), E_FAILURE, "a separator escapes the store");
    assert_eq!(p.get("a/b"), None, "and nothing was stored under it");
    let mut buf = [0u8; 4096];
    assert_eq!(p.getall(&mut buf), E_SUCCESS);
    assert!(parse_getall(&buf).is_empty(), "store should be empty");
}

#[test]
fn an_absolute_path_is_refused_too() {
    let (s, mut p) = Scratch::new();
    assert_eq!(p.set("/etc/passwd", "x"), E_FAILURE);
    assert_eq!(p.set("../escape", "x"), E_FAILURE);
    assert_eq!(p.commit(), E_SUCCESS);
    assert!(s.names().is_empty(), "store should be empty, holds {:?}", s.names());
}

#[test]
fn the_directory_names_are_refused() {
    let (_s, mut p) = Scratch::new();
    assert_eq!(p.set(".", "x"), E_FAILURE);
    assert_eq!(p.set("..", "x"), E_FAILURE);
}

#[test]
fn a_dotfile_key_is_refused_rather_than_lost_at_the_next_reboot() {
    let (s, mut p) = Scratch::new();
    assert_eq!(p.set(".hidden", "x"), E_FAILURE);
    assert_eq!(p.commit(), E_SUCCESS);
    assert_eq!(s.disk_read(".hidden"), None, "no file should exist");
    let mut p = s.reboot();
    assert_eq!(p.get(".hidden"), None);
}

#[test]
fn a_refused_key_does_not_wedge_every_later_commit() {
    let (s, mut p) = Scratch::new();
    assert_eq!(p.set("lan_ipaddr", "192.168.1.1"), E_SUCCESS);
    assert_eq!(p.set("bad/key", "whatever"), E_FAILURE);
    for i in 0..3 {
        assert_eq!(p.commit(), E_SUCCESS, "commit {} should still succeed", i);
    }
    assert_eq!(s.disk_read_str("lan_ipaddr").as_deref(), Some("192.168.1.1"));
    assert_eq!(p.set("lan_ipaddr", "10.0.0.1"), E_SUCCESS);
    assert_eq!(p.commit(), E_SUCCESS);
    assert_eq!(s.disk_read_str("lan_ipaddr").as_deref(), Some("10.0.0.1"));
}

#[test]
fn unset_of_an_absent_key_still_succeeds() {
    let (_s, mut p) = Scratch::new();
    assert_eq!(p.unset("never_set"), E_SUCCESS, "nothing left to do is not a failure");
}

#[test]
fn unset_reports_failure_for_a_name_the_store_cannot_hold() {
    let (_s, mut p) = Scratch::new();
    assert_eq!(p.unset("bad/key"), E_FAILURE);
    assert_eq!(p.unset(".hidden"), E_FAILURE);
}

#[test]
fn unset_of_a_real_key_succeeds_and_reaches_the_disk() {
    let (s, mut p) = Scratch::new();
    assert_eq!(p.set("wan_proto", "dhcp"), E_SUCCESS);
    assert_eq!(p.commit(), E_SUCCESS);
    assert!(s.disk_read("wan_proto").is_some());
    assert_eq!(p.unset("wan_proto"), E_SUCCESS);
    assert_eq!(p.get("wan_proto"), None);
    assert_eq!(p.commit(), E_SUCCESS);
    assert_eq!(s.disk_read("wan_proto"), None);
}

#[test]
fn the_same_names_are_refused_while_detached() {
    let (s, mut p) = Scratch::new_uninitialised();
    assert!(p.degraded());
    assert_eq!(p.set("a/b", "x"), E_FAILURE);
    assert_eq!(p.set(".hidden", "x"), E_FAILURE);
    assert_eq!(p.set("ok", "x"), E_SUCCESS, "an ordinary key still works");
    assert_eq!(s.disk_read_str("ok").as_deref(), Some("x"));
}

#[test]
fn a_key_too_long_for_its_temp_file_is_refused() {
    let (s, mut p) = Scratch::new();
    let longest = "k".repeat(MAX_KEY_LEN);
    assert_eq!(p.set(&longest, "x"), E_SUCCESS, "the longest legal key must work");
    let too_long = "k".repeat(MAX_KEY_LEN + 1);
    assert_eq!(p.set(&too_long, "x"), E_FAILURE);
    assert_eq!(p.get(&too_long), None);
    let plausible = "k".repeat(250);
    assert_eq!(p.set(&plausible, "x"), E_FAILURE);
    assert_eq!(p.commit(), E_SUCCESS);
    assert_eq!(s.disk_read_str(&longest).as_deref(), Some("x"));
    assert_eq!(s.disk_read(&too_long), None);
    let mut p = s.reboot();
    assert_eq!(p.get(&longest).as_deref(), Some("x"));
}

#[test]
fn an_over_long_key_does_not_wedge_every_later_commit() {
    let (s, mut p) = Scratch::new();
    assert_eq!(p.set("wan_proto", "dhcp"), E_SUCCESS);
    assert_eq!(p.set(&"k".repeat(250), "x"), E_FAILURE);
    for i in 0..3 {
        assert_eq!(p.commit(), E_SUCCESS, "commit {} should still succeed", i);
    }
    assert_eq!(s.disk_read_str("wan_proto").as_deref(), Some("dhcp"));
}

// ------------------------------------------------------ several processes --

/// Sets `n` keys, the way a short-lived process does.
fn set_many(p: &mut Proc, prefix: &str, n: usize) {
    for i in 0..n {
        assert_eq!(p.set(&format!("{}{}", prefix, i), &format!("v{}", i)), E_SUCCESS);
    }
}

#[test]
fn write_in_another_process_is_seen_immediately() {
    let (s, mut p) = Scratch::new();
    p.set("lan_ipaddr", "192.168.1.1");
    for _ in 0..100 {
        assert_eq!(p.get("lan_ipaddr").as_deref(), Some("192.168.1.1"));
    }
    assert_eq!(s.process().set("lan_ipaddr", "10.0.0.1"), E_SUCCESS);
    assert_eq!(
        p.get("lan_ipaddr").as_deref(),
        Some("10.0.0.1"),
        "cached value was not invalidated by another process's write"
    );
    assert!(s.disk_read("lan_ipaddr").is_none(), "a plain set must not have reached disk");
}

#[test]
fn unset_in_another_process_is_seen_immediately() {
    let (s, mut p) = Scratch::new();
    p.set("temp_key", "value");
    assert_eq!(p.get("temp_key").as_deref(), Some("value"));
    assert_eq!(s.process().unset("temp_key"), E_SUCCESS);
    assert_eq!(p.get("temp_key"), None, "deletion not observed");
}

#[test]
fn write_here_is_seen_in_another_process() {
    let (s, mut p) = Scratch::new();
    p.set("wan_proto", "pppoe");
    assert_eq!(s.process().get("wan_proto").as_deref(), Some("pppoe"));
}

#[test]
fn child_sets_child_exits_parent_commits() {
    let (s, mut p) = Scratch::new();
    set_many(&mut s.process(), "restored_", 200);
    assert!(s.disk_read("restored_0").is_none());
    assert_eq!(p.commit(), E_SUCCESS);
    for i in [0usize, 99, 199] {
        assert_eq!(
            s.disk_read(&format!("restored_{}", i)).as_deref(),
            Some(format!("v{}", i).as_bytes()),
            "key {} did not reach disk",
            i
        );
    }
    let mut p = s.reboot();
    assert_eq!(p.get("restored_150").as_deref(), Some("v150"));
}

#[test]
fn concurrent_writers_distinct_keys() {
    let (s, _p) = Scratch::new();
    let mut kids: Vec<Proc> = (0..4).map(|_| s.process()).collect();
    for i in 0..150 {
        for (w, k) in kids.iter_mut().enumerate() {
            assert_eq!(k.set(&format!("w{}_{}", w, i), &format!("v{}", i)), E_SUCCESS);
        }
    }
    let mut p = s.process();
    for w in 0..4 {
        for i in [0usize, 74, 149] {
            assert_eq!(
                p.get(&format!("w{}_{}", w, i)).as_deref(),
                Some(format!("v{}", i).as_str()),
                "lost update w{}_{}",
                w,
                i
            );
        }
    }
}

/// A reader while another process rewrites a key with wildly different
/// lengths: every value that it sees was written.
#[test]
fn reader_never_sees_a_torn_value() {
    let (s, mut p) = Scratch::new();
    p.set("churn_key", "S");
    let mut writer = s.process();
    let long = "L".repeat(40_000);
    let mut observations = 0usize;
    for i in 0..3000 {
        assert_eq!(writer.set("churn_key", if i % 2 == 0 { &long } else { "S" }), E_SUCCESS);
        match p.get("churn_key") {
            Some(v) => {
                assert!(v == "S" || v == long, "torn read: {} bytes", v.len());
                observations += 1;
            }
            None => panic!("a live key read back as absent"),
        }
    }
    assert!(observations > 100, "too few reads to be meaningful");
}

#[test]
fn concurrent_writers_same_key() {
    let (s, _p) = Scratch::new();
    let mut a = s.process();
    let mut b = s.process();
    let long = "L".repeat(40_000);
    for i in 0..400 {
        assert_eq!(a.set("shared_key", if i % 2 == 0 { &long } else { "S" }), E_SUCCESS);
        assert_eq!(b.set("shared_key", if i % 2 == 0 { &long } else { "S" }), E_SUCCESS);
    }
    let v = s.process().get("shared_key").expect("key present");
    assert!(v == "S" || v == long, "final value is a mixture ({} bytes)", v.len());
}

#[test]
fn second_process_attaches_to_live_segment() {
    let (s, mut p) = Scratch::new();
    p.set("uncommitted", "in-memory-only");
    assert!(s.disk_read("uncommitted").is_none());
    assert_eq!(
        s.process().get("uncommitted").as_deref(),
        Some("in-memory-only"),
        "new process did not attach to the live segment"
    );
}

/// An object that its creator has not sized yet is neither used nor removed.
#[test]
fn half_created_segment_is_not_destroyed() {
    let (s, _p) = Scratch::new();
    let stub = Rc::new(RefCell::new(Shm { size: 0, seg: Segment::zeroed() }));
    s.m.borrow_mut().shm = Some(stub.clone());
    let mut p = s.process();
    let _ = p.get("anything");
    assert!(p.degraded());
    assert!(Rc::ptr_eq(s.m.borrow().shm.as_ref().unwrap(), &stub));

    s.m.borrow_mut().shm = None;
    let mut p = s.process();
    assert_eq!(p.set("lan_ipaddr", "192.168.1.1"), E_SUCCESS);
    assert_eq!(p.get("lan_ipaddr").as_deref(), Some("192.168.1.1"));
}

#[test]
fn concurrent_cold_start_converges_on_one_segment() {
    let (s, _p) = Scratch::new();
    s.m.borrow_mut().shm = None;
    let mut kids: Vec<Proc> = (0..8).map(|_| s.process()).collect();
    for (i, k) in kids.iter_mut().enumerate() {
        assert_eq!(k.set(&format!("racer{}", i), "here"), E_SUCCESS);
    }
    let mut p = s.process();
    for i in 0..8 {
        assert_eq!(
            p.get(&format!("racer{}", i)).as_deref(),
            Some("here"),
            "racer{} lost - processes did not share one segment",
            i
        );
    }
}

#[test]
fn a_detached_process_reattaches_when_another_process_brings_the_store_up() {
    let (s, mut p) = Scratch::new_uninitialised();
    s.disk_write("lan_ipaddr", b"192.168.1.1");
    assert_eq!(p.get("lan_ipaddr").as_deref(), Some("192.168.1.1"));
    assert!(p.degraded(), "no segment yet");
    assert!(s.process().init());
    for _ in 0..64 {
        let _ = p.get("lan_ipaddr");
        if !p.degraded() {
            break;
        }
    }
    assert!(!p.degraded(), "a detached process must pick up a segment created later");
    assert_eq!(p.get("lan_ipaddr").as_deref(), Some("192.168.1.1"));
    assert_eq!(s.process().set("lan_ipaddr", "10.0.0.1"), E_SUCCESS);
    assert_eq!(
        p.get("lan_ipaddr").as_deref(),
        Some("10.0.0.1"),
        "cross-process visibility must work immediately after reattaching"
    );
}

#[test]
fn a_short_lived_process_attaches_rather_than_creating() {
    let (s, p) = Scratch::new_uninitialised();
    s.disk_write("k", b"on-disk");
    assert_eq!(s.process().get("k").as_deref(), Some("on-disk"));
    assert!(p.degraded());
    assert!(s.process().degraded(), "a child running detached must not have created a segment");
}

// ------------------------------------------------------ commits and others --

#[test]
fn a_commits_writes_do_not_block_another_processs_set() {
    let (s, mut p) = Scratch::new();
    for i in 0..50 {
        assert_eq!(p.set(&format!("k{}", i), &"v".repeat(64)), E_SUCCESS);
    }
    let mut child = s.process();
    let mut c = child.commit_to_window();
    let mut probes = 0;
    while !matches!(c.op.now(), CommitStep::LockAgain) {
        assert!(!s.m.borrow().writer.held, "the writer lock is held across the file writes");
        assert_eq!(s.process().set(&format!("probe{}", probes), "1"), E_SUCCESS);
        probes += 1;
        child.commit_step(&mut c);
    }
    assert_eq!(probes, 50 + 1 + 50, "fifty files staged, one flush, fifty files published");
    assert_eq!(child.finish_commit(c), E_SUCCESS);
}

#[test]
fn a_set_during_the_write_window_is_not_lost() {
    let (s, mut p) = Scratch::new();
    assert_eq!(p.set("wan_proto", "old"), E_SUCCESS);
    assert_eq!(p.commit(), E_SUCCESS);
    assert_eq!(s.disk_read_str("wan_proto").as_deref(), Some("old"));

    assert_eq!(p.set("wan_proto", "mid"), E_SUCCESS);
    let mut child = s.process();
    let c = child.commit_to_window();
    assert!(matches!(c.op.now(), CommitStep::Stage(_)));

    assert_eq!(p.set("wan_proto", "new"), E_SUCCESS);
    assert_eq!(child.finish_commit(c), E_SUCCESS, "child commit failed");

    assert_eq!(s.disk_read_str("wan_proto").as_deref(), Some("mid"));
    assert_eq!(p.get("wan_proto").as_deref(), Some("new"), "memory is current");

    assert_eq!(p.commit(), E_SUCCESS);
    assert_eq!(
        s.disk_read_str("wan_proto").as_deref(),
        Some("new"),
        "a set made during another process's commit was lost"
    );
}

#[test]
fn an_unset_during_the_write_window_is_not_lost() {
    let (s, mut p) = Scratch::new();
    assert_eq!(p.set("doomed", "value"), E_SUCCESS);
    let mut child = s.process();
    let c = child.commit_to_window();
    assert!(matches!(c.op.now(), CommitStep::Stage(_)));
    assert_eq!(p.unset("doomed"), E_SUCCESS);
    assert_eq!(child.finish_commit(c), E_SUCCESS);
    assert_eq!(p.commit(), E_SUCCESS);
    assert_eq!(s.disk_read("doomed"), None, "the unset never reached disk");
}

/// A clear waits for the commit lock until the commit is over.
#[test]
fn a_clear_during_the_write_window_does_not_resurrect_files() {
    let (s, mut p) = Scratch::new();
    assert_eq!(p.set("doomed", "value"), E_SUCCESS);
    let mut child = s.process();
    let c = child.commit_to_window();
    assert!(matches!(c.op.now(), CommitStep::Stage(_)));
    assert!(s.m.borrow().commit.held, "a clear that starts now has to wait");
    assert_eq!(child.finish_commit(c), E_SUCCESS, "child commit failed");
    assert_eq!(p.clear(), E_SUCCESS);
    assert_eq!(s.disk_read("doomed"), None, "a write landed after the store was deleted");
    let mut p = s.reboot();
    assert_eq!(p.get("doomed"), None, "a resurrected file became a variable again");
}

#[test]
fn two_commits_serialise_against_each_other() {
    let (s, mut p) = Scratch::new();
    for i in 0..20 {
        assert_eq!(p.set(&format!("k{}", i), "v"), E_SUCCESS);
    }
    let mut a = s.process();
    let mut b = s.process();
    let mut c = a.start_commit();
    let mut steps = 0;
    while !matches!(c.op.now(), CommitStep::Finish(_)) {
        let first = matches!(c.op.now(), CommitStep::LockCommit);
        assert_eq!(s.m.borrow().commit.held, !first, "the commit lock is not holding");
        a.commit_step(&mut c);
        steps += 1;
    }
    assert!(steps > 40);
    assert_eq!(a.finish_commit(c), E_SUCCESS);
    assert_eq!(b.commit(), E_SUCCESS);
}

/// The kernel gives the lock of a dead process back.
#[test]
fn a_killed_committer_does_not_wedge_the_commit_lock() {
    let (s, mut p) = Scratch::new();
    assert_eq!(p.set("lan_ipaddr", "192.168.1.1"), E_SUCCESS);
    let mut child = s.process();
    let c = child.commit_to_window();
    assert!(matches!(c.op.now(), CommitStep::Stage(_)));
    drop(c);
    drop(child);
    s.m.borrow_mut().commit.held = false;
    assert_eq!(p.commit(), E_SUCCESS);
    assert_eq!(s.disk_read_str("lan_ipaddr").as_deref(), Some("192.168.1.1"));
}

#[test]
fn the_ordinary_path_still_persists_everything() {
    let (s, mut p) = Scratch::new();
    for i in 0..200 {
        assert_eq!(p.set(&format!("var{}", i), &format!("value{}", i)), E_SUCCESS);
    }
    assert_eq!(p.commit(), E_SUCCESS);
    for i in 0..200 {
        assert_eq!(
            s.disk_read_str(&format!("var{}", i)).as_deref(),
            Some(format!("value{}", i).as_str())
        );
    }
    let mut p = s.reboot();
    for i in 0..200 {
        assert_eq!(
            p.get(&format!("var{}", i)).as_deref(),
            Some(format!("value{}", i).as_str())
        );
    }
}

#[test]
fn a_from_scratch_commit_rewrites_the_whole_store() {
    let (s, mut p) = Scratch::new();
    for i in 0..300 {
        assert_eq!(p.set(&format!("var{}", i), &format!("value{}", i)), E_SUCCESS);
    }
    assert_eq!(p.commit(), E_SUCCESS);
    s.wipe();
    assert_eq!(s.disk_read("var0"), None, "the wipe did not take");

    let before = s.m.borrow().flushes;
    assert_eq!(p.commit(), E_SUCCESS);
    assert_eq!(s.m.borrow().flushes, before + 2, "one flush for the files, one for their names");
    for i in 0..300 {
        assert_eq!(
            s.disk_read_str(&format!("var{}", i)).as_deref(),
            Some(format!("value{}", i).as_str()),
            "key var{} did not come back",
            i
        );
    }
    let leftovers: Vec<String> =
        s.names().into_iter().filter(|n| n.starts_with(".tmp.")).collect();
    assert!(leftovers.is_empty(), "commit left temp files behind: {:?}", leftovers);
    let mut p = s.reboot();
    assert_eq!(p.get("var299").as_deref(), Some("value299"));
}

// ---------------------------------------------------------- dead writers --

#[test]
fn a_poisoned_slot_does_not_hide_an_uncommitted_value() {
    let (s, mut p) = Scratch::new();
    assert_eq!(p.set("wan_proto", "dhcp"), E_SUCCESS);
    assert_eq!(s.disk_read("wan_proto"), None);
    assert!(p.poison("wan_proto"), "expected a segment");
    let mut p = s.process();
    assert_eq!(
        p.get("wan_proto").as_deref(),
        Some("dhcp"),
        "a live uncommitted key read as absent after a writer death"
    );
}

#[test]
fn a_poisoned_slot_is_repaired_not_merely_worked_around() {
    let (s, mut p) = Scratch::new();
    assert_eq!(p.set("lan_ipaddr", "192.168.1.1"), E_SUCCESS);
    assert!(p.poison("lan_ipaddr"));
    assert_eq!(p.slot_value(b"lan_ipaddr") % 2, 1);
    let mut p = s.process();
    assert_eq!(p.get("lan_ipaddr").as_deref(), Some("192.168.1.1"));
    assert_eq!(p.slot_value(b"lan_ipaddr") % 2, 0);
    assert_eq!(p.set("lan_ipaddr", "10.0.0.1"), E_SUCCESS);
    let mut p = s.process();
    assert_eq!(p.get("lan_ipaddr").as_deref(), Some("10.0.0.1"));
    assert_eq!(p.commit(), E_SUCCESS);
    assert_eq!(s.disk_read_str("lan_ipaddr").as_deref(), Some("10.0.0.1"));
}

#[test]
fn other_keys_sharing_the_poisoned_slot_survive_too() {
    let (s, mut p) = Scratch::new();
    for i in 0..200 {
        assert_eq!(p.set(&format!("var{}", i), &format!("value{}", i)), E_SUCCESS);
    }
    for i in 0..200 {
        assert!(p.poison(&format!("var{}", i)));
    }
    let mut p = s.process();
    for i in 0..200 {
        assert_eq!(
            p.get(&format!("var{}", i)).as_deref(),
            Some(format!("value{}", i).as_str()),
            "var{} lost after a writer death",
            i
        );
    }
}

#[test]
fn a_write_alone_repairs_the_parity() {
    let (s, mut p) = Scratch::new();
    assert_eq!(p.set("wan_proto", "dhcp"), E_SUCCESS);
    assert!(p.poison("wan_proto"));
    assert_eq!(p.set("wan_proto", "pppoe"), E_SUCCESS);
    let mut p = s.process();
    assert_eq!(p.get("wan_proto").as_deref(), Some("pppoe"));
    assert_eq!(p.commit(), E_SUCCESS);
    assert_eq!(s.disk_read_str("wan_proto").as_deref(), Some("pppoe"));
}

// ------------------------------------------------------------- at scale --

/// What a real set of defaults looks like.
fn defaults() -> Vec<(String, String)> {
    let mut v = Vec::new();
    v.push(("restore_defaults".to_string(), "0".to_string()));
    v.push(("lan_ipaddr".to_string(), "192.168.1.1".to_string()));
    for i in 0..1100 {
        v.push((format!("nv_key_{:04}", i), format!("value-{}", i)));
    }
    for i in 0..6 {
        v.push((format!("vpn_crt_{}", i), "X".repeat(3000)));
    }
    v
}

#[test]
fn boot_then_commit_from_another_process_persists_everything() {
    let (s, mut p) = Scratch::new();
    let d = defaults();
    for (k, v) in &d {
        assert_eq!(p.set(k, v), 1, "set {} failed", k);
    }
    let mut p = s.process();
    assert_eq!(p.commit(), 1, "commit reported failure");
    let missing = d.iter().filter(|(k, _)| s.disk_read(k).is_none()).count();
    assert_eq!(missing, 0, "{} keys never reached disk", missing);
}

#[test]
fn reboot_after_commit_sees_the_committed_values() {
    let (s, mut p) = Scratch::new();
    let d = defaults();
    for (k, v) in &d {
        p.set(k, v);
    }
    assert_eq!(p.commit(), 1);
    let mut p = s.reboot();
    assert_eq!(
        p.get("restore_defaults").as_deref(),
        Some("0"),
        "restore_defaults did not survive the reboot"
    );
    let mut lost = 0;
    for (k, v) in &d {
        if p.get(k).as_deref() != Some(v.as_str()) {
            lost += 1;
        }
    }
    assert_eq!(lost, 0, "{} keys lost across reboot", lost);
}

#[test]
fn churn_then_commit() {
    let (s, mut p) = Scratch::new();
    let d = defaults();
    for (k, v) in &d {
        p.set(k, v);
    }
    for round in 0..12 {
        for (k, _) in d.iter().take(600) {
            p.set(k, &format!("round-{}-{}", round, k));
        }
    }
    for (k, v) in &d {
        p.set(k, v);
    }
    let mut p = s.process();
    assert_eq!(p.commit(), 1);
    let wrong =
        d.iter().filter(|(k, v)| s.disk_read(k).as_deref() != Some(v.as_bytes())).count();
    assert_eq!(wrong, 0, "{} keys wrong on disk", wrong);
}

/// A store shaped like a real one.
fn realistic_store() -> Vec<(String, String)> {
    let mut v = Vec::new();
    v.push(("restore_defaults".to_string(), "0".to_string()));
    for i in 0..3450 {
        v.push((format!("nv_key_{:04}", i), format!("value-{}", i)));
    }
    for i in 0..4 {
        v.push((format!("vpn_server{}_ca", i), "C".repeat(2200)));
        v.push((format!("vpn_server{}_crt", i), "C".repeat(2600)));
        v.push((format!("vpn_server{}_key", i), "K".repeat(3200)));
        v.push((format!("vpn_server{}_dh", i), "D".repeat(1600)));
    }
    for n in ["script_init", "script_fire", "script_shut", "script_wanup"] {
        v.push((n.to_string(), "#!/bin/sh\n".repeat(400)));
    }
    v.push(("dhcpd_static".to_string(), "AA:BB:CC:DD:EE:FF<1.2.3.4<host>".repeat(300)));
    v.push(("portforward".to_string(), "1<3<1000<2000<<1.2.3.4<note>".repeat(400)));
    v
}

#[test]
fn a_realistic_store_fits_and_every_set_succeeds() {
    let (_s, mut p) = Scratch::new();
    let store = realistic_store();
    let failed = store.iter().filter(|(k, v)| p.set(k, v) != 1).count();
    assert_eq!(failed, 0, "{} sets failed", failed);
}

#[test]
fn a_boots_worth_of_churn_does_not_start_dropping_writes() {
    let (s, mut p) = Scratch::new();
    let store = realistic_store();
    for (k, v) in &store {
        assert_eq!(p.set(k, v), 1);
    }
    let mut failed = 0;
    for round in 0..40 {
        for (k, v) in store.iter() {
            if p.set(k, &format!("{}#{}", v, round)) != 1 {
                failed += 1;
            }
        }
    }
    let restore_failed = store.iter().filter(|(k, v)| p.set(k, v) != 1).count();
    assert_eq!(p.commit(), 1, "commit failed");
    assert_eq!(failed, 0, "writes were dropped during churn");
    assert_eq!(restore_failed, 0, "writes dropped while restoring defaults");
    assert_eq!(
        s.disk_read("restore_defaults").as_deref(),
        Some(b"0".as_ref()),
        "restore_defaults did not reach disk"
    );
    assert_eq!(s.names().len(), store.len());
}

// ---------------------------------------------------------------- signals --

#[test]
fn a_signal_while_waiting_for_the_lock_does_not_discard_the_write() {
    let (s, mut p) = Scratch::new();
    s.m.borrow_mut().signals = 3;
    let rc = p.set("wan_proto", "dhcp");
    assert_eq!(s.m.borrow().signals, 0, "nothing was interrupted");
    assert_eq!(rc, E_SUCCESS, "a set reported failure after being interrupted by a signal");
    assert_eq!(
        p.get("wan_proto").as_deref(),
        Some("dhcp"),
        "the value was silently discarded"
    );
}

#[test]
fn a_signal_while_waiting_does_not_discard_an_unset() {
    let (s, mut p) = Scratch::new();
    assert_eq!(p.set("doomed", "value"), E_SUCCESS);
    s.m.borrow_mut().signals = 3;
    assert_eq!(p.unset("doomed"), E_SUCCESS);
    assert_eq!(s.m.borrow().signals, 0, "nothing was interrupted");
    assert_eq!(p.get("doomed"), None, "the unset was silently discarded");
}

#[test]
fn a_signal_while_waiting_does_not_abort_a_commit() {
    let (s, mut p) = Scratch::new();
    assert_eq!(p.set("lan_ipaddr", "192.168.1.1"), E_SUCCESS);
    s.m.borrow_mut().signals = 3;
    assert_eq!(p.commit(), E_SUCCESS, "commit reported failure after a signal");
    assert_eq!(s.m.borrow().signals, 0, "nothing was interrupted");
    assert_eq!(s.disk_read_str("lan_ipaddr").as_deref(), Some("192.168.1.1"));
}

// ------------------------------------------------------------ no leakage --
//
// Reads hand out the same bytes again and again, and a set that changes nothing
// leaves them alone: nothing is allocated that outlives the call.

#[test]
fn nvram_get_does_not_leak() {
    let (_s, mut p) = Scratch::new();
    p.set("cstats_exclude", "192.168.1.5 192.168.1.6");
    let first = p.place("cstats_exclude");
    for _ in 0..1_000_000 {
        assert_eq!(p.place("cstats_exclude"), first);
    }
}

#[test]
fn nvram_get_int_does_not_leak() {
    let (_s, mut p) = Scratch::new();
    p.set("cstats_offset", "1");
    let first = p.place("cstats_offset");
    for _ in 0..1_000_000 {
        assert_eq!(p.get_int("cstats_offset"), 1);
    }
    assert_eq!(p.place("cstats_offset"), first);
}

#[test]
fn absent_key_reads_do_not_leak() {
    let (_s, mut p) = Scratch::new();
    assert!(p.get_raw("no_such_key").is_none());
    let (held, stored) = (p.held(), p.stored());
    for _ in 0..1_000_000 {
        assert!(p.get_raw("no_such_key").is_none());
    }
    assert_eq!(p.held(), held, "one entry, however often the key is read");
    assert_eq!(p.stored(), stored);
    assert_eq!(p.store.retired(b"no_such_key"), None);
}

#[test]
fn redundant_set_does_not_leak() {
    let (_s, mut p) = Scratch::new();
    p.set("wan_proto", "dhcp");
    let first = p.place("wan_proto");
    for _ in 0..200_000 {
        assert_eq!(p.set("wan_proto", "dhcp"), E_SUCCESS);
    }
    assert_eq!(p.place("wan_proto"), first);
}

/// Growth is flat: neither the process nor the segment holds more after many
/// changes than after few, and garbage in the arena is reclaimed once there is
/// a quarter of it.
#[test]
fn repeated_distinct_sets_do_not_accumulate() {
    let (_s, mut p) = Scratch::new();
    let mut after = Vec::new();
    for _ in 0..4 {
        for i in 0..100_000 {
            let v = if i % 2 == 0 { "a" } else { "b" };
            assert_eq!(p.set("flip", v), E_SUCCESS);
        }
        let c = p.mapped.as_ref().unwrap().borrow();
        let h = c.seg.header();
        assert!(h.arena_used <= 256 * 1024 + 16, "{}", h.arena_used);
        after.push((p.held(), h.arena_used - h.arena_garbage));
    }
    for (held, live) in &after {
        assert_eq!(*live, 5, "the key and one value");
        assert!(*held <= after[0].0 + 8, "but for the digits of the counter");
    }
}

// ------------------------------------------------------------- and more --

/// A pointer handed out before the process attached is good until the key
/// changes.
#[test]
fn a_pointer_survives_attaching() {
    let (s, mut p) = Scratch::new_uninitialised();
    s.m.borrow_mut().create(b"k", b"v");
    let first = p.place("k");
    assert!(p.degraded());
    assert!(p.init());
    assert!(!p.degraded());
    assert_eq!(p.get("k").as_deref(), Some("v"));
    let second = p.place("k");
    let kept = p.store.retired(b"k").unwrap();
    assert_eq!(kept.as_ptr() as usize, first);
    assert_eq!(&kept[..], b"v\0");

    // And so is the one handed out since.
    p.set("other", "x");
    s.process().set("k", "v");
    assert_eq!(p.place("k"), second);
    assert_eq!(p.store.retired(b"k").unwrap().as_ptr() as usize, first);
}

/// Whatever happens to other keys, a key that does not change is where it was.
#[test]
fn an_unchanged_key_stays_where_it_is() {
    let (s, mut p) = Scratch::new();
    p.set("still", "here");
    let place = p.place("still");
    let mut other = s.process();
    for i in 0..3000 {
        let key = format!("key{}", i % 50);
        other.set(&key, &format!("{}", i).repeat(40));
        if i % 7 == 0 {
            other.set("still", "here");
            other.unset(&key);
        }
    }
    assert!(p.stored().1 < 256 * 1024 + 4096, "the arena was compacted meanwhile");
    assert_eq!(p.place("still"), place);
}

/// A store of which a key cannot be read is not brought up: what is absent from
/// a published segment does not exist.
#[test]
fn an_unreadable_key_keeps_the_store_down() {
    let (s, mut p) = Scratch::new_uninitialised();
    s.m.borrow_mut().create(b"a", b"1");
    s.m.borrow_mut().create(b"b", b"2");
    s.m.borrow_mut().unreadable.push(b"b".to_vec());
    assert!(!p.init());
    assert!(p.degraded());
    assert!(s.m.borrow().shm.is_none());
    let mut buf = vec![0u8; 64];
    assert_eq!(p.getall(&mut buf), E_SUCCESS);
    assert_eq!(&buf[..5], b"a=1\0\0", "a listing gives what can be read");

    s.m.borrow_mut().unreadable.clear();
    assert!(p.init());
    assert_eq!(p.get("b").as_deref(), Some("2"));
}

/// A clear that leaves a file behind says so.
#[test]
fn a_clear_that_leaves_a_file_fails() {
    let (s, mut p) = Scratch::new();
    p.set("a", "1");
    p.set("b", "2");
    assert_eq!(p.commit(), E_SUCCESS);
    s.m.borrow_mut().unreadable.push(b"b".to_vec());
    assert_eq!(p.clear(), E_FAILURE);
    assert_eq!(s.m.borrow_mut().read(b"a"), None);
    assert_eq!(s.m.borrow_mut().read(b"b").as_deref(), Some(&b"2"[..]));
    s.m.borrow_mut().unreadable.clear();
    assert_eq!(p.clear(), E_SUCCESS);
    assert_eq!(s.m.borrow_mut().read(b"b"), None);
}

/// A commit puts back what was changed behind its back.
#[test]
fn a_commit_heals_the_files() {
    let (s, mut p) = Scratch::new();
    p.set("gone", "1");
    p.set("cut", "22");
    assert_eq!(p.commit(), E_SUCCESS);
    s.m.borrow_mut().disk().files.remove(&b"gone".to_vec());
    s.m.borrow_mut().create(b"cut", b"2");
    assert_eq!(p.commit(), E_SUCCESS);
    assert_eq!(s.m.borrow_mut().read(b"gone").as_deref(), Some(&b"1"[..]));
    assert_eq!(s.m.borrow_mut().read(b"cut").as_deref(), Some(&b"22"[..]));
}

/// The throttle: the first operation of a detached process tries to attach,
/// and then every sixteenth.
#[test]
fn a_detached_process_tries_to_attach_now_and_then() {
    let (s, mut p) = Scratch::new_uninitialised();
    assert_eq!(p.get("k"), None);
    assert!(s.process().init());
    for i in 1..16 {
        assert_eq!(p.get("k"), None);
        assert!(p.degraded(), "operation {}", i);
    }
    assert_eq!(p.get("k"), None);
    assert!(!p.degraded());
}

/// A set reaches the disk of every process's making by any process's commit,
/// and a commit notes what it paid.
#[test]
fn a_second_commit_writes_nothing() {
    let (s, mut p) = Scratch::new();
    set_many(&mut p, "k", 10);
    assert_eq!(p.commit(), E_SUCCESS);
    assert_eq!(s.m.borrow().writes, 10);
    assert_eq!(s.process().commit(), E_SUCCESS);
    assert_eq!(s.m.borrow().writes, 10);
}

/// A file of the same length is not noticed.
#[test]
fn a_same_length_edit_is_not_noticed() {
    let (s, mut p) = Scratch::new();
    p.set("k", "abc");
    assert_eq!(p.commit(), E_SUCCESS);
    s.disk_write("k", b"xyz");
    assert_eq!(p.commit(), E_SUCCESS);
    assert_eq!(s.disk_read_str("k").as_deref(), Some("xyz"));
}

/// Temporary files of a commit that was cut short are swept.
#[test]
fn leftovers_are_swept_when_the_store_is_loaded() {
    let (s, mut p) = Scratch::new();
    p.set("k", "v");
    assert_eq!(p.commit(), E_SUCCESS);
    s.disk_write(".tmp.17.k", b"half");
    s.disk_write(".hidden", b"x");
    let mut p = s.reboot();
    assert_eq!(s.names(), vec![".hidden", "k"]);
    assert_eq!(p.get("k").as_deref(), Some("v"));
    assert_eq!(p.get(".hidden"), None);
}

/// Without the commit lock, or with no directory at all, nothing is done.
#[test]
fn a_lost_directory_fails_every_change() {
    let (s, mut p) = Scratch::new();
    p.set("k", "v");
    s.m.borrow_mut().disk().present = false;
    assert_eq!(p.set("k", "w"), E_FAILURE);
    assert_eq!(p.unset("k"), E_FAILURE);
    assert_eq!(p.commit(), E_FAILURE);
    assert_eq!(p.clear(), E_FAILURE);
    let mut buf = [0u8; 64];
    assert_eq!(p.getall(&mut buf), E_FAILURE);
    assert_eq!(p.get("k").as_deref(), Some("v"), "reads need no lock");
}

/// A detached listing comes from the files.
#[test]
fn a_detached_listing_reads_the_files() {
    let (s, mut p) = Scratch::new_uninitialised();
    s.disk_write("b", b"2");
    s.disk_write("a", b"1");
    s.disk_write(".skipped", b"3");
    let mut buf = [7u8; 16];
    assert_eq!(p.getall(&mut buf), E_SUCCESS);
    assert_eq!(&buf[..9], b"a=1\0b=2\0\0");
    assert_eq!(buf[9], 7);
}

/// A clear by a process without a segment empties the files.
#[test]
fn a_detached_clear_empties_the_files() {
    let (s, mut p) = Scratch::new_uninitialised();
    p.set("a", "1");
    assert_eq!(p.clear(), E_SUCCESS);
    assert!(s.names().is_empty());
    assert_eq!(p.get("a"), None);
}
