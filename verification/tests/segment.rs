//! The segment by itself: its contents, and the stores made into it.

use nvram::consts::{ARENA_SIZE, INDEX_SLOTS, MAX_PROBES, SHM_MAGIC, SHM_VERSION, SLOTS};
use nvram::hash::fnv1a;
use nvram::image::{Header, IndexEntry, Write, FL_DIRTY, ST_EMPTY, ST_LIVE, ST_TOMB};
use nvram::shm::{Pending, Read, Segment, HEADER_SIZE, INDEX_SIZE, SEGMENT_SIZE};

/// The parts of a segment, as a process that has it mapped keeps them.
struct Parts {
    header: Header,
    index: Vec<IndexEntry>,
    arena: Vec<u8>,
}

fn blank() -> Parts {
    let entry = IndexEntry {
        hash: 0,
        key_off: 0,
        key_len: 0,
        val_off: 0,
        val_len: 0,
        state: ST_EMPTY,
        flags: 0,
    };
    Parts {
        header: Header {
            magic: 0,
            version: 0,
            ready: 0,
            store_dev: 0,
            arena_seq: 0,
            global_gen: 0,
            arena_used: 0,
            arena_garbage: 0,
            slots: vec![0; SLOTS],
        },
        index: vec![entry; INDEX_SLOTS],
        arena: vec![0; ARENA_SIZE],
    }
}

fn store(p: &mut Parts, w: &Write) {
    match w {
        Write::Magic(v) => p.header.magic = *v,
        Write::Version(v) => p.header.version = *v,
        Write::Ready(v) => p.header.ready = *v,
        Write::StoreDev(v) => p.header.store_dev = *v,
        Write::ArenaSeq(v) => p.header.arena_seq = *v,
        Write::GlobalGen(v) => p.header.global_gen = *v,
        Write::ArenaUsed(v) => p.header.arena_used = *v,
        Write::ArenaGarbage(v) => p.header.arena_garbage = *v,
        Write::Slot(i, v) => p.header.slots[*i] = *v,
        Write::Hash(i, v) => p.index[*i].hash = *v,
        Write::KeyOff(i, v) => p.index[*i].key_off = *v,
        Write::KeyLen(i, v) => p.index[*i].key_len = *v,
        Write::ValOff(i, v) => p.index[*i].val_off = *v,
        Write::ValLen(i, v) => p.index[*i].val_len = *v,
        Write::State(i, v) => p.index[*i].state = *v,
        Write::Flags(i, v) => p.index[*i].flags = *v,
        Write::Arena(off, bytes) => p.arena[*off..*off + bytes.len()].copy_from_slice(bytes),
    }
}

fn copy_header(h: &Header) -> Header {
    Header {
        magic: h.magic,
        version: h.version,
        ready: h.ready,
        store_dev: h.store_dev,
        arena_seq: h.arena_seq,
        global_gen: h.global_gen,
        arena_used: h.arena_used,
        arena_garbage: h.arena_garbage,
        slots: h.slots.clone(),
    }
}

fn segment(p: &Parts) -> Segment {
    Segment::from_parts(copy_header(&p.header), p.index.clone(), p.arena.clone()).unwrap()
}

fn assert_same(p: &Parts, s: &Segment) {
    let h = s.header();
    assert_eq!(p.header.magic, h.magic);
    assert_eq!(p.header.version, h.version);
    assert_eq!(p.header.ready, h.ready);
    assert_eq!(p.header.store_dev, h.store_dev);
    assert_eq!(p.header.arena_seq, h.arena_seq);
    assert_eq!(p.header.global_gen, h.global_gen);
    assert_eq!(p.header.arena_used, h.arena_used);
    assert_eq!(p.header.arena_garbage, h.arena_garbage);
    assert_eq!(p.header.slots, h.slots);
    assert_eq!(p.index, s.index());
    assert_eq!(p.arena, s.arena());
}

fn slot(s: &Segment, key: &[u8]) -> u64 {
    s.slot_value(s.slot_of(fnv1a(key)))
}

fn read(s: &Segment, key: &[u8]) -> Read {
    s.read_value(key, fnv1a(key), slot(s, key), s.arena_value())
}

fn value(s: &Segment, key: &[u8]) -> Option<Vec<u8>> {
    match read(s, key) {
        Read::Value(v) => Some(v),
        Read::Absent => None,
        Read::Torn => panic!("torn"),
    }
}

#[test]
fn the_layout_is_pinned() {
    assert_eq!(HEADER_SIZE, 72 + SLOTS * 8);
    assert_eq!(INDEX_SIZE, INDEX_SLOTS * 32);
    assert_eq!(SEGMENT_SIZE, HEADER_SIZE + INDEX_SIZE + ARENA_SIZE);
    assert_eq!((HEADER_SIZE + INDEX_SIZE) % 8, 0);
}

#[test]
fn the_hash_is_fnv_1a() {
    assert_eq!(fnv1a(b""), 0xcbf2_9ce4_8422_2325);
    assert_eq!(fnv1a(b"a"), 0xaf63_dc4c_8601_ec8c);
    assert_eq!(fnv1a(b"foobar"), 0x8594_4171_f739_67e8);
}

#[test]
fn parts_of_the_wrong_size_make_no_segment() {
    let p = blank();
    assert!(Segment::from_parts(copy_header(&p.header), p.index.clone(), vec![0; 7]).is_none());
    assert!(Segment::from_parts(copy_header(&p.header), Vec::new(), p.arena.clone()).is_none());
    let mut h = copy_header(&p.header);
    h.slots.pop();
    assert!(Segment::from_parts(h, p.index.clone(), p.arena.clone()).is_none());
    assert!(Segment::from_parts(p.header, p.index, p.arena).is_some());
}

/// Making the same stores elsewhere gives the same contents.
#[test]
fn the_stores_account_for_every_change() {
    let mut s = Segment::zeroed();
    let mut p = blank();
    s.init_header(77);
    assert_eq!(s.put(b"a", b"1", true), Ok(()));
    assert_eq!(s.put(b"b", b"22", false), Ok(()));
    assert_eq!(s.put(b"a", b"333", true), Ok(()));
    assert!(s.remove(b"b", true));
    s.poison_slot(fnv1a(b"a"));
    let at = s.slot_of(fnv1a(b"a"));
    assert!(s.repair_seq(at));
    s.compact();
    s.publish();
    for w in s.take_writes() {
        store(&mut p, &w);
    }
    assert_same(&p, &s);
    s.clear();
    for w in s.take_writes() {
        store(&mut p, &w);
    }
    assert_same(&p, &s);
    assert!(s.take_writes().is_empty());
}

#[test]
fn a_put_makes_its_stores_in_this_order() {
    let mut s = Segment::zeroed();
    assert_eq!(s.put(b"k", b"v", true), Ok(()));
    let i = (fnv1a(b"k") % INDEX_SLOTS as u64) as usize;
    let at = s.slot_of(fnv1a(b"k"));
    let got: Vec<String> = s.take_writes().iter().map(|w| format!("{:?}", w)).collect();
    let want = vec![
        format!("Slot({}, 1)", at),
        "Arena(0, [118])".to_string(),
        "ArenaUsed(1)".to_string(),
        "Arena(1, [107])".to_string(),
        "ArenaUsed(2)".to_string(),
        format!("KeyOff({}, 1)", i),
        format!("KeyLen({}, 1)", i),
        format!("Hash({}, {})", i, fnv1a(b"k")),
        format!("ValLen({}, 0)", i),
        format!("ValOff({}, 0)", i),
        format!("ValLen({}, 1)", i),
        format!("Flags({}, 1)", i),
        format!("State({}, 1)", i),
        format!("Slot({}, 2)", at),
        "GlobalGen(1)".to_string(),
    ];
    assert_eq!(got, want);
}

/// A put of what is there already makes no store at all.
#[test]
fn an_unchanged_put_makes_no_store() {
    let mut s = Segment::zeroed();
    assert_eq!(s.put(b"k", b"v", false), Ok(()));
    s.take_writes();
    assert_eq!(s.put(b"k", b"v", true), Ok(()));
    assert!(s.take_writes().is_empty());
    assert!(s.commit_snapshot(&[false]).is_empty());
}

/// A writer killed after any of its stores: the key has its old value, an
/// empty one, or the new one, and another key keeps its own.
#[test]
fn a_writer_killed_anywhere_leaves_a_readable_store() {
    let mut s = Segment::zeroed();
    let mut p = blank();
    assert_eq!(s.put(b"other", b"untouched", true), Ok(()));
    assert_eq!(s.put(b"k", b"old", true), Ok(()));
    for w in s.take_writes() {
        store(&mut p, &w);
    }
    assert_eq!(s.put(b"k", b"a new one", true), Ok(()));
    let writes = s.take_writes();
    let mut seen = Vec::new();
    for n in 0..=writes.len() {
        let mut half = Parts {
            header: copy_header(&p.header),
            index: p.index.clone(),
            arena: p.arena.clone(),
        };
        for w in &writes[..n] {
            store(&mut half, w);
        }
        let mut left = segment(&half);
        if n > 0 && n < writes.len() - 1 {
            assert!(matches!(read(&left, b"k"), Read::Torn), "after {} stores", n);
        }
        let at = left.slot_of(fnv1a(b"k"));
        left.repair_seq(at);
        let v = value(&left, b"k").unwrap();
        assert!(v == b"old" || v == b"" || v == b"a new one", "after {} stores: {:?}", n, v);
        seen.push(v);
        assert_eq!(value(&left, b"other").unwrap(), b"untouched");
    }
    assert_eq!(seen[0], b"old");
    assert_eq!(seen[seen.len() - 1], b"a new one");
    assert!(seen.contains(&Vec::new()));
}

/// A remover killed after any of its stores.
#[test]
fn a_remover_killed_anywhere_leaves_a_readable_store() {
    let mut s = Segment::zeroed();
    let mut p = blank();
    assert_eq!(s.put(b"k", b"old", true), Ok(()));
    for w in s.take_writes() {
        store(&mut p, &w);
    }
    assert!(s.remove(b"k", true));
    let writes = s.take_writes();
    for n in 0..=writes.len() {
        let mut half = Parts {
            header: copy_header(&p.header),
            index: p.index.clone(),
            arena: p.arena.clone(),
        };
        for w in &writes[..n] {
            store(&mut half, w);
        }
        let mut left = segment(&half);
        let at = left.slot_of(fnv1a(b"k"));
        left.repair_seq(at);
        let v = value(&left, b"k");
        assert!(v == Some(b"old".to_vec()) || v == Some(Vec::new()) || v.is_none());
    }
}

#[test]
fn counters_move_by_two_and_repair_themselves() {
    let mut s = Segment::zeroed();
    assert_eq!(slot(&s, b"k"), 0);
    s.put(b"k", b"1", true).unwrap();
    assert_eq!(slot(&s, b"k"), 2);
    s.put(b"k", b"2", true).unwrap();
    assert_eq!(slot(&s, b"k"), 4);
    s.poison_slot(fnv1a(b"k"));
    assert_eq!(slot(&s, b"k"), 5);
    s.poison_slot(fnv1a(b"k"));
    assert_eq!(slot(&s, b"k"), 5);
    s.put(b"k", b"3", true).unwrap();
    assert_eq!(slot(&s, b"k"), 8);
    let at = s.slot_of(fnv1a(b"k"));
    assert!(!s.repair_seq(at));
    assert_eq!(s.header().global_gen, 3);
    s.clear();
    assert_eq!(slot(&s, b"k"), 10);
    assert_eq!(slot(&s, b"another"), 2);
    assert_eq!(s.arena_value(), 2);
}

/// Counters wrap around at the end of their range.
#[test]
fn counters_wrap_around() {
    let mut p = blank();
    for v in p.header.slots.iter_mut() {
        *v = u64::MAX;
    }
    p.header.global_gen = u64::MAX;
    let mut s = segment(&p);
    s.put(b"k", b"v", true).unwrap();
    assert_eq!(slot(&s, b"k"), 2);
    assert_eq!(s.header().global_gen, 0);
}

#[test]
fn reads_are_torn_when_a_counter_says_so() {
    let mut s = Segment::zeroed();
    s.put(b"k", b"v", true).unwrap();
    let (h, c, a) = (fnv1a(b"k"), slot(&s, b"k"), s.arena_value());
    assert!(matches!(s.read_value(b"k", h, c, a), Read::Value(_)));
    assert!(matches!(s.read_value(b"k", h, c + 2, a), Read::Torn));
    assert!(matches!(s.read_value(b"k", h, c, a + 2), Read::Torn));
    assert!(matches!(s.read_value(b"absent", fnv1a(b"absent"), 0, a), Read::Absent));
    s.poison_slot(h);
    assert!(matches!(s.read_value(b"k", h, c + 1, a), Read::Torn));
}

/// A reader sees each part of the segment as it was at another moment. While
/// another key is written, whatever the mixture, it gets the value; while its
/// own key is, or the arena is compacted, it hears that the read was torn.
#[test]
fn a_mixture_of_moments_reads_true_or_torn() {
    let mut s = Segment::zeroed();
    let mut p = blank();
    s.put(b"k", b"mine", true).unwrap();
    s.put(b"other", b"theirs", true).unwrap();
    for w in s.take_writes() {
        store(&mut p, &w);
    }
    let (h, c, a) = (fnv1a(b"k"), slot(&s, b"k"), s.arena_value());
    assert_ne!(s.slot_of(h), s.slot_of(fnv1a(b"other")));
    s.put(b"other", b"changed", true).unwrap();
    s.put(b"third", b"new", true).unwrap();
    s.remove(b"other", true);
    let foreign = s.take_writes();
    for n in 0..=foreign.len() {
        // The index as it was before, the arena and the counters after.
        let mut mix = segment(&p);
        let mut now = blank();
        now.header = copy_header(mix.header());
        now.index = mix.index().to_vec();
        now.arena = mix.arena().to_vec();
        for w in &foreign[..n] {
            store(&mut now, w);
        }
        mix = segment(&Parts {
            header: copy_header(&now.header),
            index: p.index.clone(),
            arena: now.arena.clone(),
        });
        let after = segment(&now);
        for seen in [&mix, &after] {
            match seen.read_value(b"k", h, slot(&after, b"k"), after.arena_value()) {
                Read::Value(v) => assert_eq!(v, b"mine", "after {} stores", n),
                r => panic!("after {} stores: {:?}", n, r),
            }
        }
        assert_eq!((slot(&after, b"k"), after.arena_value()), (c, a));
    }
    s.put(b"k", b"mine no more", true).unwrap();
    assert!(matches!(s.read_value(b"k", h, c, a), Read::Torn));
    let before = segment(&p);
    assert!(matches!(before.read_value(b"k", h, slot(&s, b"k"), a), Read::Torn));
    s.compact();
    assert!(matches!(before.read_value(b"k", h, c, s.arena_value()), Read::Torn));
}

/// Emptying the store empties the contents between two stores to the arena's
/// counter, then moves the counter of every slot.
#[test]
fn a_clear_makes_its_stores_in_this_order() {
    let mut s = Segment::zeroed();
    s.put(b"k", b"v", true).unwrap();
    s.take_writes();
    s.clear();
    let names: Vec<String> = s
        .take_writes()
        .iter()
        .map(|w| format!("{:?}", w).split('(').next().unwrap().to_string())
        .collect();
    let n = names.len();
    assert_eq!(names[0], "ArenaSeq");
    assert_eq!(names[n - SLOTS - 2], "ArenaSeq");
    assert!(names[n - SLOTS - 1..n - 1].iter().all(|w| w == "Slot"));
    assert_eq!(names[n - 1], "GlobalGen");
    assert!(names[1..n - SLOTS - 2].iter().all(|w| w != "ArenaSeq" && w != "Slot"));
}

/// Offsets that point outside the arena are refused.
#[test]
fn a_value_outside_the_arena_is_torn() {
    let mut p = blank();
    let mut s = segment(&p);
    s.put(b"k", b"v", true).unwrap();
    for w in s.take_writes() {
        store(&mut p, &w);
    }
    for e in p.index.iter_mut() {
        if e.state == ST_LIVE {
            e.val_off = u32::MAX;
            e.val_len = u32::MAX;
        }
    }
    let mut s = segment(&p);
    assert!(matches!(read(&s, b"k"), Read::Torn));
    assert!(s.for_each_live().is_empty());
    assert_eq!(s.put(b"k", b"w", true), Ok(()));
    assert_eq!(value(&s, b"k").unwrap(), b"w");
}

#[test]
fn a_segment_is_used_only_by_those_who_may() {
    let mut s = Segment::zeroed();
    s.init_header(5);
    assert!(!s.is_ready());
    assert_eq!(s.validate(Some(5)), Err(()));
    s.publish();
    assert!(s.is_ready());
    assert_eq!(s.validate(Some(5)), Ok(()));
    assert_eq!(s.validate(Some(6)), Err(()));
    assert_eq!(s.validate(None), Err(()));
    let mut p = blank();
    p.header.ready = 1;
    p.header.magic = SHM_MAGIC;
    p.header.version = SHM_VERSION - 1;
    assert_eq!(segment(&p).validate(Some(0)), Err(()));
    p.header.version = SHM_VERSION;
    assert_eq!(segment(&p).validate(Some(0)), Ok(()));
    p.header.magic = 0;
    assert_eq!(segment(&p).validate(Some(0)), Err(()));
}

#[test]
fn the_arena_runs_full() {
    let mut s = Segment::zeroed();
    let big = vec![7u8; ARENA_SIZE / 2];
    assert_eq!(s.put(b"a", &big, true), Ok(()));
    assert_eq!(s.put(b"b", &big, true), Err(()));
    assert_eq!(value(&s, b"a").unwrap(), big);
    assert_eq!(value(&s, b"b"), None);
    assert!(s.remove(b"a", true));
    assert_eq!(s.put(b"b", &big, true), Ok(()));
    let exact = vec![1u8; ARENA_SIZE - 2];
    s.clear();
    assert_eq!(s.put(b"xx", &exact, true), Ok(()));
    s.clear();
    assert_eq!(s.put(b"xxx", &exact, true), Err(()));
}

/// Garbage is reclaimed once it is more than a quarter of the arena.
#[test]
fn garbage_is_reclaimed() {
    let mut s = Segment::zeroed();
    let quarter = vec![1u8; ARENA_SIZE / 4];
    s.put(b"k", &quarter, true).unwrap();
    s.put(b"k", b"small", true).unwrap();
    assert_eq!(s.header().arena_garbage, (ARENA_SIZE / 4) as u64);
    s.put(b"k", b"smaller", true).unwrap();
    assert_eq!(s.header().arena_garbage, (ARENA_SIZE / 4 + 5) as u64);
    assert_eq!(s.arena_value(), 0);
    s.put(b"k", b"tiny", true).unwrap();
    assert_eq!(s.arena_value(), 2);
    assert_eq!(s.header().arena_garbage, 7);
    assert_eq!(s.header().arena_used, 1 + 7 + 4);
    assert_eq!(value(&s, b"k").unwrap(), b"tiny");
}

/// A compaction forgets deletions that the disk knows of, and keeps the others.
#[test]
fn compaction_keeps_what_is_owed() {
    let mut s = Segment::zeroed();
    s.put(b"live", b"1", false).unwrap();
    s.put(b"owed", b"2", true).unwrap();
    s.put(b"gone", b"3", false).unwrap();
    s.put(b"known", b"4", false).unwrap();
    assert!(s.remove(b"gone", true));
    assert!(s.remove(b"known", false));
    s.compact();
    assert_eq!(value(&s, b"live").unwrap(), b"1");
    assert_eq!(value(&s, b"owed").unwrap(), b"2");
    assert_eq!(value(&s, b"gone"), None);
    assert_eq!(s.index().iter().filter(|e| e.state == ST_TOMB).count(), 1);
    assert_eq!(s.index().iter().filter(|e| e.state == ST_LIVE).count(), 2);
    let mut keys: Vec<Vec<u8>> =
        s.commit_snapshot(&[false]).into_iter().map(|p| p.key).collect();
    keys.sort();
    assert_eq!(keys, vec![b"gone".to_vec(), b"owed".to_vec()]);
}

/// The `n`-th name whose search starts at bucket `home`.
fn key_of(home: usize, n: usize) -> Vec<u8> {
    (0u32..)
        .map(|i| format!("k{}", i).into_bytes())
        .filter(|k| (fnv1a(k) % INDEX_SLOTS as u64) as usize == home)
        .nth(n)
        .unwrap()
}

/// A compaction loses no key, not even where the new index has no bucket for
/// one: then everything stays in its bucket.
#[test]
fn compaction_keeps_keys_pushed_around_the_end() {
    let last = INDEX_SLOTS - 1;
    let mut keys: Vec<Vec<u8>> = (0u32..600_000)
        .map(|i| format!("k{}", i).into_bytes())
        .filter(|k| (fnv1a(k) % INDEX_SLOTS as u64) == 0)
        .take(MAX_PROBES - 1)
        .collect();
    assert_eq!(keys.len(), MAX_PROBES - 1);
    keys.insert(0, key_of(last, 1));
    keys.insert(0, key_of(last, 0));
    let removed = key_of(1, 0);

    let mut s = Segment::zeroed();
    for k in &keys {
        s.put(k, b"old", false).unwrap();
        s.put(k, &[b"value of ", &k[..]].concat(), k.len() % 2 == 0).unwrap();
    }
    s.put(&removed, b"soon gone", false).unwrap();
    assert!(s.remove(&removed, false));
    let before: Vec<IndexEntry> = s.index().to_vec();
    assert_eq!(before[last].hash, fnv1a(&keys[0]));
    assert_eq!(before[0].hash, fnv1a(&keys[1]));
    assert_eq!(before[MAX_PROBES].state, ST_TOMB);
    assert!(s.header().arena_garbage > 0);
    let live = s.for_each_live();
    s.take_writes();
    s.compact();

    for k in &keys {
        assert_eq!(value(&s, k).unwrap(), [b"value of ", &k[..]].concat());
    }
    assert_eq!(value(&s, &removed), None);
    assert_eq!(s.for_each_live(), live);
    for (was, now) in before.iter().zip(s.index()) {
        assert_eq!((was.hash, was.state, was.flags), (now.hash, now.state, now.flags));
    }
    assert_eq!(s.header().arena_garbage, 0);
    let bytes: usize = keys.iter().map(|k| 2 * k.len() + 9).sum();
    assert_eq!(s.header().arena_used as usize, bytes + removed.len());

    // The counter of the arena encloses all of it.
    let names: Vec<String> = s
        .take_writes()
        .iter()
        .map(|w| format!("{:?}", w).split('(').next().unwrap().to_string())
        .collect();
    let n = names.len();
    assert_eq!((&names[0][..], &names[n - 1][..]), ("ArenaSeq", "ArenaSeq"));
    assert!(names[1..n - 1].iter().all(|w| w != "ArenaSeq" && w != "Slot"));

    // With one key less there is a bucket for all, and the deletion goes.
    let clean = keys[2..].iter().find(|k| k.len() % 2 == 1).unwrap();
    assert!(s.remove(clean, false));
    s.compact();
    assert_eq!(s.index().iter().filter(|e| e.state == ST_TOMB).count(), 0);
    assert_eq!(s.for_each_live().len(), keys.len() - 1);
}

/// A deletion that the disk knows of gives its bucket away; one that it does
/// not know of keeps it.
#[test]
fn a_committed_deletion_gives_its_bucket_away() {
    let mut s = Segment::zeroed();
    s.put(b"k", b"v", false).unwrap();
    let (i, found) = s.probe(b"k", fnv1a(b"k")).unwrap();
    assert!(found);
    assert!(s.remove(b"k", true));
    assert!(!s.remove(b"k", true));
    assert_eq!(s.probe(b"k", fnv1a(b"k")), Some((i, true)));
    assert_ne!(s.probe(b"other", fnv1a(b"k")), Some((i, false)));
    let p = Pending { key: b"k".to_vec(), val: None, hash: fnv1a(b"k"), seen: slot(&s, b"k") };
    s.commit_writeback(&[p]);
    assert_eq!(s.probe(b"other", fnv1a(b"k")), Some((i, false)));
}

/// The index gives up after so many buckets.
#[test]
fn a_search_gives_up() {
    let mut p = blank();
    let h = fnv1a(b"k");
    let home = (h % INDEX_SLOTS as u64) as usize;
    for j in 0..MAX_PROBES {
        let e = &mut p.index[(home + j) % INDEX_SLOTS];
        e.state = ST_TOMB;
        e.flags = FL_DIRTY;
        e.hash = 1;
    }
    let mut s = segment(&p);
    assert_eq!(s.probe(b"k", h), None);
    assert_eq!(s.put(b"k", b"v", true), Err(()));
    p.index[(home + 10) % INDEX_SLOTS].flags = 0;
    let mut s = segment(&p);
    assert_eq!(s.probe(b"k", h), Some(((home + 10) % INDEX_SLOTS, false)));
    assert_eq!(s.put(b"k", b"v", true), Ok(()));
}

/// A debt is cancelled only if nothing was written in the meantime.
#[test]
fn a_debt_noted_before_a_write_stays() {
    let mut s = Segment::zeroed();
    s.put(b"k", b"one", true).unwrap();
    let noted = s.commit_snapshot(&[]);
    assert_eq!(noted.len(), 1);
    assert_eq!(noted[0].key, b"k");
    assert_eq!(noted[0].val.as_deref(), Some(&b"one"[..]));
    assert_eq!(noted[0].hash, fnv1a(b"k"));
    assert_eq!(noted[0].seen, 2);
    s.put(b"k", b"two", true).unwrap();
    s.commit_writeback(&noted);
    let again = s.commit_snapshot(&[]);
    assert_eq!(again.len(), 1);
    s.commit_writeback(&again);
    assert_eq!(s.commit_queries(), vec![(b"k".to_vec(), 3)]);
    assert!(s.commit_snapshot(&[false]).is_empty());
    let stale = s.commit_snapshot(&[true]);
    assert_eq!(stale[0].val.as_deref(), Some(&b"two"[..]));
}

#[test]
fn every_live_key_is_listed_once() {
    let mut s = Segment::zeroed();
    for i in 0..100u32 {
        s.put(format!("key{}", i).as_bytes(), &i.to_le_bytes(), true).unwrap();
    }
    assert!(s.remove(b"key42", true));
    let mut all = s.for_each_live();
    all.sort();
    assert_eq!(all.len(), 99);
    all.dedup_by(|a, b| a.0 == b.0);
    assert_eq!(all.len(), 99);
    assert!(all.contains(&(b"key7".to_vec(), 7u32.to_le_bytes().to_vec())));
}
