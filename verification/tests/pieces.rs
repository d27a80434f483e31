//! Names, numbers, locks, and the other small decisions.

use nvram::api::{
    buffer_len, c_bytes, get_int, key_bytes, nvram_get_nvramspace, parse_int, safe_value, status,
};
use nvram::cache::Cache;
use nvram::disk::{
    differs_on_disk, files_to_remove, key_path, load_all, load_readable, publish, remove,
    remove_all, root, stage, store_available, tmp_path, valid_key, visit, write_atomic, DirEntry, FileStep,
    Found, Kind, Meta, Removal, Visit, MAX_KEY_LEN,
};
use nvram::getall::pack;
use nvram::disk::FileStep::{Create, Finish, Flush, Rename, Unlink, Write};
use nvram::paths::{set_paths, shm_name, store_root, Paths};
use nvram::sem::Outcome::{Done, Exists, Failed, Interrupted};
use nvram::sem::{Guard, LockStep, Outcome};

// ------------------------------------------------------------------ paths --

#[test]
fn the_usual_places() {
    let p = Paths::new();
    assert_eq!(store_root(&p), "/nvram/");
    assert_eq!(shm_name(&p), b"/tomato64-nvram\0");
    assert_eq!(root(&p), b"/nvram/");
}

#[test]
fn other_places_end_with_a_separator() {
    let mut p = Paths::new();
    set_paths(&mut p, "/tmp/x", "/seg");
    assert_eq!(store_root(&p), "/tmp/x/");
    assert_eq!(shm_name(&p), b"/seg\0");
    set_paths(&mut p, "/tmp/y/", "/seg");
    assert_eq!(store_root(&p), "/tmp/y/");
    set_paths(&mut p, "", "");
    assert_eq!(store_root(&p), "/");
    assert_eq!(shm_name(&p), b"\0");
}

// ------------------------------------------------------------------- keys --

#[test]
fn keys_that_can_be_stored() {
    assert!(valid_key(b"lan_ipaddr"));
    assert!(valid_key("größe".as_bytes()));
    assert!(valid_key(b"a.b"));
    assert!(valid_key(&vec![b'k'; MAX_KEY_LEN]));
    assert_eq!(MAX_KEY_LEN, 239);
}

#[test]
fn keys_that_cannot_be_stored() {
    assert!(!valid_key(b""));
    assert!(!valid_key(b"."));
    assert!(!valid_key(b".."));
    assert!(!valid_key(b".tmp.1.k"));
    assert!(!valid_key(b"a/b"));
    assert!(!valid_key(b"/"));
    assert!(!valid_key(b"\xff\xfe"));
    assert!(!valid_key(b"a\xc3"));
    assert!(!valid_key(&vec![b'k'; MAX_KEY_LEN + 1]));
}

#[test]
fn names_of_files() {
    let p = Paths::new();
    assert_eq!(key_path(&p, b"k").unwrap(), b"/nvram/k");
    assert_eq!(key_path(&p, b"a/b"), None);
    assert_eq!(tmp_path(&p, 0, b"k").unwrap(), b"/nvram/.tmp.0.k");
    assert_eq!(tmp_path(&p, 4294967295, b"k").unwrap(), b"/nvram/.tmp.4294967295.k");
    assert_eq!(tmp_path(&p, 120, b".x"), None);
    let longest = tmp_path(&p, 4294967295, &vec![b'k'; MAX_KEY_LEN]).unwrap();
    assert_eq!(longest.len() - b"/nvram/".len(), 255);
}

// ------------------------------------------------------------ directories --

fn entry(name: &[u8], is_file: bool) -> DirEntry {
    DirEntry { name: name.to_vec(), is_file }
}

#[test]
fn what_a_load_does_with_each_entry() {
    assert_eq!(visit(&entry(b"k", true)), Visit::Load);
    assert_eq!(visit(&entry(b"k", false)), Visit::Skip);
    assert_eq!(visit(&entry(b".tmp.12.k", true)), Visit::Sweep);
    assert_eq!(visit(&entry(b".tmp.", false)), Visit::Sweep);
    assert_eq!(visit(&entry(b".tmp", true)), Visit::Skip);
    assert_eq!(visit(&entry(b".hidden", true)), Visit::Skip);
    assert_eq!(visit(&entry(b"\xff", true)), Visit::Skip);
}

#[test]
fn a_load_gives_every_key_or_fails() {
    let found = |c: Option<Vec<u8>>| {
        vec![
            Found { entry: entry(b"a", true), contents: Some(b"1".to_vec()) },
            Found { entry: entry(b".tmp.1.b", true), contents: None },
            Found { entry: entry(b"c", true), contents: c },
            Found { entry: entry(b"d", false), contents: Some(b"4".to_vec()) },
            Found { entry: entry(b"e", true), contents: Some(Vec::new()) },
        ]
    };
    let a = (b"a".to_vec(), b"1".to_vec());
    let c = (b"c".to_vec(), b"3".to_vec());
    let e = (b"e".to_vec(), Vec::new());
    let three = || Some(b"3".to_vec());
    assert_eq!(load_all(found(three())), Ok(vec![a.clone(), c.clone(), e.clone()]));
    assert_eq!(load_readable(&found(three())), vec![a.clone(), c, e.clone()]);
    assert_eq!(load_all(found(None)), Err(()));
    assert_eq!(load_readable(&found(None)), vec![a, e]);
    assert_eq!(load_all(Vec::new()), Ok(Vec::new()));
}

#[test]
fn what_a_clear_removes() {
    let entries = vec![entry(b".tmp.1.k", true), entry(b"lost+found", false), entry(b"k", true)];
    assert_eq!(files_to_remove(&entries), vec![b".tmp.1.k".to_vec(), b"k".to_vec()]);
    assert_eq!(remove_all(&Some(vec![Removal::Removed, Removal::NotFound])), Ok(()));
    assert_eq!(remove_all(&Some(Vec::new())), Ok(()));
    assert_eq!(remove_all(&Some(vec![Removal::Failed, Removal::Removed])), Err(()));
    assert_eq!(remove_all(&Some(vec![Removal::Removed, Removal::Failed])), Err(()));
    assert_eq!(remove_all(&None), Err(()));
}

#[test]
fn a_store_that_is_no_directory_is_not_available() {
    let of = |kind| Some(Meta { kind, len: 4096 });
    assert!(store_available(of(Kind::Directory)));
    assert!(!store_available(of(Kind::File)));
    assert!(!store_available(of(Kind::Other)));
    assert!(!store_available(None));
}

#[test]
fn files_that_are_not_what_they_should_be() {
    let file = |len: u64| Some(Meta { kind: Kind::File, len });
    assert!(!differs_on_disk(b"k", file(3), 3));
    assert!(differs_on_disk(b"k", file(2), 3));
    assert!(differs_on_disk(b"k", file(1 << 32 | 3), 3));
    assert!(differs_on_disk(b"k", None, 3));
    assert!(differs_on_disk(b"k", Some(Meta { kind: Kind::Directory, len: 3 }), 3));
    assert!(!differs_on_disk(b"a/b", None, 3));
    assert_eq!(remove(Removal::Removed), Ok(()));
    assert_eq!(remove(Removal::NotFound), Ok(()));
    assert_eq!(remove(Removal::Failed), Err(()));
}

/// Runs a write whose steps go as given, and lists what it did.
fn run(mut op: nvram::disk::FileOp, answers: &[bool]) -> Vec<FileStep> {
    let mut steps = vec![op.now()];
    for ok in answers {
        steps.push(op.step(*ok));
    }
    steps
}

#[test]
fn a_write_flushes_before_it_renames() {
    let p = Paths::new();
    let op = || write_atomic(&p, 9, b"k", b"value").unwrap();
    assert_eq!(op().tmp(), b"/nvram/.tmp.9.k");
    assert_eq!(op().dst(), Some(&b"/nvram/k"[..]));
    assert_eq!(op().val(), b"value");
    assert_eq!(
        run(op(), &[true, true, true, true]),
        vec![Create, Write, Flush, Rename, Finish(true)]
    );
    assert_eq!(run(op(), &[false, true]), vec![Create, Unlink, Finish(false)]);
    assert_eq!(run(op(), &[true, false, false]), vec![Create, Write, Unlink, Finish(false)]);
    assert_eq!(
        run(op(), &[true, true, false, true]),
        vec![Create, Write, Flush, Unlink, Finish(false)]
    );
    assert_eq!(
        run(op(), &[true, true, true, false, true]),
        vec![Create, Write, Flush, Rename, Unlink, Finish(false)]
    );
    assert!(write_atomic(&p, 9, b"a/b", b"").is_none());
}

#[test]
fn a_staged_file_is_neither_flushed_nor_renamed() {
    let p = Paths::new();
    assert_eq!(
        run(stage(&p, 9, b"k", b"v").unwrap(), &[true, true]),
        vec![Create, Write, Finish(true)]
    );
    assert_eq!(stage(&p, 9, b"k", b"v").unwrap().val(), b"v");
    assert!(stage(&p, 9, b"", b"v").is_none());
    let tmp = b"/nvram/.tmp.9.k".to_vec();
    assert_eq!(run(publish(&p, tmp.clone(), b"k"), &[true]), vec![Rename, Finish(true)]);
    assert_eq!(
        run(publish(&p, tmp.clone(), b"k"), &[false, false]),
        vec![Rename, Unlink, Finish(false)]
    );
    assert_eq!(run(publish(&p, tmp, b"/"), &[true]), vec![Unlink, Finish(false)]);
}

// ------------------------------------------------------------------ locks --

fn lock(outcomes: &[Outcome]) -> LockStep {
    let mut g = Guard::acquire();
    for o in outcomes {
        g.step(*o);
    }
    g.now()
}

#[test]
fn a_lock_is_taken() {
    assert_eq!(lock(&[Done, Done, Done, Done]), LockStep::Held);
    assert_eq!(lock(&[Done, Exists, Done, Done]), LockStep::Held);
    assert_eq!(lock(&[Done, Exists, Done, Interrupted, Interrupted, Done]), LockStep::Held);
    assert_eq!(lock(&[Failed]), LockStep::Free);
    assert_eq!(lock(&[Done, Failed]), LockStep::Free);
    assert_eq!(lock(&[Done, Done, Failed]), LockStep::Destroy);
    assert_eq!(lock(&[Done, Done, Failed, Done]), LockStep::Free);
    assert_eq!(lock(&[Done, Exists, Failed]), LockStep::Free);
    assert_eq!(lock(&[Done, Exists, Done, Failed]), LockStep::Free);
}

#[test]
fn a_lock_is_released() {
    let mut g = Guard::acquire_commit();
    assert_eq!(g.proj(), 66);
    assert_eq!(Guard::acquire().proj(), 65);
    for o in [Done, Exists, Done, Done] {
        g.step(o);
    }
    g.release();
    assert_eq!(g.step(Interrupted), LockStep::Post);
    assert_eq!(g.step(Failed), LockStep::Free);
    assert_eq!(g.step(Done), LockStep::Free);
}

// --------------------------------------------------------------- integers --

#[test]
fn integers() {
    assert_eq!(parse_int(b"48"), 48);
    assert_eq!(parse_int(b"-7"), -7);
    assert_eq!(parse_int(b"+7"), 7);
    assert_eq!(parse_int(b"12abc"), 12);
    assert_eq!(parse_int(b""), 0);
    assert_eq!(parse_int(b"-"), 0);
    assert_eq!(parse_int(b"+"), 0);
    assert_eq!(parse_int(b"--1"), 0);
    assert_eq!(parse_int(b"abc"), 0);
    assert_eq!(parse_int(b"0x10"), 0);
    assert_eq!(parse_int(b"007"), 7);
    assert_eq!(parse_int(b"2147483647"), 2147483647);
    assert_eq!(parse_int(b"2147483648"), 0);
    assert_eq!(parse_int(b"-2147483648"), -2147483648);
    assert_eq!(parse_int(b"-2147483649"), 0);
    assert_eq!(parse_int(b"99999999999999999999999999"), 0);
    assert_eq!(parse_int(b"00000000000000000000000000012"), 12);
    assert_eq!(parse_int(b"\xff12"), 0);
    assert_eq!(parse_int(b"12\xff"), 12);
    assert_eq!(parse_int(b" -12\xe2\x80"), -12);
    assert_eq!(parse_int("١٢".as_bytes()), 0);
}

#[test]
fn integers_after_white_space() {
    assert_eq!(parse_int(b" \t\r\n\x0b\x0c 42 "), 42);
    assert_eq!(parse_int("\u{a0}\u{2003}\u{3000}-42".as_bytes()), -42);
    assert_eq!(parse_int("\u{85}\u{1680}\u{2028}\u{2029}\u{202f}\u{205f}5".as_bytes()), 5);
    assert_eq!(parse_int("\u{200b}5".as_bytes()), 0);
    assert_eq!(parse_int(b"- 5"), 0);
    assert_eq!(parse_int(b"   "), 0);
    assert_eq!(parse_int(b"\xc0\xa05"), 0, "no character takes more bytes than it needs");
    assert_eq!(parse_int(b"\xe2\x80"), 0);
    assert_eq!(parse_int(b"\xc2"), 0);
}

#[test]
fn integers_of_variables() {
    assert_eq!(get_int(Some(b"12\0")), 12);
    assert_eq!(get_int(Some(b"1\x002\0")), 1);
    assert_eq!(get_int(Some(b"\0")), 0);
    assert_eq!(get_int(None), 0);
}

#[test]
fn arguments_and_results() {
    assert_eq!(c_bytes(b"ab\0cd"), b"ab");
    assert_eq!(c_bytes(b"abcd"), b"abcd");
    assert_eq!(c_bytes(b""), b"");
    assert_eq!(key_bytes(None), None);
    assert_eq!(key_bytes(Some(b"")), None);
    assert_eq!(key_bytes(Some(b"k")), Some(&b"k"[..]));
    assert_eq!(buffer_len(true, 7), Some(7));
    assert_eq!(buffer_len(true, 0), None);
    assert_eq!(buffer_len(true, -1), None);
    assert_eq!(buffer_len(false, 7), None);
    assert_eq!(status(true), 1);
    assert_eq!(status(false), 0);
    assert_eq!(nvram_get_nvramspace(), 1048576);
    assert_eq!(safe_value(None), b"\0");
    assert_eq!(safe_value(Some(b"v\0")), b"v\0");
}

// ---------------------------------------------------------------- listing --

#[test]
fn records_are_packed() {
    let kvs = vec![
        (b"k1".to_vec(), b"v1".to_vec()),
        (b"k2".to_vec(), Vec::new()),
    ];
    assert_eq!(pack(&kvs, 100), (b"k1=v1\0k2=\0\0".to_vec(), true));
    assert_eq!(pack(&kvs, 11), (b"k1=v1\0k2=\0\0".to_vec(), true));
    assert_eq!(pack(&kvs, 10), (b"k1=v1\0\0".to_vec(), false));
    assert_eq!(pack(&kvs, 7), (b"k1=v1\0\0".to_vec(), false));
    assert_eq!(pack(&kvs, 6), (b"\0".to_vec(), false));
    assert_eq!(pack(&kvs, 1), (b"\0".to_vec(), false));
    assert_eq!(pack(&Vec::new(), 1), (b"\0".to_vec(), true));
}

// ------------------------------------------------------------------ cache --

#[test]
fn cached_values() {
    let mut c = Cache::new();
    assert!(c.get(b"k").is_none());
    c.entry(b"k").install(Some(b"one".to_vec()), 4);
    assert!(c.get(b"k").unwrap().is_current(4));
    assert!(!c.get(b"k").unwrap().is_current(6));
    assert_eq!(c.get(b"k").unwrap().as_ptr(), Some(&b"one\0".to_vec()));
    assert!(c.get(b"k").unwrap().holds(b"one"));
    assert!(!c.get(b"k").unwrap().holds(b"one\0"));
    assert!(!c.get(b"k").unwrap().holds(b"on"));

    let place = c.get(b"k").unwrap().as_ptr().unwrap().as_ptr() as usize;
    c.entry(b"k").install(Some(b"one".to_vec()), 6);
    assert_eq!(c.get(b"k").unwrap().as_ptr().unwrap().as_ptr() as usize, place);
    assert!(c.get(b"k").unwrap().is_current(6));

    c.entry(b"k").install(None, 8);
    assert_eq!(c.get(b"k").unwrap().as_ptr(), None);
    assert_eq!(c.get(b"k").unwrap().retired(), Some(&b"one\0".to_vec()));

    c.entry(b"other").install(Some(Vec::new()), 2);
    let other = c.get(b"other").unwrap().as_ptr().unwrap().as_ptr() as usize;
    c.invalidate_all();
    assert_eq!(c.get(b"other").unwrap().as_ptr(), None);
    assert_eq!(c.get(b"other").unwrap().retired(), Some(&b"\0".to_vec()));
    assert!(!c.get(b"other").unwrap().is_current(0));

    // What was handed out last is kept while there is nothing newer to keep.
    c.invalidate_all();
    c.entry(b"other").install(Some(Vec::new()), 4);
    assert_eq!(c.get(b"other").unwrap().retired().unwrap().as_ptr() as usize, other);
    c.entry(b"k").install(Some(b"x".to_vec()), 0);
    assert!(c.get(b"k").unwrap().is_current(0));
    c.entry(b"k").expire();
    assert!(!c.get(b"k").unwrap().is_current(0));
}
