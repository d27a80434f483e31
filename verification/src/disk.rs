//! The persistent store: one file per key in the store's directory. The name
//! of the file is the key, its contents are the value.
//!
//! This module decides; what it decides on is done to the filesystem by its
//! callers.

use vstd::arithmetic::power::lemma_pow0;
use vstd::prelude::*;
use vstd::slice::slice_to_vec;
use vstd::utf8::{encode_utf8, valid_utf8};

use crate::api::{lemma_worth_shift, worth};
use crate::paths::{store_root, Paths};
use crate::shm::{bytes_of, pairs_of};

verus! {

/// Longest key that can be written: what remains of the 255 bytes of a file
/// name once the temporary name around the key took its part, with ten digits
/// for the process.
pub const MAX_KEY_LEN: usize = 239;

/// Longest name of a file.
pub const NAME_MAX: usize = 255;

/// The byte of `.`.
pub const DOT: u8 = 46;

/// The byte of `/`.
pub const SLASH: u8 = 47;

/// What the names of temporary files start with: `.tmp.`
pub open spec fn tmp_prefix() -> Seq<u8> {
    seq![46u8, 116u8, 109u8, 112u8, 46u8]
}

/// `name` starts with `prefix`.
pub open spec fn starts_with(name: Seq<u8>, prefix: Seq<u8>) -> bool {
    prefix.len() <= name.len() && name.subrange(0, prefix.len() as int) == prefix
}

/// Whether a byte string is text.
///
/// `std::str::from_utf8` returns a text exactly when the bytes are valid UTF-8.
#[verifier::external_body]
fn is_utf8(bytes: &[u8]) -> (r: bool)
    ensures
        r == valid_utf8(bytes@),
{
    std::str::from_utf8(bytes).is_ok()
}

// ------------------------------------------------------------------- keys --

/// `key` can be stored as a file, and read back again.
pub open spec fn key_ok(key: Seq<u8>) -> bool {
    &&& valid_utf8(key)
    &&& 0 < key.len() <= MAX_KEY_LEN
    &&& key[0] != DOT
    &&& !key.contains(SLASH)
}

/// Whether `key` can be stored as a file, and read back again.
///
/// A separator would escape the store; a leading dot makes a file that is
/// skipped when the store is loaded; a name too long does not fit the
/// temporary file that it is written through; and bytes that are not UTF-8
/// have no file name. A key that reached the shared segment but not the disk
/// would fail every commit from then on, so this is checked at the door.
pub fn valid_key(key: &[u8]) -> (r: bool)
    ensures
        r == key_ok(key@),
        r <==> {
            &&& valid_utf8(key@)
            &&& 1 <= key@.len() <= 239
            &&& key@[0] != 46
            &&& forall|i: int| 0 <= i < key@.len() ==> #[trigger] key@[i] != 47
        },
{
    proof {
        law_names(key@);
    }
    if !is_utf8(key) {
        return false;
    }
    if key.len() == 0 || key.len() > MAX_KEY_LEN || key[0] == DOT {
        return false;
    }
    let mut k: usize = 0;
    while k < key.len()
        invariant
            k <= key.len(),
            forall|m: int| 0 <= m < k ==> key@[m] != SLASH,
        decreases key.len() - k,
    {
        if key[k] == SLASH {
            assert(key@[k as int] == SLASH);
            return false;
        }
        k += 1;
    }
    true
}

/// Which names can be stored: text of one to 239 bytes that does not start with
/// a dot and has no slash in it, and no other.
pub proof fn law_names(name: Seq<u8>)
    ensures
        key_ok(name) <==> {
            &&& valid_utf8(name)
            &&& 1 <= name.len() <= 239
            &&& name[0] != 46
            &&& forall|i: int| 0 <= i < name.len() ==> #[trigger] name[i] != 47
        },
{
    if name.contains(SLASH) {
        let i = choose|i: int| 0 <= i < name.len() && name[i] == SLASH;
        assert(name[i] == 47);
    }
    if exists|i: int| 0 <= i < name.len() && #[trigger] name[i] == 47 {
        let i = choose|i: int| 0 <= i < name.len() && #[trigger] name[i] == 47;
        assert(name[i] == SLASH);
        assert(name.contains(SLASH));
    }
}

// ------------------------------------------------------------------ names --

/// The bytes of the store's directory.
pub open spec fn root_bytes(p: Paths) -> Seq<u8> {
    encode_utf8(p.root_spec())
}

/// The store's directory.
pub fn root(p: &Paths) -> (r: Vec<u8>)
    ensures
        r@ == root_bytes(*p),
{
    slice_to_vec(store_root(p).as_str().as_bytes())
}

/// The path of a key's file, if the key can be stored.
pub fn key_path(p: &Paths, key: &[u8]) -> (r: Option<Vec<u8>>)
    ensures
        match r {
            Some(path) => key_ok(key@) && path@ == root_bytes(*p) + key@,
            None => !key_ok(key@),
        },
{
    if !valid_key(key) {
        return None;
    }
    let mut path = root(p);
    path.append(&mut slice_to_vec(key));
    Some(path)
}

/// The decimal digits of `n`.
pub open spec fn decimal(n: nat) -> Seq<u8>
    decreases n,
{
    if n < 10 {
        seq![(48 + n) as u8]
    } else {
        decimal(n / 10).push((48 + n % 10) as u8)
    }
}

/// Writes the decimal digits of `n` behind `out`.
fn push_decimal(out: &mut Vec<u8>, n: u32)
    ensures
        final(out)@ == old(out)@ + decimal(n as nat),
    decreases n,
{
    let ghost was = out@;
    if n >= 10 {
        push_decimal(out, n / 10);
    }
    let ghost mid = out@;
    out.push((48 + n % 10) as u8);
    proof {
        if n >= 10 {
            assert(out@ =~= was + decimal((n / 10) as nat).push((48 + n % 10) as u8));
        } else {
            assert(out@ =~= was + seq![(48 + n) as u8]);
        }
    }
}

/// The name of the temporary file through which process `pid` writes `key`.
pub open spec fn tmp_name(pid: u32, key: Seq<u8>) -> Seq<u8> {
    tmp_prefix() + decimal(pid as nat) + seq![DOT] + key
}

/// The path of the temporary file through which process `pid` writes `key`, if
/// the key can be stored.
pub fn tmp_path(p: &Paths, pid: u32, key: &[u8]) -> (r: Option<Vec<u8>>)
    ensures
        match r {
            Some(path) => key_ok(key@) && path@ == root_bytes(*p) + tmp_name(pid, key@),
            None => !key_ok(key@),
        },
{
    if !valid_key(key) {
        return None;
    }
    let mut path = root(p);
    path.push(46);
    path.push(116);
    path.push(109);
    path.push(112);
    path.push(46);
    assert(path@ =~= root_bytes(*p) + tmp_prefix());
    push_decimal(&mut path, pid);
    path.push(DOT);
    path.append(&mut slice_to_vec(key));
    assert(path@ =~= root_bytes(*p) + tmp_name(pid, key@));
    Some(path)
}

spec fn ten_to(digits: nat) -> nat
    decreases digits,
{
    if digits == 0 {
        1
    } else {
        10 * ten_to((digits - 1) as nat)
    }
}

proof fn lemma_decimal_len(n: nat, digits: nat)
    requires
        digits > 0,
        n < ten_to(digits),
    ensures
        0 < decimal(n).len() <= digits,
    decreases digits,
{
    if n >= 10 {
        reveal_with_fuel(ten_to, 2);
        lemma_decimal_len(n / 10, (digits - 1) as nat);
    }
}

/// The name of a temporary file fits a file name, for every key that can be
/// stored and every process.
pub proof fn law_tmp_name_fits(pid: u32, key: Seq<u8>)
    requires
        key_ok(key),
    ensures
        tmp_name(pid, key).len() <= NAME_MAX,
        key.len() <= NAME_MAX,
{
    reveal_with_fuel(ten_to, 11);
    lemma_decimal_len(pid as nat, 10);
}

proof fn lemma_worth_push(ds: Seq<u8>, d: u8, n: int)
    requires
        0 <= n <= ds.len(),
    ensures
        worth(ds.push(d), n) == 10 * worth(ds, n),
{
    assert(ds.push(d).drop_last() =~= ds);
    lemma_worth_shift(ds.push(d), n);
}

/// The decimal digits of a number are digits, the first of them no zero unless
/// it is the only one, and add up to the number.
pub proof fn law_decimal(n: nat)
    ensures
        decimal(n).len() > 0,
        forall|i: int| 0 <= i < decimal(n).len() ==> 48 <= #[trigger] decimal(n)[i] <= 57,
        decimal(n).len() > 1 ==> decimal(n)[0] != 48,
        worth(decimal(n), decimal(n).len() as int) == n,
    decreases n,
{
    lemma_decimal_ascii(n);
    lemma_pow0(10);
    if n >= 10 {
        let front = decimal(n / 10);
        law_decimal(n / 10);
        lemma_worth_push(front, (48 + n % 10) as u8, front.len() as int);
        assert(decimal(n).len() == front.len() + 1);
        if front.len() == 1 {
            assert(front[0] != 48) by {
                assert(worth(front, 1) == worth(front, 0) + (front[0] - 48) * 1);
                assert(n / 10 > 0);
            }
        }
    } else {
        reveal_with_fuel(worth, 2);
        assert(decimal(n)[0] == 48 + n);
    }
}

/// The name of a temporary file is `.tmp.`, the number of the process in
/// decimal, a dot, and the key.
pub proof fn law_tmp_name(pid: u32, key: Seq<u8>) -> (ds: Seq<u8>)
    ensures
        forall|i: int| 0 <= i < ds.len() ==> 48 <= #[trigger] ds[i] <= 57,
        ds.len() > 0,
        ds.len() > 1 ==> ds[0] != 48,
        worth(ds, ds.len() as int) == pid,
        tmp_name(pid, key) == seq![46u8, 116u8, 109u8, 112u8, 46u8] + ds + seq![46u8] + key,
{
    law_decimal(pid as nat);
    decimal(pid as nat)
}

/// Keys and temporary files cannot be taken for each other.
pub proof fn law_tmp_name_is_no_key(pid: u32, key: Seq<u8>)
    ensures
        !key_ok(tmp_name(pid, key)),
        starts_with(tmp_name(pid, key), tmp_prefix()),
{
    let name = tmp_name(pid, key);
    assert(name[0] == DOT);
    assert(name.subrange(0, 5) =~= tmp_prefix());
}

// ------------------------------------------------------------ directories --

/// One entry of the store's directory.
#[derive(Debug)]
pub struct DirEntry {
    pub name: Vec<u8>,
    /// Whether it is a regular file, as far as can be told.
    pub is_file: bool,
}

/// What to do with an entry of the store's directory when the store is loaded.
#[derive(Clone, Copy, Debug, PartialEq, Eq, Structural)]
pub enum Visit {
    /// Leave it alone.
    Skip,
    /// Remove it: it is left over from a commit cut short by a crash.
    Sweep,
    /// Read it: it is a key.
    Load,
}

/// What to do with an entry of that name and that type.
pub open spec fn visit_spec(name: Seq<u8>, is_file: bool) -> Visit {
    if !valid_utf8(name) {
        Visit::Skip
    } else if starts_with(name, tmp_prefix()) {
        Visit::Sweep
    } else if name.len() > 0 && name[0] == DOT || !is_file {
        Visit::Skip
    } else {
        Visit::Load
    }
}

/// The entry is the file of a key: a regular file whose name is text that does
/// not start with a dot.
pub open spec fn is_key_file(name: Seq<u8>, is_file: bool) -> bool {
    &&& is_file
    &&& valid_utf8(name)
    &&& name.len() > 0 ==> name[0] != 46
}

/// The entry is left over from a commit that was cut short: its name is text
/// that starts with `.tmp.`
pub open spec fn is_leftover(name: Seq<u8>) -> bool {
    &&& valid_utf8(name)
    &&& name.len() >= 5
    &&& name[0] == 46
    &&& name[1] == 116
    &&& name[2] == 109
    &&& name[3] == 112
    &&& name[4] == 46
}

/// A load reads the files of keys, removes leftovers of commits that were cut
/// short, and leaves everything else alone.
pub proof fn law_visit(name: Seq<u8>, is_file: bool)
    ensures
        visit_spec(name, is_file) == if is_leftover(name) {
            Visit::Sweep
        } else if is_key_file(name, is_file) {
            Visit::Load
        } else {
            Visit::Skip
        },
        is_leftover(name) ==> !is_key_file(name, is_file),
{
    if name.len() >= 5 {
        let p = name.subrange(0, 5);
        assert(p[0] == name[0] && p[1] == name[1] && p[2] == name[2] && p[3] == name[3] && p[4]
            == name[4]);
        if is_leftover(name) {
            assert(p =~= tmp_prefix());
        }
    }
}

/// What to do with an entry of the store's directory when the store is loaded.
pub fn visit(e: &DirEntry) -> (r: Visit)
    ensures
        r == visit_spec(e.name@, e.is_file),
        r == Visit::Load <==> is_key_file(e.name@, e.is_file),
        r == Visit::Sweep <==> is_leftover(e.name@),
{
    proof {
        law_visit(e.name@, e.is_file);
    }
    if !is_utf8(e.name.as_slice()) {
        return Visit::Skip;
    }
    let n = &e.name;
    let tmp = n.len() >= 5 && n[0] == 46 && n[1] == 116 && n[2] == 109 && n[3] == 112 && n[4] == 46;
    proof {
        if tmp {
            assert(n@.subrange(0, 5) =~= tmp_prefix());
        } else if starts_with(n@, tmp_prefix()) {
            let p = n@.subrange(0, 5);
            assert(p[0] == n@[0] && p[1] == n@[1] && p[2] == n@[2] && p[3] == n@[3] && p[4]
                == n@[4]);
        }
    }
    if tmp {
        return Visit::Sweep;
    }
    if (n.len() > 0 && n[0] == DOT) || !e.is_file {
        return Visit::Skip;
    }
    Visit::Load
}

proof fn lemma_ascii_valid(s: Seq<u8>)
    requires
        forall|i: int| 0 <= i < s.len() ==> #[trigger] s[i] < 128,
    ensures
        valid_utf8(s),
    decreases s.len(),
{
    if s.len() > 0 {
        assert(s[0] < 128);
        let b = s[0];
        assert((b & 0x7f) as u32 <= 0x7f) by (bit_vector);
        let rest = s.subrange(1, s.len() as int);
        assert forall|i: int| 0 <= i < rest.len() implies #[trigger] rest[i] < 128 by {
            assert(rest[i] == s[i + 1]);
        }
        lemma_ascii_valid(rest);
    }
}

proof fn lemma_decimal_ascii(n: nat)
    ensures
        forall|i: int| 0 <= i < decimal(n).len() ==> 48 <= #[trigger] decimal(n)[i] <= 57,
    decreases n,
{
    if n >= 10 {
        let d = decimal(n / 10);
        lemma_decimal_ascii(n / 10);
        assert forall|i: int| 0 <= i < decimal(n).len() implies 48 <= #[trigger] decimal(n)[i]
            <= 57 by {
            if i < d.len() {
                assert(decimal(n)[i] == d[i]);
            }
        }
    }
}

/// A key that can be stored is read back from the file that it is stored in;
/// the temporary file that it is written through is swept, and never read.
pub proof fn law_stored_is_loaded(key: Seq<u8>, pid: u32)
    requires
        key_ok(key),
    ensures
        visit_spec(key, true) == Visit::Load,
        visit_spec(tmp_name(pid, key), true) == Visit::Sweep,
{
    law_tmp_name_is_no_key(pid, key);
    if starts_with(key, tmp_prefix()) {
        assert(key.subrange(0, 5)[0] == key[0]);
    }
    lemma_decimal_ascii(pid as nat);
    let front = tmp_prefix() + decimal(pid as nat) + seq![DOT];
    lemma_ascii_valid(front);
    vstd::utf8::valid_utf8_concat(front, key);
}

/// An entry of the store's directory, with its contents if it was read.
#[derive(Debug)]
pub struct Found {
    pub entry: DirEntry,
    pub contents: Option<Vec<u8>>,
}

/// The key and the value that an entry gives, if it gives one.
pub open spec fn loaded_at(f: Found) -> Option<(Seq<u8>, Seq<u8>)> {
    match f.contents {
        Some(c) if visit_spec(f.entry.name@, f.entry.is_file) == Visit::Load => Some(
            (f.entry.name@, c@),
        ),
        _ => None,
    }
}

/// The keys and values that the first `n` entries give.
pub open spec fn loaded_upto(fs: Seq<Found>, n: int) -> Seq<(Seq<u8>, Seq<u8>)>
    decreases n,
{
    if n <= 0 {
        Seq::empty()
    } else {
        match loaded_at(fs[n - 1]) {
            Some(kv) => loaded_upto(fs, n - 1).push(kv),
            None => loaded_upto(fs, n - 1),
        }
    }
}

/// An entry is a key, and its contents could not be read.
pub open spec fn unread(f: Found) -> bool {
    visit_spec(f.entry.name@, f.entry.is_file) == Visit::Load && f.contents is None
}

/// The keys and values that the entries of the store's directory give, in the
/// order of the entries; a key that could not be read is passed over.
pub fn load_readable(found: &Vec<Found>) -> (out: Vec<(Vec<u8>, Vec<u8>)>)
    ensures
        pairs_of(out@) == loaded_upto(found@, found@.len() as int),
{
    let mut out: Vec<(Vec<u8>, Vec<u8>)> = Vec::new();
    let mut n: usize = 0;
    assert(pairs_of(out@) =~= loaded_upto(found@, 0));
    while n < found.len()
        invariant
            n <= found.len(),
            pairs_of(out@) == loaded_upto(found@, n as int),
        decreases found.len() - n,
    {
        let f = &found[n];
        n += 1;
        match visit(&f.entry) {
            Visit::Load => {},
            _ => {
                continue;
            },
        }
        match &f.contents {
            Some(c) => {
                let k = slice_to_vec(f.entry.name.as_slice());
                let v = slice_to_vec(c.as_slice());
                let ghost before = out@;
                let ghost kv = (k@, v@);
                assert(loaded_at(*f) == Some(kv));
                out.push((k, v));
                assert(pairs_of(out@) =~= pairs_of(before).push(kv));
            },
            None => {},
        }
    }
    out
}

/// The keys and values that the entries of the store's directory give, in the
/// order of the entries. With a key missing they are not the store: a key that
/// could not be read fails the whole of it.
pub fn load_all(found: Vec<Found>) -> (r: Result<Vec<(Vec<u8>, Vec<u8>)>, ()>)
    ensures
        match r {
            Ok(out) => {
                &&& forall|i: int| 0 <= i < found@.len() ==> !unread(#[trigger] found@[i])
                &&& pairs_of(out@) == loaded_upto(found@, found@.len() as int)
            },
            Err(_) => exists|i: int| 0 <= i < found@.len() && unread(#[trigger] found@[i]),
        },
{
    let mut n: usize = 0;
    while n < found.len()
        invariant
            n <= found.len(),
            forall|i: int| 0 <= i < n ==> !unread(#[trigger] found@[i]),
        decreases found.len() - n,
    {
        let f = &found[n];
        if f.contents.is_none() && visit(&f.entry) == Visit::Load {
            assert(unread(found@[n as int]));
            return Err(());
        }
        n += 1;
    }
    Ok(load_readable(&found))
}

/// Every key among the entries could be read.
pub open spec fn all_read(fs: Seq<Found>) -> bool {
    forall|i: int| 0 <= i < fs.len() ==> !unread(#[trigger] fs[i])
}

/// What was found is the file of a key, and these are its name and all of its
/// contents.
pub open spec fn gives(f: Found, kv: (Seq<u8>, Seq<u8>)) -> bool {
    &&& is_key_file(f.entry.name@, f.entry.is_file)
    &&& f.contents is Some
    &&& kv.0 == f.entry.name@
    &&& kv.1 == f.contents->0@
}

/// One of the first `n` that were found gives that key and that value.
pub open spec fn given(fs: Seq<Found>, n: int, kv: (Seq<u8>, Seq<u8>)) -> bool {
    exists|i: int| 0 <= i < n && #[trigger] gives(fs[i], kv)
}

/// One of the first `n` entries is a file of that name.
pub open spec fn has_file(es: Seq<DirEntry>, n: int, name: Seq<u8>) -> bool {
    exists|i: int| 0 <= i < n && #[trigger] is_file_named(es[i], name)
}

/// The entry is a file of that name.
pub open spec fn is_file_named(e: DirEntry, name: Seq<u8>) -> bool {
    e.is_file && e.name@ == name
}

/// What could be read of the files of keys is loaded, each key with all of its
/// contents, once if its name occurs once, and nothing else is. Nothing is
/// missing exactly if every file of a key could be read.
pub proof fn law_loaded(fs: Seq<Found>, n: int)
    requires
        0 <= n <= fs.len(),
    ensures
        forall|i: int, c: Seq<u8>|
            #![trigger loaded_upto(fs, n).contains((fs[i].entry.name@, c))]
            0 <= i < n && is_key_file(fs[i].entry.name@, fs[i].entry.is_file)
                && fs[i].contents is Some && fs[i].contents->0@ == c ==> loaded_upto(
                fs,
                n,
            ).contains((fs[i].entry.name@, c)),
        forall|j: int|
            0 <= j < loaded_upto(fs, n).len() ==> given(fs, n, #[trigger] loaded_upto(fs, n)[j]),
        (forall|a: int, b: int|
            0 <= a < b < n ==> (#[trigger] fs[a]).entry.name@ != (#[trigger] fs[b]).entry.name@)
            ==> forall|a: int, b: int|
            0 <= a < b < loaded_upto(fs, n).len() ==> (#[trigger] loaded_upto(fs, n)[a]).0 != (
            #[trigger] loaded_upto(fs, n)[b]).0,
        all_read(fs) <==> forall|i: int|
            0 <= i < fs.len() && is_key_file((#[trigger] fs[i]).entry.name@, fs[i].entry.is_file)
                ==> fs[i].contents is Some,
    decreases n,
{
    assert forall|i: int| 0 <= i < fs.len() implies #[trigger] unread(fs[i]) == (is_key_file(
        fs[i].entry.name@,
        fs[i].entry.is_file,
    ) && fs[i].contents is None) by {
        law_visit(fs[i].entry.name@, fs[i].entry.is_file);
    }
    if all_read(fs) {
        assert forall|i: int|
            0 <= i < fs.len() && is_key_file(
                (#[trigger] fs[i]).entry.name@,
                fs[i].entry.is_file,
            ) implies fs[i].contents is Some by {
            assert(!unread(fs[i]));
        }
    }
    if n > 0 {
        law_loaded(fs, n - 1);
        let was = loaded_upto(fs, n - 1);
        let now = loaded_upto(fs, n);
        let f = fs[n - 1];
        law_visit(f.entry.name@, f.entry.is_file);
        assert forall|i: int, c: Seq<u8>|
            #![trigger now.contains((fs[i].entry.name@, c))]
            0 <= i < n && is_key_file(fs[i].entry.name@, fs[i].entry.is_file)
                && fs[i].contents is Some && fs[i].contents->0@ == c implies now.contains(
            (fs[i].entry.name@, c),
        ) by {
            let kv = (fs[i].entry.name@, c);
            if i < n - 1 {
                assert(was.contains((fs[i].entry.name@, c)));
                let j = choose|j: int| 0 <= j < was.len() && was[j] == kv;
                assert(now[j] == kv);
            } else {
                assert(now.last() == kv);
            }
        }
        assert forall|j: int| 0 <= j < now.len() implies given(fs, n, #[trigger] now[j]) by {
            if j < was.len() {
                assert(now[j] == was[j]);
                assert(given(fs, n - 1, was[j]));
                let i = choose|i: int| 0 <= i < n - 1 && #[trigger] gives(fs[i], was[j]);
                assert(gives(fs[i], now[j]));
            } else {
                assert(gives(fs[n - 1], now[j]));
            }
        }
        if forall|a: int, b: int|
            0 <= a < b < n ==> (#[trigger] fs[a]).entry.name@ != (
            #[trigger] fs[b]).entry.name@ {
            assert forall|a: int, b: int| 0 <= a < b < now.len() implies (#[trigger] now[a]).0 != (
            #[trigger] now[b]).0 by {
                assert(now[a] == was[a]);
                if b < was.len() {
                    assert(now[b] == was[b]);
                } else {
                    assert(given(fs, n - 1, was[a]));
                    let i = choose|i: int| 0 <= i < n - 1 && #[trigger] gives(fs[i], was[a]);
                    assert(fs[i].entry.name@ != fs[n - 1].entry.name@);
                }
            }
        }
    }
}

/// If every key could be read, each of them is among what was loaded, with its
/// contents, and nothing else is.
pub proof fn law_loaded_whole(fs: Seq<Found>, n: int)
    requires
        0 <= n <= fs.len(),
        all_read(fs),
    ensures
        forall|i: int|
            0 <= i < n && visit_spec(#[trigger] fs[i].entry.name@, fs[i].entry.is_file)
                == Visit::Load ==> loaded_upto(fs, n).contains(
                (fs[i].entry.name@, fs[i].contents->0@),
            ),
        forall|j: int|
            0 <= j < loaded_upto(fs, n).len() ==> exists|i: int|
                0 <= i < n && loaded_at(#[trigger] fs[i]) == Some(#[trigger] loaded_upto(fs, n)[j]),
    decreases n,
{
    if n > 0 {
        law_loaded_whole(fs, n - 1);
        let before = loaded_upto(fs, n - 1);
        let now = loaded_upto(fs, n);
        assert forall|i: int|
            0 <= i < n && visit_spec(#[trigger] fs[i].entry.name@, fs[i].entry.is_file)
                == Visit::Load implies now.contains((fs[i].entry.name@, fs[i].contents->0@)) by {
            let kv = (fs[i].entry.name@, fs[i].contents->0@);
            if i < n - 1 {
                let j = choose|j: int| 0 <= j < before.len() && before[j] == kv;
                assert(before.contains(kv));
                assert(now[j] == kv);
            } else {
                assert(!unread(fs[i]));
                assert(now.last() == kv);
            }
        }
        assert forall|j: int| 0 <= j < now.len() implies exists|i: int|
            0 <= i < n && loaded_at(#[trigger] fs[i]) == Some(#[trigger] now[j]) by {
            if j < before.len() {
                assert(now[j] == before[j]);
                let i = choose|i: int|
                    0 <= i < n - 1 && loaded_at(#[trigger] fs[i]) == Some(before[j]);
                assert(loaded_at(fs[i]) == Some(now[j]));
            } else {
                assert(loaded_at(fs[n - 1]) == Some(now[j]));
            }
        }
    }
}

/// The names of those of the first `n` entries that are files.
pub open spec fn files_upto(es: Seq<DirEntry>, n: int) -> Seq<Seq<u8>>
    decreases n,
{
    if n <= 0 {
        Seq::empty()
    } else if es[n - 1].is_file {
        files_upto(es, n - 1).push(es[n - 1].name@)
    } else {
        files_upto(es, n - 1)
    }
}

/// The names of the files that go when the store is emptied: all of them,
/// temporary ones too.
pub fn files_to_remove(entries: &Vec<DirEntry>) -> (out: Vec<Vec<u8>>)
    ensures
        names_of(out@) == files_upto(entries@, entries@.len() as int),
        forall|i: int|
            0 <= i < entries@.len() && (#[trigger] entries@[i]).is_file ==> names_of(out@).contains(
                entries@[i].name@,
            ),
        forall|j: int|
            0 <= j < out@.len() ==> has_file(
                entries@,
                entries@.len() as int,
                (#[trigger] out@[j])@,
            ),
{
    proof {
        law_files(entries@, entries@.len() as int);
    }
    let mut out: Vec<Vec<u8>> = Vec::new();
    let mut n: usize = 0;
    assert(names_of(out@) =~= files_upto(entries@, 0));
    while n < entries.len()
        invariant
            n <= entries.len(),
            names_of(out@) == files_upto(entries@, n as int),
        decreases entries.len() - n,
    {
        let e = &entries[n];
        n += 1;
        if e.is_file {
            let ghost before = out@;
            let name = slice_to_vec(e.name.as_slice());
            let ghost v = name@;
            out.push(name);
            assert(names_of(out@) =~= names_of(before).push(v));
        }
    }
    assert forall|j: int| 0 <= j < out@.len() implies has_file(
        entries@,
        entries@.len() as int,
        (#[trigger] out@[j])@,
    ) by {
        assert(names_of(out@)[j] == out@[j]@);
        assert(files_upto(entries@, entries@.len() as int)[j] == out@[j]@);
    }
    out
}

/// The files to be removed are all the entries that are files, each once if its
/// name occurs once, and no other.
pub proof fn law_files(es: Seq<DirEntry>, n: int)
    requires
        0 <= n <= es.len(),
    ensures
        forall|i: int|
            0 <= i < n && (#[trigger] es[i]).is_file ==> files_upto(es, n).contains(es[i].name@),
        forall|j: int|
            0 <= j < files_upto(es, n).len() ==> has_file(es, n, #[trigger] files_upto(es, n)[j]),
        (forall|a: int, b: int|
            0 <= a < b < n ==> (#[trigger] es[a]).name@ != (#[trigger] es[b]).name@) ==> forall|
            a: int,
            b: int,
        |
            0 <= a < b < files_upto(es, n).len() ==> #[trigger] files_upto(es, n)[a]
                != #[trigger] files_upto(es, n)[b],
    decreases n,
{
    if n > 0 {
        law_files(es, n - 1);
        let was = files_upto(es, n - 1);
        let now = files_upto(es, n);
        assert forall|i: int| 0 <= i < n && (#[trigger] es[i]).is_file implies now.contains(
            es[i].name@,
        ) by {
            if i < n - 1 {
                assert(was.contains(es[i].name@));
                let j = choose|j: int| 0 <= j < was.len() && was[j] == es[i].name@;
                assert(now[j] == es[i].name@);
            } else {
                assert(now.last() == es[i].name@);
            }
        }
        assert forall|j: int| 0 <= j < now.len() implies has_file(es, n, #[trigger] now[j]) by {
            if j < was.len() {
                assert(now[j] == was[j]);
                assert(has_file(es, n - 1, was[j]));
                let i = choose|i: int| 0 <= i < n - 1 && #[trigger] is_file_named(es[i], was[j]);
                assert(is_file_named(es[i], now[j]));
            } else {
                assert(is_file_named(es[n - 1], now[j]));
            }
        }
        if forall|a: int, b: int|
            0 <= a < b < n ==> (#[trigger] es[a]).name@ != (#[trigger] es[b]).name@ {
            assert forall|a: int, b: int| 0 <= a < b < now.len() implies #[trigger] now[a]
                != #[trigger] now[b] by {
                assert(now[a] == was[a]);
                if b < was.len() {
                    assert(now[b] == was[b]);
                } else {
                    assert(has_file(es, n - 1, was[a]));
                    let i = choose|i: int|
                        0 <= i < n - 1 && #[trigger] is_file_named(es[i], was[a]);
                    assert(es[i].name@ != es[n - 1].name@);
                }
            }
        }
    }
}

/// The names in a list.
pub open spec fn names_of(v: Seq<Vec<u8>>) -> Seq<Seq<u8>> {
    v.map_values(|n: Vec<u8>| n@)
}

/// Whether every file is gone, by what came of removing each of them; nothing
/// if the directory could not be read.
pub open spec fn all_removed(outcomes: Option<Seq<Removal>>) -> bool {
    match outcomes {
        Some(rs) => forall|i: int| 0 <= i < rs.len() ==> #[trigger] rs[i] != Removal::Failed,
        None => false,
    }
}

/// Whether every file is gone, by what came of removing each of them.
pub fn remove_all(outcomes: &Option<Vec<Removal>>) -> (r: Result<(), ()>)
    ensures
        r is Ok <==> all_removed(
            match outcomes {
                Some(rs) => Some(rs@),
                None => None,
            },
        ),
{
    match outcomes {
        None => Err(()),
        Some(rs) => {
            let mut n: usize = 0;
            while n < rs.len()
                invariant
                    *outcomes == Some(*rs),
                    n <= rs.len(),
                    forall|i: int| 0 <= i < n ==> #[trigger] rs@[i] != Removal::Failed,
                decreases rs.len() - n,
            {
                if remove(rs[n]).is_err() {
                    assert(rs@[n as int] == Removal::Failed);
                    return Err(());
                }
                n += 1;
            }
            Ok(())
        },
    }
}

// ------------------------------------------------------------- one file --

/// What a name in the file system stands for.
#[derive(Clone, Copy, Debug, PartialEq, Eq, Structural)]
pub enum Kind {
    /// A regular file.
    File,
    Directory,
    Other,
}

/// What a look at a name in the file system found.
#[derive(Clone, Copy, Debug, PartialEq, Eq, Structural)]
pub struct Meta {
    pub kind: Kind,
    pub len: u64,
}

/// The file of a key is not what it should be: missing, no regular file, or of
/// another length. A key that has no file cannot be out of step with it.
pub open spec fn differs(key: Seq<u8>, meta: Option<Meta>, len: u32) -> bool {
    key_ok(key) && match meta {
        Some(m) => m.kind != Kind::File || m.len != len,
        None => true,
    }
}

/// Whether the file of a key is not what it should be. A look at the file and
/// not a read of it: that catches a file deleted or truncated, and costs
/// nothing extra.
pub fn differs_on_disk(key: &[u8], meta: Option<Meta>, len: u32) -> (r: bool)
    ensures
        r == differs(key@, meta, len),
        key_ok(key@) ==> (!r <==> meta is Some && (meta->0).kind == Kind::File && (meta->0).len
            == len),
        !key_ok(key@) ==> !r,
{
    if !valid_key(key) {
        return false;
    }
    match meta {
        Some(m) => m.kind != Kind::File || m.len != len as u64,
        None => true,
    }
}

/// What came of removing a file.
#[derive(Clone, Copy, Debug, PartialEq, Eq, Structural)]
pub enum Removal {
    Removed,
    /// There was no such file.
    NotFound,
    Failed,
}

/// Whether a removal did what it was for: there is no file of that key.
pub fn remove(outcome: Removal) -> (r: Result<(), ()>)
    ensures
        r is Ok <==> outcome != Removal::Failed,
{
    match outcome {
        Removal::Removed => Ok(()),
        Removal::NotFound => Ok(()),
        Removal::Failed => Err(()),
    }
}

/// Whether the store's directory is usable: there is something of its name, and
/// it is a directory. An unmounted mountpoint is a perfectly good directory, so
/// this does not tell whether the store is there.
pub fn store_available(meta: Option<Meta>) -> (r: bool)
    ensures
        r <==> meta is Some && (meta->0).kind == Kind::Directory,
{
    match meta {
        Some(m) => m.kind == Kind::Directory,
        None => false,
    }
}

// -------------------------------------------------- writing through a file --

/// What to do next to the files of a write. Each but the last two is answered
/// with whether it succeeded.
#[derive(Clone, Copy, Debug, PartialEq, Eq, Structural)]
pub enum FileStep {
    /// Create the temporary file, or empty it.
    Create,
    /// Write the value into the temporary file.
    Write,
    /// Flush the temporary file.
    Flush,
    /// Rename the temporary file to the key's file.
    Rename,
    /// Remove the temporary file; whether that succeeds does not matter.
    Unlink,
    /// Nothing: the write is over, and this is how it went.
    Finish(bool),
}

/// A write of a key's file through a temporary one.
#[derive(Debug)]
pub struct FileOp {
    tmp: Vec<u8>,
    dst: Option<Vec<u8>>,
    val: Vec<u8>,
    flush: bool,
    rename: bool,
    at: FileStep,
}

/// A write in progress: what it is about, and what it does now.
pub struct FileOpView {
    pub tmp: Seq<u8>,
    pub dst: Option<Seq<u8>>,
    pub val: Seq<u8>,
    pub flush: bool,
    pub rename: bool,
    pub at: FileStep,
}

impl View for FileOp {
    type V = FileOpView;

    closed spec fn view(&self) -> FileOpView {
        FileOpView {
            tmp: self.tmp@,
            dst: bytes_of(self.dst),
            val: self.val@,
            flush: self.flush,
            rename: self.rename,
            at: self.at,
        }
    }
}

impl FileOpView {
    /// What comes once the value is written.
    pub open spec fn written(self) -> FileStep {
        if self.rename {
            FileStep::Rename
        } else {
            FileStep::Finish(true)
        }
    }

    /// What comes after the current step.
    pub open spec fn next(self, ok: bool) -> FileStep {
        match self.at {
            FileStep::Create => if ok {
                FileStep::Write
            } else {
                FileStep::Unlink
            },
            FileStep::Write => if !ok {
                FileStep::Unlink
            } else if self.flush {
                FileStep::Flush
            } else {
                self.written()
            },
            FileStep::Flush => if ok {
                self.written()
            } else {
                FileStep::Unlink
            },
            FileStep::Rename => if ok {
                FileStep::Finish(true)
            } else {
                FileStep::Unlink
            },
            FileStep::Unlink => FileStep::Finish(false),
            FileStep::Finish(r) => FileStep::Finish(r),
        }
    }

    /// The write after one answer.
    pub open spec fn stepped(self, ok: bool) -> FileOpView {
        FileOpView { at: self.next(ok), ..self }
    }
}

/// A write that makes a key's file anew: through a temporary file, flushed,
/// then renamed, so that a crash leaves either the old value or the new one.
pub open spec fn write_atomic_spec(p: Paths, pid: u32, key: Seq<u8>, val: Seq<u8>) -> Option<
    FileOpView,
> {
    if key_ok(key) {
        Some(
            FileOpView {
                tmp: root_bytes(p) + tmp_name(pid, key),
                dst: Some(root_bytes(p) + key),
                val,
                flush: true,
                rename: true,
                at: FileStep::Create,
            },
        )
    } else {
        None
    }
}

/// Starts a write that makes a key's file anew, if the key can be stored: a
/// temporary file in the same directory, flushed, then renamed.
pub fn write_atomic(p: &Paths, pid: u32, key: &[u8], val: &[u8]) -> (r: Option<FileOp>)
    ensures
        match r {
            Some(op) => write_atomic_spec(*p, pid, key@, val@) == Some(op@),
            None => write_atomic_spec(*p, pid, key@, val@) is None,
        },
{
    match (tmp_path(p, pid, key), key_path(p, key)) {
        (Some(tmp), Some(dst)) => Some(
            FileOp {
                tmp,
                dst: Some(dst),
                val: slice_to_vec(val),
                flush: true,
                rename: true,
                at: FileStep::Create,
            },
        ),
        _ => None,
    }
}

/// A write of a value into a temporary file, without flushing it. The store
/// has to be flushed before the file is published.
pub open spec fn stage_spec(p: Paths, pid: u32, key: Seq<u8>, val: Seq<u8>) -> Option<FileOpView> {
    match write_atomic_spec(p, pid, key, val) {
        Some(op) => Some(FileOpView { dst: None, flush: false, rename: false, ..op }),
        None => None,
    }
}

/// Starts a write of a value into a temporary file, if the key can be stored.
/// Leaving out the flush is what makes a large commit bearable: one flush of
/// the filesystem does for all the files staged before it.
pub fn stage(p: &Paths, pid: u32, key: &[u8], val: &[u8]) -> (r: Option<FileOp>)
    ensures
        match r {
            Some(op) => stage_spec(*p, pid, key@, val@) == Some(op@),
            None => stage_spec(*p, pid, key@, val@) is None,
        },
{
    match tmp_path(p, pid, key) {
        Some(tmp) => Some(
            FileOp {
                tmp,
                dst: None,
                val: slice_to_vec(val),
                flush: false,
                rename: false,
                at: FileStep::Create,
            },
        ),
        None => None,
    }
}

/// A rename of a temporary file to the file of a key; a removal if the key
/// cannot be stored.
pub open spec fn publish_spec(p: Paths, tmp: Seq<u8>, key: Seq<u8>) -> FileOpView {
    FileOpView {
        tmp,
        dst: if key_ok(key) {
            Some(root_bytes(p) + key)
        } else {
            None
        },
        val: Seq::empty(),
        flush: false,
        rename: true,
        at: if key_ok(key) {
            FileStep::Rename
        } else {
            FileStep::Unlink
        },
    }
}

/// Starts to publish a staged file under its key.
pub fn publish(p: &Paths, tmp: Vec<u8>, key: &[u8]) -> (op: FileOp)
    ensures
        op@ == publish_spec(*p, tmp@, key@),
{
    let val: Vec<u8> = Vec::new();
    assert(val@ =~= Seq::empty());
    match key_path(p, key) {
        Some(dst) => FileOp {
            tmp,
            dst: Some(dst),
            val,
            flush: false,
            rename: true,
            at: FileStep::Rename,
        },
        None => FileOp { tmp, dst: None, val, flush: false, rename: true, at: FileStep::Unlink },
    }
}

impl FileOp {
    /// The path of the temporary file.
    pub fn tmp(&self) -> (r: &[u8])
        ensures
            r@ == self@.tmp,
    {
        self.tmp.as_slice()
    }

    /// The path of the key's file.
    pub fn dst(&self) -> (r: Option<&[u8]>)
        ensures
            match r {
                Some(d) => self@.dst == Some(d@),
                None => self@.dst is None,
            },
    {
        match &self.dst {
            Some(d) => Some(d.as_slice()),
            None => None,
        }
    }

    /// The value that is written.
    pub fn val(&self) -> (r: &[u8])
        ensures
            r@ == self@.val,
    {
        self.val.as_slice()
    }

    /// What to do now.
    pub fn now(&self) -> (r: FileStep)
        ensures
            r == self@.at,
    {
        self.at
    }

    /// Takes the answer to the current step, and says what to do next.
    pub fn step(&mut self, ok: bool) -> (r: FileStep)
        ensures
            final(self)@ == old(self)@.stepped(ok),
            r == final(self)@.at,
    {
        let written = if self.rename {
            FileStep::Rename
        } else {
            FileStep::Finish(true)
        };
        let next = match self.at {
            FileStep::Create => if ok {
                FileStep::Write
            } else {
                FileStep::Unlink
            },
            FileStep::Write => if !ok {
                FileStep::Unlink
            } else if self.flush {
                FileStep::Flush
            } else {
                written
            },
            FileStep::Flush => if ok {
                written
            } else {
                FileStep::Unlink
            },
            FileStep::Rename => if ok {
                FileStep::Finish(true)
            } else {
                FileStep::Unlink
            },
            FileStep::Unlink => FileStep::Finish(false),
            FileStep::Finish(r) => FileStep::Finish(r),
        };
        self.at = next;
        next
    }
}

/// The two files of a write: the temporary one and the key's.
pub struct TwoFiles {
    pub tmp: Option<Seq<u8>>,
    pub dst: Option<Seq<u8>>,
}

/// What came of a step: whether it succeeded, and what is in the temporary file
/// if making it or writing it did not.
pub struct Outcome {
    pub ok: bool,
    pub left: Option<Seq<u8>>,
}

impl FileOpView {
    /// What the current step does to the two files.
    pub open spec fn effect(self, fs: TwoFiles, o: Outcome) -> TwoFiles {
        match self.at {
            FileStep::Create => TwoFiles {
                tmp: if o.ok {
                    Some(Seq::empty())
                } else {
                    o.left
                },
                ..fs
            },
            FileStep::Write => TwoFiles {
                tmp: if o.ok {
                    Some(self.val)
                } else {
                    o.left
                },
                ..fs
            },
            FileStep::Rename => if o.ok {
                TwoFiles { tmp: None, dst: fs.tmp }
            } else {
                fs
            },
            FileStep::Unlink => if o.ok {
                TwoFiles { tmp: None, ..fs }
            } else {
                fs
            },
            FileStep::Flush => fs,
            FileStep::Finish(_) => fs,
        }
    }

    /// The write and the two files after a series of steps.
    pub open spec fn ran(self, fs: TwoFiles, os: Seq<Outcome>) -> (FileOpView, TwoFiles)
        decreases os.len(),
    {
        if os.len() == 0 {
            (self, fs)
        } else {
            let (op, now) = self.ran(fs, os.drop_last());
            (op.stepped(os.last().ok), op.effect(now, os.last()))
        }
    }
}

/// A step failed, and so did the next, which is the removal of the temporary
/// file.
pub open spec fn left_behind(os: Seq<Outcome>) -> bool {
    exists|k: int| 0 < k < os.len() && !os[k - 1].ok && !(#[trigger] os[k]).ok
}

/// How the two files are while a write is where it is.
pub open spec fn on_the_way(
    op: FileOpView,
    fs: TwoFiles,
    now: TwoFiles,
    os: Seq<Outcome>,
) -> bool {
    match op.at {
        FileStep::Create => now == fs && os.len() == 0,
        FileStep::Write => now.dst == fs.dst,
        FileStep::Flush => now.dst == fs.dst && now.tmp == Some(op.val),
        FileStep::Rename => now.dst == fs.dst && now.tmp == Some(op.val),
        FileStep::Unlink => now.dst == fs.dst && os.len() > 0 && !os.last().ok,
        FileStep::Finish(true) => if op.rename {
            now == (TwoFiles { tmp: None, dst: Some(op.val) })
        } else {
            now == (TwoFiles { tmp: Some(op.val), dst: fs.dst })
        },
        FileStep::Finish(false) => now.dst == fs.dst && (now.tmp is None || left_behind(os)),
    }
}

proof fn lemma_ran(op: FileOpView, fs: TwoFiles, os: Seq<Outcome>)
    requires
        op.at == FileStep::Create,
    ensures
        ({
            let (end, now) = op.ran(fs, os);
            &&& end == (FileOpView { at: end.at, ..op })
            &&& on_the_way(end, fs, now, os)
            &&& !op.rename ==> end.at != FileStep::Rename
        }),
    decreases os.len(),
{
    if os.len() > 0 {
        let rest = os.drop_last();
        lemma_ran(op, fs, rest);
        let (before, was) = op.ran(fs, rest);
        let n = os.len() - 1;
        if before.at == FileStep::Unlink {
            assert(os[n - 1] == rest.last());
            assert(!os[n - 1].ok);
            if !os.last().ok {
                assert(!os[n].ok);
                assert(left_behind(os));
            }
        }
        if before.at == FileStep::Finish(false) && left_behind(rest) {
            let k = choose|k: int|
                0 < k < rest.len() && !rest[k - 1].ok && !(#[trigger] rest[k]).ok;
            assert(!os[k - 1].ok && !os[k].ok);
            assert(left_behind(os));
        }
    }
}

/// A write that makes a key's file anew leaves the file as it was, or makes it
/// hold the whole of the value: whatever fails, and wherever it is cut short. If
/// it says that it succeeded, the file holds the value, and no temporary file
/// is left; if it says that it failed, the file is as it was, and a temporary
/// file is left only if removing it failed too.
pub proof fn law_write_atomic(
    p: Paths,
    pid: u32,
    key: Seq<u8>,
    val: Seq<u8>,
    fs: TwoFiles,
    os: Seq<Outcome>,
)
    requires
        key_ok(key),
    ensures
        ({
            let (end, now) = (write_atomic_spec(p, pid, key, val)->0).ran(fs, os);
            &&& now.dst == fs.dst || now.dst == Some(val)
            &&& end.at == FileStep::Finish(true) ==> now == (TwoFiles {
                tmp: None,
                dst: Some(val),
            })
            &&& end.at == FileStep::Finish(false) ==> {
                &&& now.dst == fs.dst
                &&& now.tmp is None || left_behind(os)
            }
        }),
{
    lemma_ran(write_atomic_spec(p, pid, key, val)->0, fs, os);
}

/// A write into a temporary file never touches the key's file. If it says that
/// it succeeded, the temporary file holds the value; if it says that it failed,
/// a temporary file is left only if removing it failed too.
pub proof fn law_stage(
    p: Paths,
    pid: u32,
    key: Seq<u8>,
    val: Seq<u8>,
    fs: TwoFiles,
    os: Seq<Outcome>,
)
    requires
        key_ok(key),
    ensures
        ({
            let (end, now) = (stage_spec(p, pid, key, val)->0).ran(fs, os);
            &&& now.dst == fs.dst
            &&& end.at == FileStep::Finish(true) ==> now.tmp == Some(val)
            &&& end.at == FileStep::Finish(false) ==> now.tmp is None || left_behind(os)
        }),
{
    lemma_ran(stage_spec(p, pid, key, val)->0, fs, os);
}

/// Publishing a temporary file gives the key's file what was in it, and takes
/// it away, or says that it failed, and the key's file is as it was.
pub proof fn law_publish(p: Paths, tmp: Seq<u8>, key: Seq<u8>, fs: TwoFiles, os: Seq<Outcome>)
    ensures
        ({
            let (end, now) = publish_spec(p, tmp, key).ran(fs, os);
            match end.at {
                FileStep::Finish(true) => {
                    &&& key_ok(key)
                    &&& now == (TwoFiles { tmp: None, dst: fs.tmp })
                },
                FileStep::Finish(false) => now.dst == fs.dst,
                FileStep::Rename => key_ok(key) && now == fs,
                FileStep::Unlink => now == fs,
                _ => false,
            }
        }),
    decreases os.len(),
{
    if os.len() > 0 {
        law_publish(p, tmp, key, fs, os.drop_last());
    }
}

/// A write that makes a key's file anew creates the temporary file, writes it,
/// flushes it and renames it, in that order, and succeeds if all of that does;
/// from the first step that fails on, all it does is to remove the temporary
/// file, and it fails.
pub proof fn law_write_atomic_order(p: Paths, pid: u32, key: Seq<u8>, val: Seq<u8>)
    requires
        key_ok(key),
    ensures
        ({
            let op = write_atomic_spec(p, pid, key, val)->0;
            let steps = seq![
                FileStep::Create,
                FileStep::Write,
                FileStep::Flush,
                FileStep::Rename,
                FileStep::Finish(true),
            ];
            &&& op.at == steps[0]
            &&& op.val == val
            &&& op.tmp == root_bytes(p) + tmp_name(pid, key)
            &&& op.dst == Some(root_bytes(p) + key)
            &&& forall|k: int|
                0 <= k < 4 ==> #[trigger] (FileOpView { at: steps[k], ..op }).next(true) == steps[k
                    + 1]
            &&& forall|k: int|
                0 <= k < 4 ==> #[trigger] (FileOpView { at: steps[k], ..op }).next(false)
                    == FileStep::Unlink
            &&& forall|ok: bool|
                #[trigger] (FileOpView { at: FileStep::Unlink, ..op }).next(ok) == FileStep::Finish(
                    false,
                )
        }),
{
}

/// A write into a temporary file creates it and writes it, and succeeds if both
/// do; from the first step that fails on, all it does is to remove the file, and
/// it fails.
pub proof fn law_stage_order(p: Paths, pid: u32, key: Seq<u8>, val: Seq<u8>)
    requires
        key_ok(key),
    ensures
        ({
            let op = stage_spec(p, pid, key, val)->0;
            let steps = seq![FileStep::Create, FileStep::Write, FileStep::Finish(true)];
            &&& op.at == steps[0]
            &&& op.val == val
            &&& op.tmp == root_bytes(p) + tmp_name(pid, key)
            &&& forall|k: int|
                0 <= k < 2 ==> #[trigger] (FileOpView { at: steps[k], ..op }).next(true) == steps[k
                    + 1]
            &&& forall|k: int|
                0 <= k < 2 ==> #[trigger] (FileOpView { at: steps[k], ..op }).next(false)
                    == FileStep::Unlink
            &&& forall|ok: bool|
                #[trigger] (FileOpView { at: FileStep::Unlink, ..op }).next(ok) == FileStep::Finish(
                    false,
                )
        }),
{
}

/// Publishing a temporary file succeeds if the key can be stored and the rename
/// succeeds.
pub proof fn law_publish_order(p: Paths, tmp: Seq<u8>, key: Seq<u8>, ok: bool)
    ensures
        publish_spec(p, tmp, key).tmp == tmp,
        key_ok(key) ==> publish_spec(p, tmp, key).dst == Some(root_bytes(p) + key),
        key_ok(key) ==> publish_spec(p, tmp, key).at == FileStep::Rename,
        key_ok(key) ==> publish_spec(p, tmp, key).next(true) == FileStep::Finish(true),
        key_ok(key) ==> publish_spec(p, tmp, key).next(false) == FileStep::Unlink,
        !key_ok(key) ==> publish_spec(p, tmp, key).at == FileStep::Unlink,
        (FileOpView { at: FileStep::Unlink, ..publish_spec(p, tmp, key) }).next(ok)
            == FileStep::Finish(false),
{
}

} // verus!
