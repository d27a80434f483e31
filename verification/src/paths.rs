//! Where the store lives.

use vstd::prelude::*;
use vstd::slice::slice_to_vec;
use vstd::string::{StrSliceExecFns, StringExecFns};
use vstd::utf8::encode_utf8;

use crate::consts::{MOUNT_POINT, SHM_NAME};

verus! {

/// The places of the store and of the shared segment, if they are not the
/// usual ones.
#[derive(Debug)]
pub struct Paths {
    root: Option<String>,
    shm: Option<String>,
}

impl Paths {
    /// The directory of the store, if it is not the usual one.
    pub closed spec fn root(self) -> Option<Seq<char>> {
        match self.root {
            Some(r) => Some(r@),
            None => None,
        }
    }

    /// The name of the shared segment, if it is not the usual one.
    pub closed spec fn shm(self) -> Option<Seq<char>> {
        match self.shm {
            Some(n) => Some(n@),
            None => None,
        }
    }

    /// The directory of the store.
    pub open spec fn root_spec(self) -> Seq<char> {
        match self.root() {
            Some(r) => r,
            None => MOUNT_POINT@,
        }
    }

    /// The name of the shared segment.
    pub open spec fn shm_spec(self) -> Seq<char> {
        match self.shm() {
            Some(n) => n,
            None => SHM_NAME@,
        }
    }

    /// The directory ends with a separator.
    #[verifier::type_invariant]
    pub closed spec fn wf(self) -> bool {
        match self.root {
            Some(r) => r@.len() > 0 && r@.last() == '/',
            None => true,
        }
    }

    /// The usual places.
    pub fn new() -> (p: Paths)
        ensures
            p.root() is None,
            p.shm() is None,
    {
        Paths { root: None, shm: None }
    }
}

/// `dir` with a separator at its end.
pub open spec fn with_separator(dir: Seq<char>) -> Seq<char> {
    if dir.len() > 0 && dir.last() == '/' {
        dir
    } else {
        dir.push('/')
    }
}

/// The directory of the store. It ends with a separator.
pub fn store_root(p: &Paths) -> (r: String)
    ensures
        r@ == p.root_spec(),
        r@.len() > 0,
        r@.last() == '/',
        match p.root() {
            Some(dir) => r@ == dir,
            None => r@ == "/nvram/"@,
        },
{
    proof {
        use_type_invariant(p);
        reveal_strlit("/nvram/");
    }
    match &p.root {
        Some(r) => r.clone(),
        None => MOUNT_POINT.to_owned(),
    }
}

/// The name of the shared segment, terminated by a zero byte.
pub fn shm_name(p: &Paths) -> (r: Vec<u8>)
    ensures
        r@ == encode_utf8(p.shm_spec()).push(0),
        match p.shm() {
            Some(name) => r@ == encode_utf8(name).push(0),
            None => r@ == encode_utf8("/tomato64-nvram"@).push(0),
        },
{
    let mut v = match &p.shm {
        Some(n) => slice_to_vec(n.as_str().as_bytes()),
        None => slice_to_vec(SHM_NAME.as_bytes()),
    };
    v.push(0);
    v
}

/// Points the library at another directory and another segment.
pub fn set_paths(p: &mut Paths, root: &str, shm: &str)
    ensures
        final(p).root() == Some(with_separator(root@)),
        final(p).shm() == Some(shm@),
        final(p).root_spec() == if root@.len() > 0 && root@.last() == '/' {
            root@
        } else {
            root@.push('/')
        },
        final(p).shm_spec() == shm@,
{
    let n: usize = root.unicode_len();
    let ends = n > 0 && root.get_char(n - 1) == '/';
    let mut dir = root.to_owned();
    if !ends {
        proof {
            reveal_strlit("/");
        }
        dir.append("/");
        assert(dir@ =~= root@.push('/'));
    }
    *p = Paths { root: Some(dir), shm: Some(shm.to_owned()) };
}

} // verus!
