//! The directory that holds a room's assets: which paths a user may name.

use vstd::prelude::*;
use crate::error::DraduError;
use crate::message::push_str;
use crate::text::from_chars;
use crate::utils::{chars_traverse, has_parent_segment};

verus! {

/// Whether `path` starts at the root of the file system.
pub open spec fn is_absolute(path: Seq<char>) -> bool {
    path.len() > 0 && path[0] == '/'
}

/// `path` below `root`: the two joined by one separator, unless `root` is
/// empty or ends with one.
pub open spec fn joined(root: Seq<char>, path: Seq<char>) -> Seq<char> {
    if root.len() == 0 || root.last() == '/' {
        root + path
    } else {
        root + seq!['/'] + path
    }
}

/// What resolving `path` against the asset directory `root` gives.
pub open spec fn resolve(root: Option<Seq<char>>, path: Seq<char>) -> Result<
    Seq<char>,
    DraduError,
> {
    match root {
        None => Err(DraduError::ProjectDirNotFound),
        Some(root) => if is_absolute(path) || has_parent_segment(joined(root, path)) {
            Err(DraduError::InvalidPath)
        } else {
            Ok(joined(root, path))
        },
    }
}

/// Names the files of the asset directory on behalf of users.
pub struct AssetDirHandler {
    asset_dir: Option<String>,
}

impl AssetDirHandler {
    /// The directory that paths are resolved against, if there is one.
    pub closed spec fn root(&self) -> Option<Seq<char>> {
        match self.asset_dir {
            Some(dir) => Some(dir@),
            None => None,
        }
    }

    /// A handler for the directory `asset_dir`; `None` where the machine
    /// offers no place for one.
    pub fn new(asset_dir: Option<String>) -> (h: Self)
        ensures
            h.root() == match asset_dir {
                Some(dir) => Some(dir@),
                None => None,
            },
    {
        AssetDirHandler { asset_dir }
    }

    /// The directory that paths are resolved against.
    pub fn asset_dir(&self) -> (r: Option<&String>)
        ensures
            match r {
                Some(dir) => self.root() == Some(dir@),
                None => self.root() is None,
            },
    {
        self.asset_dir.as_ref()
    }

    /// Resolves a path that a user gave against the asset directory. A path
    /// that is absolute, or that holds a segment `..` once joined, is refused:
    /// what comes back lies below the directory.
    pub fn validate_path(&self, path: &str) -> (r: Result<String, DraduError>)
        ensures
            match resolve(self.root(), path@) {
                Ok(full) => r is Ok && r->Ok_0@ == full,
                Err(e) => r is Err && r->Err_0 == e,
            },
    {
        match &self.asset_dir {
            None => Err(DraduError::ProjectDirNotFound),
            Some(dir) => {
                let mut v: Vec<char> = Vec::new();
                push_str(&mut v, dir.as_str());
                assert(v@ =~= dir@);
                let n = v.len();
                if n > 0 && v[n - 1] != '/' {
                    v.push('/');
                }
                let root_len: usize = v.len();
                push_str(&mut v, path);
                assert(v@ =~= joined(dir@, path@));
                let absolute = v.len() > root_len && v[root_len] == '/';
                proof {
                    if path@.len() > 0 {
                        assert(v@[root_len as int] == path@[0]);
                    }
                }
                if absolute || chars_traverse(&v) {
                    Err(DraduError::InvalidPath)
                } else {
                    assert(v@.subrange(0, v@.len() as int) == v@);
                    Ok(from_chars(&v, 0, v.len()))
                }
            },
        }
    }
}

/// A path that resolves lies below the asset directory: it begins with the
/// directory, was not absolute, and holds no segment `..`.
pub proof fn lemma_resolved_below_root(root: Seq<char>, path: Seq<char>)
    requires
        resolve(Some(root), path) is Ok,
    ensures
        resolve(Some(root), path)->Ok_0.subrange(0, root.len() as int) == root,
        !has_parent_segment(resolve(Some(root), path)->Ok_0),
        !is_absolute(path),
{
    let full = joined(root, path);
    assert(full.subrange(0, root.len() as int) =~= root);
}

} // verus!
