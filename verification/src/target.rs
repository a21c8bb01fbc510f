//! What a given path actually is, decided by inspecting it.

use vstd::prelude::*;

verus! {

/// What a given path actually is.
#[derive(Debug, PartialEq, Eq)]
pub enum Target {
    /// A standalone Unity serialized file (globalgamemanagers, level0,
    /// sharedassets, …).
    SerializedFile(String),
    /// A UnityFS asset bundle (possibly containing several serialized files).
    Bundle(String),
    /// A game directory.
    GameDir(String),
}

/// The ASCII magic `UnityFS`.
pub open spec fn magic() -> Seq<u8> {
    seq![85u8, 110u8, 105u8, 116u8, 121u8, 70u8, 83u8]
}

/// Whether bytes begin with the magic of a UnityFS bundle.
pub open spec fn has_magic(header: Seq<u8>) -> bool {
    header.len() >= magic().len() && header.take(magic().len() as int) == magic()
}

/// Whether `header` (the first bytes of a file) is a UnityFS bundle magic.
pub fn looks_like_bundle(header: &[u8]) -> (r: bool)
    ensures
        r == has_magic(header@),
{
    if header.len() < 7 {
        return false;
    }
    let r: bool = header[0] == 85 && header[1] == 110 && header[2] == 105 && header[3] == 116
        && header[4] == 121 && header[5] == 70 && header[6] == 83;
    proof {
        let first = header@.take(7);
        if r {
            assert(first =~= magic());
        } else {
            assert(first[0] == header@[0] && first[1] == header@[1] && first[2] == header@[2]
                && first[3] == header@[3] && first[4] == header@[4] && first[5] == header@[5]
                && first[6] == header@[6]);
        }
    }
    r
}

impl Target {
    /// Detects what `path` is: a directory, or a file by its first bytes. A file
    /// too short to hold the magic has no `header`.
    pub fn detect(path: String, is_dir: bool, header: Option<&[u8]>) -> (r: Target)
        ensures
            r == (if is_dir {
                Target::GameDir(path)
            } else if header matches Some(bytes) && has_magic(bytes@) {
                Target::Bundle(path)
            } else {
                Target::SerializedFile(path)
            }),
    {
        if is_dir {
            return Target::GameDir(path);
        }
        let bundle: bool = match header {
            Some(bytes) => looks_like_bundle(bytes),
            None => false,
        };
        if bundle {
            Target::Bundle(path)
        } else {
            Target::SerializedFile(path)
        }
    }
}

} // verus!
