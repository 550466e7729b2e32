//! The format registry: which encoding a file extension selects.
//!
//! Each format owns one canonical dot-extension; dispatch is an exact,
//! case-sensitive suffix match, and a path with no registered extension
//! selects nothing.

use vstd::prelude::*;

verus! {

/// The closed set of encodings the persistence facade understands.
#[derive(Debug, PartialEq, Eq, Clone, Copy)]
pub enum Format {
    /// Self-describing: every field is introduced by its tag byte.
    Tagged,
    /// Binary-stable: fixed field order, no tags, most compact.
    Binary,
    /// Length-framed archive: the frame is validated before the body is
    /// interpreted.
    Archive,
    /// The archive wrapped in gzip compression.
    ArchiveGz,
}

/// The canonical dot-extension of each format.
pub open spec fn spec_dot_ext(f: Format) -> Seq<char> {
    match f {
        Format::Tagged => ".tag"@,
        Format::Binary => ".bin"@,
        Format::Archive => ".arc"@,
        Format::ArchiveGz => ".arc.gz"@,
    }
}

pub open spec fn spec_ends_with(path: Seq<char>, suffix: Seq<char>) -> bool {
    &&& path.len() >= suffix.len()
    &&& path.subrange(path.len() - suffix.len(), path.len() as int) == suffix
}

/// Which format a path selects: the registered extension its name ends
/// with, or none.
pub open spec fn spec_format_of_path(path: Seq<char>) -> Option<Format> {
    if spec_ends_with(path, ".tag"@) {
        Some(Format::Tagged)
    } else if spec_ends_with(path, ".bin"@) {
        Some(Format::Binary)
    } else if spec_ends_with(path, ".arc.gz"@) {
        Some(Format::ArchiveGz)
    } else if spec_ends_with(path, ".arc"@) {
        Some(Format::Archive)
    } else {
        None
    }
}

fn ends_with_suffix(path: &str, suffix: &str) -> (r: bool)
    ensures
        r == spec_ends_with(path@, suffix@),
{
    let n = path.unicode_len();
    let m = suffix.unicode_len();
    if n < m {
        return false;
    }
    let mut i: usize = 0;
    while i < m
        invariant
            i <= m,
            m <= n,
            n == path@.len(),
            m == suffix@.len(),
            forall|j: int| 0 <= j < i ==> path@[n - m + j] == suffix@[j],
        decreases m - i,
    {
        if path.get_char(n - m + i) != suffix.get_char(i) {
            proof {
                assert(spec_ends_with(path@, suffix@) ==> path@.subrange(
                    path@.len() - suffix@.len(),
                    path@.len() as int,
                )[i as int] == suffix@[i as int]);
            }
            return false;
        }
        i += 1;
    }
    proof {
        assert(path@.subrange(path@.len() - suffix@.len(), path@.len() as int) =~= suffix@);
    }
    true
}

/// The format a path selects through the registry, if any.
pub fn format_of_path(path: &str) -> (r: Option<Format>)
    ensures
        r == spec_format_of_path(path@),
{
    if ends_with_suffix(path, ".tag") {
        Some(Format::Tagged)
    } else if ends_with_suffix(path, ".bin") {
        Some(Format::Binary)
    } else if ends_with_suffix(path, ".arc.gz") {
        Some(Format::ArchiveGz)
    } else if ends_with_suffix(path, ".arc") {
        Some(Format::Archive)
    } else {
        None
    }
}

/// The canonical extension of each registered format.
pub fn dot_ext(f: Format) -> (r: &'static str)
    ensures
        r@ == spec_dot_ext(f),
{
    match f {
        Format::Tagged => ".tag",
        Format::Binary => ".bin",
        Format::Archive => ".arc",
        Format::ArchiveGz => ".arc.gz",
    }
}

/// Extension dispatch is total over the registered formats: a path that
/// ends in a format's canonical extension selects exactly that format,
/// whatever comes before it.
pub proof fn lemma_extension_dispatch(f: Format, stem: Seq<char>)
    ensures
        spec_format_of_path(stem + spec_dot_ext(f)) == Some(f),
{
    reveal_strlit(".tag");
    reveal_strlit(".bin");
    reveal_strlit(".arc");
    reveal_strlit(".arc.gz");
    let path = stem + spec_dot_ext(f);
    assert(path.subrange(path.len() - spec_dot_ext(f).len(), path.len() as int) =~= spec_dot_ext(
        f,
    ));
    match f {
        Format::Tagged => {
            assert(spec_ends_with(path, ".tag"@));
        },
        Format::Binary => {
            assert(!spec_ends_with(path, ".tag"@)) by {
                if spec_ends_with(path, ".tag"@) {
                    assert(path[path.len() - 3] == 'b');
                    assert(path.subrange(path.len() - 4, path.len() as int)[1] == 't');
                }
            }
            assert(spec_ends_with(path, ".bin"@));
        },
        Format::Archive => {
            assert(!spec_ends_with(path, ".tag"@)) by {
                if spec_ends_with(path, ".tag"@) {
                    assert(path[path.len() - 3] == 'a');
                    assert(path.subrange(path.len() - 4, path.len() as int)[1] == 't');
                }
            }
            assert(!spec_ends_with(path, ".bin"@)) by {
                if spec_ends_with(path, ".bin"@) {
                    assert(path[path.len() - 3] == 'a');
                    assert(path.subrange(path.len() - 4, path.len() as int)[1] == 'b');
                }
            }
            assert(!spec_ends_with(path, ".arc.gz"@)) by {
                if spec_ends_with(path, ".arc.gz"@) {
                    assert(path[path.len() - 1] == 'c');
                    assert(path.subrange(path.len() - 7, path.len() as int)[6] == 'z');
                }
            }
            assert(spec_ends_with(path, ".arc"@));
        },
        Format::ArchiveGz => {
            assert(!spec_ends_with(path, ".tag"@)) by {
                if spec_ends_with(path, ".tag"@) {
                    assert(path[path.len() - 4] == 'c');
                    assert(path.subrange(path.len() - 4, path.len() as int)[0] == '.');
                }
            }
            assert(!spec_ends_with(path, ".bin"@)) by {
                if spec_ends_with(path, ".bin"@) {
                    assert(path[path.len() - 4] == 'c');
                    assert(path.subrange(path.len() - 4, path.len() as int)[0] == '.');
                }
            }
            assert(spec_ends_with(path, ".arc.gz"@));
        },
    }
}

} // verus!
