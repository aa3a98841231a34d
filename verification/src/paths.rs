//! Paths of match files as the library names them: the default managed
//! file, the collection a file belongs to, and whether two paths name the
//! same file.

use vstd::prelude::*;
use crate::header::{DEFAULT_MANAGED_FILE, MANAGED_DIR};
use crate::text::{owned, replace_all, replace_spec};

verus! {

/// What `std::path::Path::join` gives for `base` and `name`, as text.
pub uninterp spec fn joined_path(base: Seq<char>, name: Seq<char>) -> Seq<char>;

/// What `std::path::Path::strip_prefix` gives for `path` and `base`, as text:
/// the rest of `path` after the components of `base`, or nothing when
/// `path` does not start with them.
pub uninterp spec fn stripped_prefix(path: Seq<char>, base: Seq<char>) -> Option<Seq<char>>;

/// Whether `std::path::Path` compares the two paths equal, component by
/// component.
pub uninterp spec fn paths_equal(a: Seq<char>, b: Seq<char>) -> bool;

/// `Path::new(base).join(name)`, as text.
#[verifier::external_body]
fn join_path(base: &str, name: &str) -> (res: String)
    ensures
        res@ == joined_path(base@, name@),
{
    std::path::Path::new(base).join(name).to_string_lossy().to_string()
}

/// `Path::new(path).strip_prefix(base)`, its result as text.
#[verifier::external_body]
fn strip_path_prefix(path: &str, base: &str) -> (res: Option<String>)
    ensures
        match res {
            Some(r) => stripped_prefix(path@, base@) == Some(r@),
            None => stripped_prefix(path@, base@) is None,
        },
{
    std::path::Path::new(path).strip_prefix(base).ok().map(|r| r.to_string_lossy().to_string())
}

/// `Path::new(a) == Path::new(b)`. Claimed of it besides the name: a path
/// is equal to itself (`Path` is `Eq`).
#[verifier::external_body]
pub(crate) fn same_path(a: &str, b: &str) -> (res: bool)
    ensures
        res == paths_equal(a@, b@),
        a@ == b@ ==> res,
{
    std::path::Path::new(a) == std::path::Path::new(b)
}

/// The path of the default managed file under the match directory.
pub open spec fn default_file_path_spec(match_dir: Seq<char>) -> Seq<char> {
    joined_path(joined_path(match_dir, MANAGED_DIR@), DEFAULT_MANAGED_FILE@)
}

/// The path of the default managed file, where new snippets are saved.
pub fn default_file_path(match_dir: &str) -> (res: String)
    ensures
        res@ == default_file_path_spec(match_dir@),
{
    let dir = join_path(match_dir, MANAGED_DIR);
    join_path(dir.as_str(), DEFAULT_MANAGED_FILE)
}

/// A file's path relative to the match directory: that of `path` itself,
/// or else that of its canonical form.
pub open spec fn relative_path(
    match_dir: Seq<char>,
    path: Seq<char>,
    canonical: Option<Seq<char>>,
) -> Option<Seq<char>> {
    match stripped_prefix(path, match_dir) {
        Some(r) => Some(r),
        None => match canonical {
            Some(c) => stripped_prefix(c, match_dir),
            None => None,
        },
    }
}

/// The collection label of a file with the relative path `relative`:
/// that path with `/` as separator, or `full` when there is none.
pub open spec fn collection_label_spec(relative: Option<Seq<char>>, full: Seq<char>) -> Seq<char> {
    match relative {
        Some(r) => replace_spec(r, "\\"@, "/"@),
        None => full,
    }
}

/// The collection name of the file at `path` whose canonical form is
/// `canonical`.
pub open spec fn collection_name_spec(
    match_dir: Seq<char>,
    path: Seq<char>,
    canonical: Option<Seq<char>>,
) -> Seq<char> {
    collection_label_spec(relative_path(match_dir, path, canonical), path)
}

/// The collection name of a file: its path relative to the match directory
/// with `/` as separator, or its full path `full` when it lies outside.
pub fn collection_label(relative: Option<&str>, full: &str) -> (res: String)
    ensures
        res@ == collection_label_spec(
            match relative {
                Some(r) => Some(r@),
                None => None,
            },
            full@,
        ),
{
    match relative {
        Some(r) => {
            proof {
                reveal_strlit("\\");
                reveal_strlit("/");
            }
            replace_all(r, "\\", "/")
        },
        None => owned(full),
    }
}

/// The collection name of the file at `path`, given its canonical form when
/// it has one: relative to `match_dir` when the path, or failing that its
/// canonical form, lies under it; the full path otherwise.
pub fn collection_name(match_dir: &str, path: &str, canonical: Option<&str>) -> (res: String)
    ensures
        res@ == collection_name_spec(
            match_dir@,
            path@,
            match canonical {
                Some(c) => Some(c@),
                None => None,
            },
        ),
{
    let relative = match strip_path_prefix(path, match_dir) {
        Some(r) => Some(r),
        None => match canonical {
            Some(c) => strip_path_prefix(c, match_dir),
            None => None,
        },
    };
    match relative {
        Some(r) => collection_label(Some(r.as_str()), path),
        None => collection_label(None, path),
    }
}

} // verus!
