use vstd::prelude::*;

verus! {

/// Whether std's `Path::is_absolute` holds of a path.
pub uninterp spec fn path_is_absolute(path: Seq<char>) -> bool;

/// What std's `Path::parent` returns for a path.
pub uninterp spec fn parent_of(path: Seq<char>) -> Option<Seq<char>>;

/// What std's `Path::join` returns for a base and a path joined onto it.
pub uninterp spec fn joined(base: Seq<char>, path: Seq<char>) -> Seq<char>;

/// Relies on std's `Path::is_absolute`, which depends on the path's text alone.
#[verifier::external_body]
fn is_absolute(path: &str) -> (r: bool)
    ensures
        r == path_is_absolute(path@),
{
    std::path::Path::new(path).is_absolute()
}

/// Relies on std's `Path::parent`: the path without its final component,
/// or nothing where the path ends in a root or a prefix or is empty.
/// The parent of a UTF-8 path is a prefix of it, so it converts without loss.
#[verifier::external_body]
fn parent(path: &str) -> (r: Option<String>)
    ensures
        r is Some <==> parent_of(path@) is Some,
        r is Some ==> r->0@ == parent_of(path@)->0,
{
    match std::path::Path::new(path).parent() {
        Some(p) => Some(p.to_string_lossy().into_owned()),
        None => None,
    }
}

/// Relies on std's `Path::join`: `path` appended to `base`, or `path`
/// alone where it is absolute. Both are UTF-8, so the result converts without loss.
#[verifier::external_body]
fn join(base: &str, path: &str) -> (r: String)
    ensures
        r@ == joined(base@, path@),
{
    std::path::Path::new(base).join(path).to_string_lossy().into_owned()
}

/// Relies on std's `Path::canonicalize`: the absolute form of the path with
/// every link and `.`/`..` component resolved against the file system, or
/// nothing where the path does not exist. A canonical path that is not valid
/// UTF-8 gives nothing too. Beyond the result being absolute, the outcome
/// depends on the file system.
#[verifier::external_body]
fn canonicalize(path: &str) -> (r: Option<String>)
    ensures
        r is Some ==> path_is_absolute(r->0@),
{
    match std::path::Path::new(path).canonicalize() {
        Ok(p) => p.into_os_string().into_string().ok(),
        Err(_) => None,
    }
}

/// The path that a relative link target `asset` names for the note at
/// `note_file`: the target joined onto the note's directory, or nothing where
/// the note has no parent directory.
pub fn asset_candidate(note_file: &str, asset: &str) -> (r: Option<String>)
    ensures
        r is Some <==> parent_of(note_file@) is Some,
        r is Some ==> r->0@ == joined(parent_of(note_file@)->0, asset@),
{
    match parent(note_file) {
        Some(dir) => Some(join(dir.as_str(), asset)),
        None => None,
    }
}

/// Resolves the target of a file link found in the note at `note_file`.
///
/// An absolute target is returned as it is. A relative one is joined onto
/// the directory of the note and canonicalized; where the note has no parent
/// directory or the joined path does not exist, the asset is dropped and
/// nothing is returned. Whatever is returned is an absolute path, so
/// resolving it again, from any note, gives it back unchanged.
pub fn try_resolve_asset_path(note_file: &str, asset: &str) -> (r: Option<String>)
    ensures
        path_is_absolute(asset@) ==> r is Some && r->0@ == asset@,
        !path_is_absolute(asset@) && parent_of(note_file@) is None ==> r is None,
        r is Some ==> path_is_absolute(r->0@),
{
    if is_absolute(asset) {
        return Some(String::from_str(asset));
    }
    match asset_candidate(note_file, asset) {
        Some(candidate) => canonicalize(candidate.as_str()),
        None => None,
    }
}

} // verus!
