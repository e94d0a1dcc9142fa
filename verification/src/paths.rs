//! Resolving the paths given on the command line against the working directory.
use path_absolutize::Absolutize;
use vstd::prelude::*;

verus! {

/// An owned file-system path.
#[verifier::external_type_specification]
#[verifier::external_body]
pub struct ExPathBuf(std::path::PathBuf);

/// The path that `path_absolutize::Absolutize::absolutize_from` makes of `path` against `base`.
pub uninterp spec fn absolutized(path: std::path::PathBuf, base: std::path::PathBuf) -> std::path::PathBuf;

/// The path starts at the root, as `std::path::Path::is_absolute` tells on Unix.
pub uninterp spec fn is_absolute_path(path: std::path::PathBuf) -> bool;

/// No component of the path is `.` or `..`, as `std::path::Path::components` splits it.
pub uninterp spec fn is_lexically_normal(path: std::path::PathBuf) -> bool;

/// Tells whether a path is absolute, with `std::path::Path::is_absolute`.
///
/// Trusted: the result is `is_absolute_path` of the path.
#[verifier::external_body]
pub fn path_is_absolute(path: &std::path::PathBuf) -> (absolute: bool)
    ensures
        absolute == is_absolute_path(*path),
{
    path.is_absolute()
}

/// Makes `path` absolute against `base` with `path_absolutize::Absolutize::absolutize_from`,
/// resolving `.` and `..` without touching the file system.
///
/// Trusted: on Unix, against an absolute base, `absolutize_from` starts from the root (the
/// path's own, or the base's components when the path is relative), drops `.` components, lets
/// each `..` remove the component before it but never the root, and returns `Ok`. So the
/// result, `absolutized` of the two paths, is absolute, and it has no `.` or `..` when the base
/// has none. A relative base can leave no component at all, where `absolutize_from` panics; it
/// is left out.
#[verifier::external_body]
fn absolutize_from(path: &std::path::PathBuf, base: &std::path::PathBuf) -> (res: Result<
    std::path::PathBuf,
    std::io::Error,
>)
    requires
        is_absolute_path(*base),
    ensures
        res is Ok,
        res matches Ok(resolved) ==> resolved == absolutized(*path, *base),
        res matches Ok(resolved) ==> is_absolute_path(resolved),
        res matches Ok(resolved) ==> (is_lexically_normal(*base) ==> is_lexically_normal(
            resolved,
        )),
{
    Ok(path.absolutize_from(base)?.to_path_buf())
}

/// Resolves an optional path against an absolute `base`: no path stays no path, a path becomes
/// the absolute path that `absolutize_from` makes of it against `base`, without `.` or `..`
/// when `base` has none.
pub fn resolve_path(base: &std::path::PathBuf, path: Option<std::path::PathBuf>) -> (res: Result<
    Option<std::path::PathBuf>,
    std::io::Error,
>)
    requires
        is_absolute_path(*base),
    ensures
        match path {
            None => res matches Ok(None),
            Some(p) => res matches Ok(Some(resolved)) && resolved == absolutized(p, *base)
                && is_absolute_path(resolved) && (is_lexically_normal(*base) ==> is_lexically_normal(
                resolved,
            )),
        },
{
    match path {
        Some(p) => match absolutize_from(&p, base) {
            Ok(resolved) => Ok(Some(resolved)),
            Err(e) => Err(e),
        },
        None => Ok(None),
    }
}

} // verus!
