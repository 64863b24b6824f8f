use vstd::prelude::*;

verus! {

/// The file name that a scene's reference to `filename` stands for: the
/// name itself.
pub fn resolve_filename(filename: &str) -> (r: String)
    ensures
        r@ == filename@,
{
    filename.to_owned()
}

/// What `std::path::Path::extension` gives for the path `path`: the part of
/// its file name after the last `.` (see std's documentation for the cases
/// without one).
pub uninterp spec fn path_extension(path: Seq<char>) -> Option<Seq<char>>;

/// `std::path::Path::extension` of `filename`, taken as a `String`. The
/// contract claims only that the result is the extension that std computes,
/// `path_extension(filename@)`; the extension of a `&str` path is a slice of
/// it that ends at an ASCII `.`, so the conversion keeps every character.
#[verifier::external_body]
fn extension_of(filename: &str) -> (r: Option<String>)
    ensures
        match r {
            Some(e) => path_extension(filename@) == Some(e@),
            None => path_extension(filename@) is None,
        },
{
    std::path::Path::new(filename).extension().map(|e| e.to_string_lossy().into_owned())
}

/// Whether the extension `ext` that a path has (if any) is `extension`.
pub fn extension_matches(ext: Option<String>, extension: &str) -> (r: bool)
    ensures
        r == (ext matches Some(e) && e@ == extension@),
{
    match ext {
        Some(e) => e == extension.to_owned(),
        None => false,
    }
}

/// Whether `filename` has the extension `extension` (compared exactly, case
/// included).
pub fn has_extension(filename: &str, extension: &str) -> (r: bool)
    ensures
        r == (path_extension(filename@) == Some(extension@)),
{
    let ext = extension_of(filename);
    extension_matches(ext, extension)
}

} // verus!
