//! Where the archive of a folder goes: beside the folder, under the folder's
//! name with the extension of the run.

use vstd::prelude::*;

verus! {

/// Whether `std::path::is_separator` says of `c` that it parts the
/// components of a path, in the path syntax that the library is built for.
pub uninterp spec fn is_path_separator(c: char) -> bool;

/// What `std::path::Path::with_extension` makes of `path` and `extension`,
/// in the path syntax that the library is built for.
pub uninterp spec fn with_extension(path: Seq<char>, extension: Seq<char>) -> Seq<char>;

/// No character of `extension` is a path separator.
pub open spec fn is_plain_extension(extension: Seq<char>) -> bool {
    forall|i: int| 0 <= i < extension.len() ==> !is_path_separator(#[trigger] extension[i])
}

/// `std::path::is_separator`: whether the character is a path separator.
/// Nothing is claimed of the answer but that it is the same for the same
/// character.
#[verifier::external_body]
fn path_separator(c: char) -> (r: bool)
    ensures
        r == is_path_separator(c),
{
    std::path::is_separator(c)
}

/// `std::path::Path::with_extension`, from text to text. The call panics
/// on an extension that holds a path separator, so such an extension is
/// kept out. Nothing is claimed of the path that comes back but that it is
/// the same for the same path and extension.
#[verifier::external_body]
fn path_with_extension(path: &str, extension: &str) -> (target: String)
    requires
        is_plain_extension(extension@),
    ensures
        target@ == with_extension(path@, extension@),
{
    std::path::Path::new(path).with_extension(extension).to_string_lossy().into_owned()
}

/// Tells whether `extension` holds no path separator.
pub fn check_extension(extension: &str) -> (plain: bool)
    ensures
        plain == is_plain_extension(extension@),
{
    for c in it: extension.chars()
        invariant
            it.seq() == extension@,
            is_plain_extension(extension@.take(it.index() as int)),
    {
        if path_separator(c) {
            assert(extension@[it.index() as int] == c);
            return false;
        }
        assert(is_plain_extension(extension@.take(it.index() + 1))) by {
            let seen = extension@.take(it.index() as int);
            let next = extension@.take(it.index() + 1);
            assert forall|i: int| 0 <= i < next.len() implies !is_path_separator(
                #[trigger] next[i],
            ) by {
                if i < seen.len() {
                    assert(next[i] == seen[i]);
                }
            }
        }
    }
    assert(extension@.take(extension@.len() as int) =~= extension@);
    true
}

/// The path of the archive of `folder`: `None` where the extension holds a
/// path separator.
pub fn archive_target(folder: &str, extension: &str) -> (target: Option<String>)
    ensures
        target is Some <==> is_plain_extension(extension@),
        target matches Some(path) ==> path@ == with_extension(folder@, extension@),
{
    if check_extension(extension) {
        Some(path_with_extension(folder, extension))
    } else {
        None
    }
}

} // verus!
