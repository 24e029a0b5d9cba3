//! Source images: which files count as images, and how they are named.

use vstd::prelude::*;

use crate::paths::{equal, extension, file_name, path_extension, path_file_name, paths_equal};
use crate::text::{chars_eq_ignore_ascii_case, chars_of, eq_ignore_ascii_case};

verus! {

/// The side of the copies the preview is built from.
pub const PREVIEW_MAX: u32 = 1024;

/// The side of a thumbnail on a channel card.
pub const THUMB_MAX: u32 = 192;

/// The extensions shown in the open dialog and taken from folders.
pub open spec fn image_extensions() -> Seq<Seq<char>> {
    seq!["png"@, "tga"@, "tif"@, "tiff"@, "jpg"@, "jpeg"@, "bmp"@, "exr"@]
}

/// The extensions shown in the open dialog and taken from folders.
pub fn extensions() -> (r: Vec<&'static str>)
    ensures
        r@.map_values(|s: &str| s@) == image_extensions(),
{
    let r = vec!["png", "tga", "tif", "tiff", "jpg", "jpeg", "bmp", "exr"];
    assert(r@.map_values(|s: &str| s@) =~= image_extensions());
    r
}

/// An image extension, in any ASCII case.
pub open spec fn is_image_extension(ext: Seq<char>) -> bool {
    exists|i: int|
        0 <= i < image_extensions().len() && eq_ignore_ascii_case(
            #[trigger] image_extensions()[i],
            ext,
        )
}

/// Whether the extension is one of the image extensions, in any ASCII case.
pub fn image_extension(ext: &str) -> (r: bool)
    ensures
        r == is_image_extension(ext@),
{
    let exts = extensions();
    let e = chars_of(ext);
    let mut i: usize = 0;
    while i < exts.len()
        invariant
            i <= exts.len(),
            e@ == ext@,
            exts@.map_values(|s: &str| s@) == image_extensions(),
            forall|k: int| 0 <= k < i ==> !eq_ignore_ascii_case(#[trigger] image_extensions()[k], ext@),
        decreases exts.len() - i,
    {
        assert(image_extensions()[i as int] == exts@[i as int]@);
        if chars_eq_ignore_ascii_case(&chars_of(exts[i]), &e) {
            return true;
        }
        i += 1;
    }
    false
}

/// The path names an image by its extension.
pub open spec fn is_image_path(path: Seq<char>) -> bool {
    match path_extension(path) {
        Some(e) => is_image_extension(e),
        None => false,
    }
}

/// Whether the path names an image by its extension.
pub fn is_image(path: &str) -> (r: bool)
    ensures
        r == is_image_path(path@),
{
    match extension(path) {
        Some(e) => image_extension(e.as_str()),
        None => false,
    }
}

/// The name to show for a path: its file name, or the whole path.
pub fn display_name(path: &str) -> (r: String)
    ensures
        r@ == match path_file_name(path@) {
            Some(n) => n,
            None => path@,
        },
{
    match file_name(path) {
        Some(n) => n,
        None => path.to_owned(),
    }
}

/// Two paths name the same file: equal as paths, or equal as text without
/// regard to ASCII case (Windows file names are not case sensitive).
pub open spec fn same_file(a: Seq<char>, b: Seq<char>) -> bool {
    paths_equal(a, b) || eq_ignore_ascii_case(a, b)
}

/// Whether two paths name the same file.
pub fn same_path(a: &str, b: &str) -> (r: bool)
    ensures
        r == same_file(a@, b@),
{
    equal(a, b) || chars_eq_ignore_ascii_case(&chars_of(a), &chars_of(b))
}

} // verus!
