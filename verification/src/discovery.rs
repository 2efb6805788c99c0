//! Image discovery: given a directory listing as plain values, keep the
//! entries that are image files. The listing itself is produced at the
//! edge of the program; the selection rule lives here.

use vstd::prelude::*;
use crate::paths::extension_of;
use crate::paths::filename_of;
use crate::paths::extension_str;
use crate::paths::filename_str;

verus! {

/// One entry of a directory listing: its path and whether it is a
/// directory.
#[derive(Debug)]
pub struct GalleryEntry {
    /// Path of the entry (the directory path joined with the entry name).
    pub path: String,
    /// Whether the entry is itself a directory.
    pub is_dir: bool,
}

/// The code point of a character with ASCII upper-case letters folded to
/// lower case.
pub open spec fn lower_code(c: char) -> int {
    if 65 <= c as int && c as int <= 90 {
        c as int + 32
    } else {
        c as int
    }
}

/// Case-insensitive (ASCII) equality of two character sequences.
pub open spec fn ci_eq(a: Seq<char>, b: Seq<char>) -> bool {
    a.len() == b.len() && forall|i: int| 0 <= i < a.len() ==> lower_code(a[i]) == lower_code(b[i])
}

/// Whether an extension names a supported image format.
pub open spec fn is_supported_extension(e: Seq<char>) -> bool {
    ci_eq(e, "jpg"@) || ci_eq(e, "jpeg"@) || ci_eq(e, "png"@)
}

/// Whether a listing entry is kept by discovery: not a directory, and
/// its file name carries a supported image extension.
pub open spec fn keeps_entry(e: GalleryEntry) -> bool {
    &&& !e.is_dir
    &&& match extension_of(filename_of(e.path@)) {
        Some(x) => is_supported_extension(x),
        None => false,
    }
}

/// The paths discovery yields from a listing, in listing order.
pub open spec fn image_paths_of(entries: Seq<GalleryEntry>) -> Seq<Seq<char>> {
    entries.filter(|e: GalleryEntry| keeps_entry(e)).map_values(|e: GalleryEntry| e.path@)
}

/// The character with ASCII upper-case letters folded to lower case, as
/// a code point.
fn lower_u32(c: char) -> (r: u32)
    ensures
        r as int == lower_code(c),
{
    let x = c as u32;
    if 65 <= x && x <= 90 {
        x + 32
    } else {
        x
    }
}

/// Decides case-insensitive equality of two string slices.
pub fn ci_eq_str(a: &str, b: &str) -> (r: bool)
    ensures
        r == ci_eq(a@, b@),
{
    let an = a.unicode_len();
    let bn = b.unicode_len();
    if an != bn {
        return false;
    }
    let mut i: usize = 0;
    while i < an
        invariant
            0 <= i <= an,
            an == a@.len(),
            an == b@.len(),
            forall|k: int| 0 <= k < i ==> lower_code(a@[k]) == lower_code(b@[k]),
        decreases an - i,
    {
        if lower_u32(a.get_char(i)) != lower_u32(b.get_char(i)) {
            return false;
        }
        i = i + 1;
    }
    true
}

/// Decides whether an extension names a supported image format.
pub fn extension_supported(e: &str) -> (r: bool)
    ensures
        r == is_supported_extension(e@),
{
    ci_eq_str(e, "jpg") || ci_eq_str(e, "jpeg") || ci_eq_str(e, "png")
}

/// Decides whether a listing entry is kept by discovery.
fn keep_entry(e: &GalleryEntry) -> (r: bool)
    ensures
        r == keeps_entry(*e),
{
    if e.is_dir {
        return false;
    }
    let name = filename_str(e.path.as_str());
    match extension_str(name.as_str()) {
        Some(x) => extension_supported(x.as_str()),
        None => false,
    }
}

/// The paths of the image files among a directory listing, in listing
/// order: entries that are directories or whose extension is not a
/// supported image format are skipped.
pub fn filter_image_entries(entries: &Vec<GalleryEntry>) -> (r: Vec<String>)
    ensures
        r.deep_view() == image_paths_of(entries@),
{
    let mut out: Vec<String> = Vec::new();
    let mut i: usize = 0;
    while i < entries.len()
        invariant
            0 <= i <= entries@.len(),
            out.deep_view() == image_paths_of(entries@.take(i as int)),
        decreases entries@.len() - i,
    {
        let ghost pre = entries@.take(i as int);
        let keep = keep_entry(&entries[i]);
        proof {
            assert(entries@.take(i + 1) =~= pre.push(entries@[i as int]));
            crate::chars::lemma_filter_push(pre, |e: GalleryEntry| keeps_entry(e), entries@[i as int]);
        }
        if keep {
            let ghost old_out = out.deep_view();
            out.push(entries[i].path.clone());
            proof {
                assert(out.deep_view() =~= old_out.push(entries@[i as int].path@));
                assert(image_paths_of(entries@.take(i + 1)) =~= image_paths_of(pre).push(
                    entries@[i as int].path@,
                ));
            }
        } else {
            proof {
                assert(image_paths_of(entries@.take(i + 1)) =~= image_paths_of(pre));
            }
        }
        i = i + 1;
    }
    proof {
        assert(entries@.take(entries@.len() as int) =~= entries@);
    }
    out
}

} // verus!
