//! Decoded images and the in-memory record of one open image.
//!
//! An open image owns a GPU texture handle; the handle is handed back to
//! the caller on every removal path so the rendering layer can release it.

use vstd::prelude::*;

use crate::catalog::strictly_sorted;

verus! {

/// A decoded bitmap as the loading pipeline hands it to the interface
/// thread, before any texture is created for it.
pub struct ImageData {
    pub width: usize,
    pub height: usize,
    pub pixels: Vec<u8>,
}

/// One image currently open in the browser grid.
pub struct OpenImage {
    /// File name without its directory, as stored in the database.
    pub name: String,
    /// The path the image was originally opened from.
    pub original_path: String,
    /// The image's tag names, strictly sorted, mirroring the database.
    pub tags: Vec<String>,
    /// Handle of the GPU texture that displays this image.
    pub texture: u32,
    /// Width in pixels.
    pub width: usize,
    /// Height in pixels.
    pub height: usize,
}

/// A path separator as it appears in user-supplied paths.
pub open spec fn is_separator(c: char) -> bool {
    c == '/' || c == '\\'
}

/// The file name of a path: the suffix after the last separator, or the
/// whole path when it has none.
pub open spec fn file_name_of(path: Seq<char>) -> Seq<char>
    decreases path.len(),
{
    if path.len() == 0 {
        path
    } else if is_separator(path.last()) {
        Seq::empty()
    } else {
        file_name_of(path.drop_last()).push(path.last())
    }
}

/// When no separator stands at or after position `i` and the character
/// before `i` (if any) is one, the file name is the suffix from `i` on.
pub proof fn lemma_file_name_suffix(path: Seq<char>, i: int)
    requires
        0 <= i <= path.len(),
        forall|j: int| i <= j < path.len() ==> !is_separator(#[trigger] path[j]),
        i == 0 || is_separator(path[i - 1]),
    ensures
        file_name_of(path) == path.skip(i),
    decreases path.len(),
{
    if i == path.len() {
        if path.len() == 0 {
            assert(file_name_of(path) =~= path.skip(i));
        } else {
            assert(is_separator(path.last()));
            assert(file_name_of(path) =~= path.skip(i));
        }
    } else {
        assert(!is_separator(path.last()));
        let head = path.drop_last();
        assert(forall|j: int| i <= j < head.len() ==> !is_separator(#[trigger] head[j])) by {
            assert(forall|j: int| 0 <= j < head.len() ==> head[j] == path[j]);
        }
        lemma_file_name_suffix(head, i);
        assert(file_name_of(path) =~= path.skip(i));
    }
}

/// Extracts the file name: everything after the last `/` or `\`, or the
/// whole path when it has neither.
pub fn file_name(path: &str) -> (r: String)
    ensures
        r@ == file_name_of(path@),
{
    let n = path.unicode_len();
    let mut i: usize = n;
    loop
        invariant
            i <= n,
            n == path@.len(),
            forall|j: int| i <= j < n ==> !is_separator(#[trigger] path@[j]),
        ensures
            i <= n,
            forall|j: int| i <= j < n ==> !is_separator(#[trigger] path@[j]),
            i == 0 || is_separator(path@[i - 1]),
        decreases i,
    {
        if i == 0 {
            break ;
        }
        let c = path.get_char(i - 1);
        if c == '/' || c == '\\' {
            break ;
        }
        i = i - 1;
    }
    proof {
        lemma_file_name_suffix(path@, i as int);
    }
    let tail = path.substring_char(i, n);
    tail.to_owned()
}

impl OpenImage {
    /// An open image is well formed when its tag list is strictly sorted.
    pub open spec fn wf(self) -> bool {
        strictly_sorted(self.tags.deep_view())
    }

    /// Builds the record for a freshly decoded image: the display name is
    /// the file name of the path, and no tags are attached yet.
    pub fn from_imagedata(image_data: &ImageData, path: String, texture: u32) -> (im: OpenImage)
        ensures
            im.name@ == file_name_of(path@),
            im.original_path@ == path@,
            im.tags.deep_view() == Seq::<Seq<char>>::empty(),
            im.texture == texture,
            im.width == image_data.width,
            im.height == image_data.height,
            im.wf(),
    {
        let name = file_name(path.as_str());
        let im = OpenImage {
            name,
            original_path: path,
            tags: Vec::new(),
            texture,
            width: image_data.width,
            height: image_data.height,
        };
        assert(im.tags.deep_view() =~= Seq::<Seq<char>>::empty());
        im
    }
}

} // verus!
