//! The caption record: one image path together with its free-text
//! caption, and the label under which the pair is displayed.

use vstd::prelude::*;
use crate::paths::filename_of;
use crate::paths::filename_str;

verus! {

/// One image's caption.
#[derive(Debug)]
pub struct CaptionRecord {
    /// Path to the image being captioned.
    pub image_path: String,
    /// Caption for the image; may be empty.
    pub caption: String,
}

/// The label of a record: its file name, a separator, and the caption.
pub open spec fn label_of(path: Seq<char>, caption: Seq<char>) -> Seq<char> {
    filename_of(path) + seq![':', ' '] + caption
}

impl CaptionRecord {
    /// Create a new record for the given image path and caption.
    pub fn new(image_path: &String, caption: String) -> (r: CaptionRecord)
        ensures
            r.image_path@ == image_path@,
            r.caption@ == caption@,
    {
        CaptionRecord { image_path: image_path.clone(), caption }
    }

    /// Create a record with an empty caption.
    pub fn empty_caption(image_path: &String) -> (r: CaptionRecord)
        ensures
            r.image_path@ == image_path@,
            r.caption@ == Seq::<char>::empty(),
    {
        CaptionRecord::new(image_path, String::new())
    }

    /// The name of the image file this record captions.
    pub fn get_filename(&self) -> (r: String)
        ensures
            r@ == filename_of(self.image_path@),
    {
        filename_str(self.image_path.as_str())
    }

    /// The label representing this record on screen.
    pub fn get_label(&self) -> (r: String)
        ensures
            r@ == label_of(self.image_path@, self.caption@),
    {
        let mut r = self.get_filename();
        r.push(':');
        r.push(' ');
        r.append(self.caption.as_str());
        proof {
            assert(r@ =~= label_of(self.image_path@, self.caption@));
        }
        r
    }

    /// An exact copy of this record.
    pub fn duplicate(&self) -> (r: CaptionRecord)
        ensures
            r.image_path@ == self.image_path@,
            r.caption@ == self.caption@,
    {
        CaptionRecord { image_path: self.image_path.clone(), caption: self.caption.clone() }
    }
}

/// A command for previewing an image, run outside the library.
#[derive(Debug)]
pub struct ViewCommand {
    /// The name of or path to the executable.
    pub command: String,
    /// The arguments to supply when running the command.
    pub args: Option<Vec<String>>,
}

impl ViewCommand {
    /// Create a new view command.
    pub fn new(command: &String, args: &Option<Vec<String>>) -> (r: ViewCommand)
        ensures
            r.command@ == command@,
            match args {
                Some(a) => r.args matches Some(b) && b.deep_view() == a.deep_view(),
                None => r.args is None,
            },
    {
        let copied_args: Option<Vec<String>> = match args {
            Some(a) => {
                let mut out: Vec<String> = Vec::new();
                let mut i: usize = 0;
                while i < a.len()
                    invariant
                        0 <= i <= a.len(),
                        out.len() == i,
                        forall|k: int| 0 <= k < i ==> out@[k]@ == a@[k]@,
                    decreases a.len() - i,
                {
                    out.push(a[i].clone());
                    i = i + 1;
                }
                proof {
                    assert(out.deep_view() =~= a.deep_view());
                }
                Some(out)
            }
            None => None,
        };
        ViewCommand { command: command.clone(), args: copied_args }
    }
}

/// One empty-caption record for each given image path, in order.
pub fn generate_empty_captions(image_paths: &Vec<String>) -> (r: Vec<CaptionRecord>)
    ensures
        r@.len() == image_paths@.len(),
        forall|i: int|
            0 <= i < r@.len() ==> (#[trigger] r@[i]).image_path@ == image_paths@[i]@
                && r@[i].caption@ == Seq::<char>::empty(),
{
    let mut records: Vec<CaptionRecord> = Vec::new();
    let mut i: usize = 0;
    while i < image_paths.len()
        invariant
            0 <= i <= image_paths@.len(),
            records@.len() == i,
            forall|k: int|
                0 <= k < i ==> (#[trigger] records@[k]).image_path@ == image_paths@[k]@
                    && records@[k].caption@ == Seq::<char>::empty(),
        decreases image_paths@.len() - i,
    {
        records.push(CaptionRecord::empty_caption(&image_paths[i]));
        i = i + 1;
    }
    records
}

} // verus!
