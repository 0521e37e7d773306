use vstd::prelude::*;
use crate::filetype::FileType;

verus! {

/// The options of one run: the path to extract, the source file (standard
/// input where absent) and the format to read it in.
pub struct Args {
    pub key: String,
    pub file: Option<String>,
    pub ext: FileType,
}

impl Args {
    /// No path, standard input, JSON.
    pub fn new() -> (r: Args)
        ensures
            r.key@ == Seq::<char>::empty(),
            r.file is None,
            r.ext == FileType::Json,
    {
        Args { key: String::new(), file: None, ext: FileType::Json }
    }
}

} // verus!
