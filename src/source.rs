use vstd::prelude::*;

verus! {

/// The input file held in memory: its name split at the last `.`, and its
/// bytes. It is read once and never changed.
pub struct Source {
    /// The file name without its extension.
    pub base_name: String,
    /// The file name after its last `.`.
    pub extension: String,
    /// The whole content of the file.
    pub data: Vec<u8>,
}

impl Source {
    pub fn new(base_name: String, extension: String, data: Vec<u8>) -> (r: Source)
        ensures
            r.base_name@ == base_name@,
            r.extension@ == extension@,
            r.data@ == data@,
    {
        Source { base_name, extension, data }
    }

    /// The number of bytes of the file.
    pub fn len(&self) -> (r: usize)
        ensures
            r == self.data@.len(),
    {
        self.data.len()
    }
}

} // verus!
