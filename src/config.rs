//! What one run of the pipeline is asked to do.

use vstd::prelude::*;

verus! {

/// The settings of a merge: where to write, what to read, how to chunk.
#[derive(Debug)]
pub struct Config {
    /// The output file.
    pub output: String,
    /// Files or directories to read.
    pub inputs: Vec<String>,
    /// The extension that selects input files.
    pub ext: String,
    /// Whether directories are walked recursively.
    pub recursive: bool,
    /// The most lines buffered in one chunk.
    pub chunk_lines: usize,
    /// Where scratch files go, when given.
    pub temp_dir: Option<String>,
    /// Whether progress is kept quiet.
    pub quiet: bool,
}

impl Config {
    /// The chunk size bound, with zero raised to one.
    pub fn validated_chunk_lines(&self) -> (r: usize)
        ensures
            r == if self.chunk_lines == 0 { 1 } else { self.chunk_lines },
            r > 0,
    {
        if self.chunk_lines == 0 {
            1
        } else {
            self.chunk_lines
        }
    }
}

} // verus!
