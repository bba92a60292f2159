//! The command line's arguments, as plain values.

use vstd::prelude::*;
use crate::config::Config;

verus! {

/// The arguments of the command line.
pub struct Cli {
    pub output: String,
    pub inputs: Vec<String>,
    pub ext: String,
    pub recursive: bool,
    pub chunk_lines: usize,
    pub temp_dir: Option<String>,
    pub quiet: bool,
}

impl Cli {
    /// The configuration these arguments ask for, field for field.
    pub fn into_config(self) -> (c: Config)
        ensures
            c.output == self.output,
            c.inputs == self.inputs,
            c.ext == self.ext,
            c.recursive == self.recursive,
            c.chunk_lines == self.chunk_lines,
            c.temp_dir == self.temp_dir,
            c.quiet == self.quiet,
    {
        Config {
            output: self.output,
            inputs: self.inputs,
            ext: self.ext,
            recursive: self.recursive,
            chunk_lines: self.chunk_lines,
            temp_dir: self.temp_dir,
            quiet: self.quiet,
        }
    }
}

} // verus!
