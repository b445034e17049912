//! Run configuration: command-line arguments and the configuration file's
//! contents, as plain data. Reading the file and parsing the command line
//! stay with the unverified driver, which converts into these types.

use vstd::prelude::*;

verus! {

/// The command-line arguments of one run.
pub struct Args {
    /// Input directory of searching root
    pub input_path: String,
    /// Output directory of checking results
    pub output_path: String,
    /// Number of threads used to calculate
    pub threads: Option<usize>,
}

/// The ignore rules of the configuration: exact absolute paths and regular
/// expression patterns.
pub struct Ignore {
    pub abs_path: Vec<String>,
    pub regex: Vec<String>,
}

/// The configuration: hash size, cache store location, and ignore rules.
pub struct Config {
    pub size: u32,
    pub cache: String,
    pub ignore: Ignore,
}

} // verus!
