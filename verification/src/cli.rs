//! The options of the command line and what they select.

use vstd::prelude::*;
use crate::text::{ends_with, has_suffix, same_text};

verus! {

/// The options as given on the command line.
#[derive(Debug)]
pub struct Bzip2Cli {
    /// Force decompression.
    pub decompress: bool,
    /// Set by `-z`. No decision reads it: the mode is chosen by the other
    /// options, the program's name and the names of the inputs.
    pub compress: bool,
    /// Keep the input files.
    pub keep: bool,
    /// Overwrite existing output files.
    pub force: bool,
    /// Test the integrity of compressed files.
    pub test: bool,
    /// Write to standard output.
    pub stdout: bool,
    /// Suppress noncritical messages.
    pub quiet: bool,
    /// How often `-v` was given.
    pub verbose: u8,
    /// Show version and license.
    pub license: bool,
    /// Show version and license.
    pub version: bool,
    /// Use less memory.
    pub small: bool,
    /// The block size in units of 100,000 bytes.
    pub block_size: Option<u8>,
    /// Same as block size 1.
    pub fast: bool,
    /// Same as block size 9.
    pub best: bool,
    /// The input files, in the order given.
    pub input_files: Vec<String>,
}

/// What a run does with its inputs.
#[derive(Clone, Copy, Debug, PartialEq, Eq, Structural)]
pub enum Mode {
    Compress,
    Decompress,
    Test,
}

/// How much a run reports.
#[derive(Clone, Copy, Debug, PartialEq, Eq, Structural)]
pub enum LogLevel {
    Error,
    Warn,
    Info,
    Trace,
}

/// A name that marks a file as compressed.
pub open spec fn is_archive_name(name: Seq<char>) -> bool {
    ends_with(name, ".bz2"@) || ends_with(name, ".tbz2"@) || ends_with(name, ".tbz"@) || ends_with(
        name,
        ".tz2"@,
    )
}

/// Tells whether a name marks a file as compressed.
pub fn archive_name(name: &str) -> (r: bool)
    ensures
        r == is_archive_name(name@),
{
    has_suffix(name, ".bz2") || has_suffix(name, ".tbz2") || has_suffix(name, ".tbz") || has_suffix(
        name,
        ".tz2",
    )
}

impl Bzip2Cli {
    /// The block size that the options select.
    pub open spec fn level(&self) -> int {
        if self.fast {
            1
        } else if self.best {
            9
        } else {
            match self.block_size {
                Some(level) => level as int,
                None => 6,
            }
        }
    }

    /// Every input file bears the name of a compressed file.
    pub open spec fn all_archives(&self) -> bool {
        forall|i: int| 0 <= i < self.input_files@.len() ==> is_archive_name(#[trigger] self.input_files@[i]@)
    }

    /// The mode that the options and the program's name select.
    pub open spec fn selected_mode(&self, program_name: Seq<char>) -> Mode {
        if self.decompress || program_name == "bunzip2"@ || program_name == "bzcat"@ {
            Mode::Decompress
        } else if self.test {
            Mode::Test
        } else if self.all_archives() {
            Mode::Decompress
        } else {
            Mode::Compress
        }
    }

    /// The level of reporting that the options select.
    pub open spec fn selected_log_level(&self) -> LogLevel {
        if self.quiet {
            LogLevel::Error
        } else if self.verbose >= 2 {
            LogLevel::Trace
        } else if self.verbose == 1 {
            LogLevel::Info
        } else {
            LogLevel::Warn
        }
    }

    /// No input file was named.
    pub fn is_empty(&self) -> (r: bool)
        ensures
            r == (self.input_files@.len() == 0),
    {
        self.input_files.len() == 0
    }

    /// The input files, in the order given.
    pub fn iter(&self) -> (r: &Vec<String>)
        ensures
            r@ == self.input_files@,
    {
        &self.input_files
    }

    /// Output goes to standard output: by option, or under the name `bzcat`.
    pub fn is_stdout(&self, program_name: &str) -> (r: bool)
        ensures
            r == (self.stdout || program_name@ == "bzcat"@),
    {
        self.stdout || same_text(program_name, "bzcat")
    }

    /// The block size: 1 for `--fast`, 9 for `--best`, else the one given,
    /// else 6.
    pub fn compress_level(&self) -> (r: usize)
        ensures
            r == self.level(),
    {
        if self.fast {
            1
        } else if self.best {
            9
        } else {
            match self.block_size {
                Some(level) => level as usize,
                None => 6,
            }
        }
    }

    /// Decompress when asked to, or under the names `bunzip2` and `bzcat`;
    /// else test when asked to; else decompress when every input bears the
    /// name of a compressed file; else compress.
    pub fn mode(&self, program_name: &str) -> (r: Mode)
        ensures
            r == self.selected_mode(program_name@),
    {
        if self.decompress || same_text(program_name, "bunzip2") || same_text(
            program_name,
            "bzcat",
        ) {
            Mode::Decompress
        } else if self.test {
            Mode::Test
        } else {
            let mut i: usize = 0;
            while i < self.input_files.len()
                invariant
                    i <= self.input_files@.len(),
                    !self.decompress,
                    !self.test,
                    program_name@ != "bunzip2"@,
                    program_name@ != "bzcat"@,
                    forall|k: int| 0 <= k < i ==> is_archive_name(#[trigger] self.input_files@[k]@),
                decreases self.input_files@.len() - i,
            {
                if !archive_name(self.input_files[i].as_str()) {
                    return Mode::Compress;
                }
                i += 1;
            }
            Mode::Decompress
        }
    }

    /// The run only shows version and license.
    pub fn shows_version(&self) -> (r: bool)
        ensures
            r == (self.license || self.version),
    {
        self.license || self.version
    }

    /// Errors only when quiet; everything from the second `-v` on; progress
    /// with one `-v`; warnings otherwise.
    pub fn log_level(&self) -> (r: LogLevel)
        ensures
            r == self.selected_log_level(),
    {
        if self.quiet {
            LogLevel::Error
        } else if self.verbose >= 2 {
            LogLevel::Trace
        } else if self.verbose == 1 {
            LogLevel::Info
        } else {
            LogLevel::Warn
        }
    }
}

} // verus!
