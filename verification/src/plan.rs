//! What a run does with each of its inputs, decided before anything is read.
//!
//! The caller opens, reads, writes and removes files; which ones, and which
//! names are turned down, is settled here.

use vstd::prelude::*;
use vstd::string::*;
use crate::cli::{Bzip2Cli, Mode};
use crate::error::Error;
use crate::text::{ends_with, file_name, has_suffix, joined, last_component, without_tail};

verus! {

/// One input file and where its output goes.
#[derive(Debug)]
pub struct Job {
    /// The file to read.
    pub input: String,
    /// The file to write, unless output goes to standard output.
    pub dest: String,
    /// Output goes to standard output.
    pub to_stdout: bool,
    /// An existing `dest` may be overwritten.
    pub overwrite: bool,
    /// The input is removed afterwards.
    pub remove_input: bool,
}

/// What is done for one input.
#[derive(Debug)]
pub enum Step {
    /// Nothing but to report the failure.
    Reject(Error),
    /// Compress the input of the job.
    Compress(Job),
    /// Decompress the input of the job.
    Decompress(Job),
    /// Compress standard input to standard output.
    CompressPipe,
    /// Decompress standard input to standard output.
    DecompressPipe,
    /// Decode the file and report whether it is sound.
    Check(String),
}

impl Job {
    /// The job for `input` under the options `cli`.
    pub open spec fn fits(self, cli: Bzip2Cli, input: Seq<char>, dest: Seq<char>, to_stdout: bool) -> bool {
        &&& self.input@ == input
        &&& self.dest@ == dest
        &&& self.to_stdout == to_stdout
        &&& self.overwrite == cli.force
        &&& self.remove_input == !cli.keep
    }

    /// Turns the job down where its output file is there already and may not
    /// be overwritten.
    pub fn check_dest(&self, dest_exists: bool) -> (r: Result<(), Error>)
        ensures
            (self.overwrite || !dest_exists) ==> r is Ok,
            (!self.overwrite && dest_exists) ==> (r matches Err(Error::FileExists(name)) && name@
                == self.dest@),
    {
        if !self.overwrite && dest_exists {
            Err(Error::FileExists(self.dest.clone()))
        } else {
            Ok(())
        }
    }
}

/// The step that compresses `file`: turned down where the name ends in
/// `.bz2`, else written to the name with `.bz2` added.
pub open spec fn is_compress_step(step: Step, cli: Bzip2Cli, file: Seq<char>) -> bool {
    if ends_with(file, ".bz2"@) {
        step matches Step::Reject(Error::InvalidInput(msg)) && msg@ == "bzip2: Input file "@ + file
            + " already has .bz2 suffix."@
    } else {
        step matches Step::Compress(job) && job.fits(cli, file, file + ".bz2"@, cli.stdout)
    }
}

/// The step that decompresses `file`: turned down where the name does not
/// end in `.bz2`, else written to the name without it.
pub open spec fn is_decompress_step(
    step: Step,
    cli: Bzip2Cli,
    program_name: Seq<char>,
    file: Seq<char>,
) -> bool {
    if ends_with(file, ".bz2"@) {
        step matches Step::Decompress(job) && job.fits(
            cli,
            file,
            file.subrange(0, file.len() - 4),
            cli.stdout || program_name == "bzcat"@,
        )
    } else {
        step matches Step::Reject(Error::CannotGuessOriginalName(name)) && name@ == file
    }
}

/// Standard input is compressed only where `-c` asks for standard output.
pub open spec fn is_compress_pipe(step: Step, cli: Bzip2Cli) -> bool {
    if cli.stdout {
        step is CompressPipe
    } else {
        step matches Step::Reject(Error::CannotWriteToStdout())
    }
}

/// Standard input is decompressed only where output goes to standard output.
pub open spec fn is_decompress_pipe(step: Step, cli: Bzip2Cli, program_name: Seq<char>) -> bool {
    if cli.stdout || program_name == "bzcat"@ {
        step is DecompressPipe
    } else {
        step matches Step::Reject(Error::CannotWriteToStdout())
    }
}

/// Decides what is done to compress `file`.
pub fn compress_step(cli: &Bzip2Cli, file: &str) -> (r: Step)
    ensures
        is_compress_step(r, *cli, file@),
{
    if has_suffix(file, ".bz2") {
        let mut msg: String = joined("bzip2: Input file ", file);
        msg.append(" already has .bz2 suffix.");
        Step::Reject(Error::InvalidInput(msg))
    } else {
        Step::Compress(
            Job {
                input: String::from_str(file),
                dest: joined(file, ".bz2"),
                to_stdout: cli.stdout,
                overwrite: cli.force,
                remove_input: !cli.keep,
            },
        )
    }
}

/// Decides what is done to decompress `file`.
pub fn decompress_step(cli: &Bzip2Cli, program_name: &str, file: &str) -> (r: Step)
    ensures
        is_decompress_step(r, *cli, program_name@, file@),
{
    if has_suffix(file, ".bz2") {
        proof {
            reveal_strlit(".bz2");
        }
        Step::Decompress(
            Job {
                input: String::from_str(file),
                dest: without_tail(file, 4),
                to_stdout: cli.is_stdout(program_name),
                overwrite: cli.force,
                remove_input: !cli.keep,
            },
        )
    } else {
        Step::Reject(Error::CannotGuessOriginalName(String::from_str(file)))
    }
}

/// The steps of a compressing run: one for each input file in order, or, with
/// no input file, the one for standard input.
pub fn plan_compress(cli: &Bzip2Cli) -> (r: Vec<Step>)
    ensures
        cli.input_files@.len() > 0 ==> r@.len() == cli.input_files@.len(),
        forall|i: int|
            0 <= i < cli.input_files@.len() ==> is_compress_step(
                #[trigger] r@[i],
                *cli,
                cli.input_files@[i]@,
            ),
        cli.input_files@.len() == 0 ==> r@.len() == 1 && is_compress_pipe(r@[0], *cli),
{
    let mut steps: Vec<Step> = Vec::new();
    let mut i: usize = 0;
    while i < cli.input_files.len()
        invariant
            i <= cli.input_files@.len(),
            steps@.len() == i,
            forall|k: int|
                0 <= k < i ==> is_compress_step(#[trigger] steps@[k], *cli, cli.input_files@[k]@),
        decreases cli.input_files@.len() - i,
    {
        let step: Step = compress_step(cli, cli.input_files[i].as_str());
        steps.push(step);
        i += 1;
    }
    if cli.is_empty() {
        if cli.stdout {
            steps.push(Step::CompressPipe);
        } else {
            steps.push(Step::Reject(Error::CannotWriteToStdout()));
        }
    }
    steps
}

/// The steps of a decompressing run: one for each input file in order, or,
/// with no input file, the one for standard input.
pub fn plan_decompress(cli: &Bzip2Cli, program_name: &str) -> (r: Vec<Step>)
    ensures
        cli.input_files@.len() > 0 ==> r@.len() == cli.input_files@.len(),
        forall|i: int|
            0 <= i < cli.input_files@.len() ==> is_decompress_step(
                #[trigger] r@[i],
                *cli,
                program_name@,
                cli.input_files@[i]@,
            ),
        cli.input_files@.len() == 0 ==> r@.len() == 1 && is_decompress_pipe(
            r@[0],
            *cli,
            program_name@,
        ),
{
    let mut steps: Vec<Step> = Vec::new();
    let mut i: usize = 0;
    while i < cli.input_files.len()
        invariant
            i <= cli.input_files@.len(),
            steps@.len() == i,
            forall|k: int|
                0 <= k < i ==> is_decompress_step(
                    #[trigger] steps@[k],
                    *cli,
                    program_name@,
                    cli.input_files@[k]@,
                ),
        decreases cli.input_files@.len() - i,
    {
        let step: Step = decompress_step(cli, program_name, cli.input_files[i].as_str());
        steps.push(step);
        i += 1;
    }
    if cli.is_empty() {
        if cli.is_stdout(program_name) {
            steps.push(Step::DecompressPipe);
        } else {
            steps.push(Step::Reject(Error::CannotWriteToStdout()));
        }
    }
    steps
}

/// The steps of a testing run: each input file is checked, in order.
pub fn plan_test(cli: &Bzip2Cli) -> (r: Vec<Step>)
    ensures
        r@.len() == cli.input_files@.len(),
        forall|i: int|
            0 <= i < r@.len() ==> (#[trigger] r@[i] matches Step::Check(name) && name@
                == cli.input_files@[i]@),
{
    let mut steps: Vec<Step> = Vec::new();
    let mut i: usize = 0;
    while i < cli.input_files.len()
        invariant
            i <= cli.input_files@.len(),
            steps@.len() == i,
            forall|k: int|
                0 <= k < i ==> (#[trigger] steps@[k] matches Step::Check(name) && name@
                    == cli.input_files@[k]@),
        decreases cli.input_files@.len() - i,
    {
        steps.push(Step::Check(cli.input_files[i].clone()));
        i += 1;
    }
    steps
}

/// The steps of a run started as `arg0` with the options `cli`: none where
/// only the version is shown, else those of the mode that the options and the
/// last component of `arg0` select.
pub fn plan(cli: &Bzip2Cli, arg0: &str) -> (r: (Mode, Vec<Step>))
    ensures
        r.0 == cli.selected_mode(last_component(arg0@)),
        (cli.license || cli.version) ==> r.1@.len() == 0,
        !(cli.license || cli.version) ==> is_plan(r.1@, *cli, last_component(arg0@)),
{
    let name: String = file_name(arg0);
    let mode: Mode = cli.mode(name.as_str());
    if cli.shows_version() {
        return (mode, Vec::new());
    }
    let steps: Vec<Step> = match mode {
        Mode::Compress => plan_compress(cli),
        Mode::Decompress => plan_decompress(cli, name.as_str()),
        Mode::Test => plan_test(cli),
    };
    (mode, steps)
}

/// The steps that the selected mode asks for.
pub open spec fn is_plan(steps: Seq<Step>, cli: Bzip2Cli, program_name: Seq<char>) -> bool {
    let n = cli.input_files@.len();
    match cli.selected_mode(program_name) {
        Mode::Compress => {
            &&& n > 0 ==> steps.len() == n
            &&& forall|i: int|
                0 <= i < n ==> is_compress_step(#[trigger] steps[i], cli, cli.input_files@[i]@)
            &&& n == 0 ==> steps.len() == 1 && is_compress_pipe(steps[0], cli)
        },
        Mode::Decompress => {
            &&& n > 0 ==> steps.len() == n
            &&& forall|i: int|
                0 <= i < n ==> is_decompress_step(
                    #[trigger] steps[i],
                    cli,
                    program_name,
                    cli.input_files@[i]@,
                )
            &&& n == 0 ==> steps.len() == 1 && is_decompress_pipe(steps[0], cli, program_name)
        },
        Mode::Test => {
            &&& steps.len() == n
            &&& forall|i: int|
                0 <= i < n ==> (#[trigger] steps[i] matches Step::Check(name) && name@
                    == cli.input_files@[i]@)
        },
    }
}

} // verus!
