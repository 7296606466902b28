use bzip2rs::plan::{compress_step, decompress_step, plan, plan_compress, plan_decompress, plan_test};
use bzip2rs::text::{file_name, has_suffix, joined, same_text, without_tail};
use bzip2rs::{Bzip2Cli, CodecError, Error, Job, LogLevel, Mode, Step};

fn cli(files: &[&str]) -> Bzip2Cli {
    Bzip2Cli {
        decompress: false,
        compress: false,
        keep: false,
        force: false,
        test: false,
        stdout: false,
        quiet: false,
        verbose: 0,
        license: false,
        version: false,
        small: false,
        block_size: None,
        fast: false,
        best: false,
        input_files: files.iter().map(|f| f.to_string()).collect(),
    }
}

fn job(step: &Step) -> &Job {
    match step {
        Step::Compress(job) | Step::Decompress(job) => job,
        other => panic!("no job: {:?}", other),
    }
}

#[test]
fn suffixes_are_told() {
    assert!(has_suffix("a.bz2", ".bz2"));
    assert!(has_suffix(".bz2", ".bz2"));
    assert!(has_suffix("anything", ""));
    assert!(!has_suffix("bz2", ".bz2"));
    assert!(!has_suffix("a.bz2 ", ".bz2"));
    assert!(!has_suffix("a.bz3", ".bz2"));
    assert!(has_suffix("données.bz2", ".bz2"));
    assert!(same_text("bzcat", "bzcat"));
    assert!(!same_text("bzcat", "bzcat2"));
    assert!(!same_text("xbzcat", "bzcat"));
    assert!(same_text("", ""));
}

#[test]
fn names_are_cut_and_joined() {
    assert_eq!(without_tail("a.txt.bz2", 4), "a.txt");
    assert_eq!(without_tail("é.bz2", 4), "é");
    assert_eq!(without_tail("abc", 0), "abc");
    assert_eq!(without_tail("abc", 3), "");
    assert_eq!(joined("a.txt", ".bz2"), "a.txt.bz2");
    assert_eq!(file_name("/usr/bin/bunzip2"), "bunzip2");
    assert_eq!(file_name("bzip2rs"), "bzip2rs");
    assert_eq!(file_name("./target/debug/bzcat"), "bzcat");
    assert_eq!(file_name("dir/"), "");
    assert_eq!(file_name(""), "");
    assert_eq!(file_name("/"), "");
}

#[test]
fn no_input_files() {
    assert!(cli(&[]).is_empty());
    assert!(!cli(&["a"]).is_empty());
    assert_eq!(cli(&["a", "b"]).iter().len(), 2);
    assert_eq!(cli(&["a", "b"]).iter()[1], "b");
}

#[test]
fn standard_output_by_option_or_by_name() {
    let mut c = cli(&[]);
    assert!(!c.is_stdout("bzip2rs"));
    assert!(c.is_stdout("bzcat"));
    assert!(!c.is_stdout("bunzip2"));
    c.stdout = true;
    assert!(c.is_stdout("bzip2rs"));
}

#[test]
fn the_level_follows_the_options() {
    let mut c = cli(&[]);
    assert_eq!(c.compress_level(), 6);
    c.block_size = Some(3);
    assert_eq!(c.compress_level(), 3);
    c.block_size = Some(0);
    assert_eq!(c.compress_level(), 0);
    c.block_size = Some(200);
    assert_eq!(c.compress_level(), 200);
    c.best = true;
    assert_eq!(c.compress_level(), 9);
    c.fast = true;
    assert_eq!(c.compress_level(), 1);
}

#[test]
fn the_mode_follows_options_and_name() {
    let mut c = cli(&["a.txt"]);
    assert_eq!(c.mode("bzip2rs"), Mode::Compress);
    assert_eq!(c.mode("bunzip2"), Mode::Decompress);
    assert_eq!(c.mode("bzcat"), Mode::Decompress);
    c.test = true;
    assert_eq!(c.mode("bzip2rs"), Mode::Test);
    assert_eq!(c.mode("bzcat"), Mode::Decompress);
    c.decompress = true;
    assert_eq!(c.mode("bzip2rs"), Mode::Decompress);
    let mut t = cli(&["a.bz2"]);
    assert_eq!(t.mode("bzip2rs"), Mode::Decompress);
    t.test = true;
    assert_eq!(t.mode("bzip2rs"), Mode::Test);
}

#[test]
fn reporting_follows_the_options() {
    let mut c = cli(&[]);
    assert_eq!(c.log_level(), LogLevel::Warn);
    c.verbose = 1;
    assert_eq!(c.log_level(), LogLevel::Info);
    c.verbose = 2;
    assert_eq!(c.log_level(), LogLevel::Trace);
    c.verbose = 9;
    assert_eq!(c.log_level(), LogLevel::Trace);
    c.quiet = true;
    assert_eq!(c.log_level(), LogLevel::Error);
    assert!(!c.shows_version());
    c.license = true;
    assert!(c.shows_version());
    c.license = false;
    c.version = true;
    assert!(c.shows_version());
}

#[test]
fn a_file_is_compressed_to_its_name_with_the_suffix() {
    let mut c = cli(&[]);
    let step = compress_step(&c, "notes.txt");
    assert!(matches!(step, Step::Compress(_)));
    let j = job(&step);
    assert_eq!(j.input, "notes.txt");
    assert_eq!(j.dest, "notes.txt.bz2");
    assert!(!j.to_stdout && !j.overwrite && j.remove_input);
    c.keep = true;
    c.force = true;
    c.stdout = true;
    let step = compress_step(&c, "notes.txt");
    let j = job(&step);
    assert!(j.to_stdout && j.overwrite && !j.remove_input);
}

#[test]
fn a_compressed_file_is_not_compressed_again() {
    match compress_step(&cli(&[]), "notes.bz2") {
        Step::Reject(Error::InvalidInput(msg)) => {
            assert_eq!(msg, "bzip2: Input file notes.bz2 already has .bz2 suffix.")
        }
        other => panic!("{:?}", other),
    }
    assert!(matches!(compress_step(&cli(&[]), "notes.tbz2"), Step::Compress(_)));
}

#[test]
fn a_file_is_decompressed_to_its_name_without_the_suffix() {
    let c = cli(&[]);
    let step = decompress_step(&c, "bzip2rs", "notes.txt.bz2");
    assert!(matches!(step, Step::Decompress(_)));
    let j = job(&step);
    assert_eq!(j.input, "notes.txt.bz2");
    assert_eq!(j.dest, "notes.txt");
    assert!(!j.to_stdout && !j.overwrite && j.remove_input);
    let step = decompress_step(&c, "bzcat", ".bz2");
    assert_eq!(job(&step).dest, "");
    assert!(job(&step).to_stdout);
}

#[test]
fn a_name_without_the_suffix_cannot_be_guessed() {
    for name in ["notes.txt", "notes.tbz2", "notes.tbz", "bz2", ""] {
        match decompress_step(&cli(&[]), "bzip2rs", name) {
            Step::Reject(Error::CannotGuessOriginalName(n)) => assert_eq!(n, name),
            other => panic!("{:?}", other),
        }
    }
}

#[test]
fn an_existing_output_is_kept_unless_forced() {
    let mut c = cli(&[]);
    let step = compress_step(&c, "a");
    assert!(job(&step).check_dest(false).is_ok());
    match job(&step).check_dest(true) {
        Err(Error::FileExists(name)) => assert_eq!(name, "a.bz2"),
        other => panic!("{:?}", other),
    }
    c.force = true;
    let step = compress_step(&c, "a");
    assert!(job(&step).check_dest(true).is_ok());
    assert!(job(&step).check_dest(false).is_ok());
}

#[test]
fn each_input_gets_its_step_in_order() {
    let c = cli(&["a", "b.bz2", "c"]);
    let steps = plan_compress(&c);
    assert_eq!(steps.len(), 3);
    assert_eq!(job(&steps[0]).input, "a");
    assert!(matches!(steps[1], Step::Reject(Error::InvalidInput(_))));
    assert_eq!(job(&steps[2]).dest, "c.bz2");
    let steps = plan_decompress(&c, "bunzip2");
    assert_eq!(steps.len(), 3);
    assert!(matches!(steps[0], Step::Reject(Error::CannotGuessOriginalName(_))));
    assert_eq!(job(&steps[1]).dest, "b");
    assert!(matches!(steps[2], Step::Reject(Error::CannotGuessOriginalName(_))));
    let steps = plan_test(&c);
    assert_eq!(steps.len(), 3);
    for (step, name) in steps.iter().zip(["a", "b.bz2", "c"]) {
        assert!(matches!(step, Step::Check(n) if n == name));
    }
    assert!(plan_test(&cli(&[])).is_empty());
}

#[test]
fn standard_input_needs_standard_output() {
    let mut c = cli(&[]);
    let steps = plan_compress(&c);
    assert_eq!(steps.len(), 1);
    assert!(matches!(steps[0], Step::Reject(Error::CannotWriteToStdout())));
    let steps = plan_decompress(&c, "bunzip2");
    assert!(matches!(steps[0], Step::Reject(Error::CannotWriteToStdout())));
    let steps = plan_decompress(&c, "bzcat");
    assert_eq!(steps.len(), 1);
    assert!(matches!(steps[0], Step::DecompressPipe));
    c.stdout = true;
    assert!(matches!(plan_compress(&c)[0], Step::CompressPipe));
    assert!(matches!(plan_decompress(&c, "bunzip2")[0], Step::DecompressPipe));
}

#[test]
fn a_run_is_planned_from_the_name_it_was_started_under() {
    let c = cli(&["a.txt"]);
    let (mode, steps) = plan(&c, "/usr/local/bin/bzip2rs");
    assert_eq!(mode, Mode::Compress);
    assert!(matches!(steps[0], Step::Compress(_)));
    let (mode, steps) = plan(&c, "/usr/local/bin/bunzip2");
    assert_eq!(mode, Mode::Decompress);
    assert!(matches!(steps[0], Step::Reject(Error::CannotGuessOriginalName(_))));
    let (mode, steps) = plan(&cli(&["a.bz2"]), "bin/bzcat");
    assert_eq!(mode, Mode::Decompress);
    assert!(job(&steps[0]).to_stdout);
    let mut t = cli(&["a.bz2", "b"]);
    t.test = true;
    let (mode, steps) = plan(&t, "bzip2rs");
    assert_eq!(mode, Mode::Test);
    assert_eq!(steps.len(), 2);
    t.version = true;
    assert!(plan(&t, "bzip2rs").1.is_empty());
    let (mode, steps) = plan(&cli(&[]), "bzip2rs");
    assert_eq!(mode, Mode::Decompress);
    assert!(matches!(steps[0], Step::Reject(Error::CannotWriteToStdout())));
}

#[test]
fn failures_are_worded() {
    assert_eq!(Error::Io("gone".to_string()).message(), "I/O error: gone");
    assert_eq!(
        Error::FileExists("a.bz2".to_string()).message(),
        "bzip2: Output file a.bz2 already exists."
    );
    assert_eq!(Error::InvalidInput("as given".to_string()).message(), "as given");
    assert_eq!(
        Error::CannotWriteToStdout().message(),
        "bzip2: I won't write compressed data to a terminal. Use -c for redirecting the output to a file."
    );
    assert_eq!(
        Error::CannotGuessOriginalName("a".to_string()).message(),
        "bzip2: Can't guess original name for a -- using a.out instead"
    );
    assert_eq!(
        Error::Codec(CodecError::CrcMismatch { expected: 0x1234_abcd, actual: 0xf }).message(),
        "bzip2: CRC mismatch: expected 0x1234abcd, found 0x0000000f"
    );
    assert_eq!(
        Error::Codec(CodecError::TruncatedStream).message(),
        CodecError::TruncatedStream.message()
    );
    let all = [
        CodecError::TruncatedStream,
        CodecError::InvalidBlock,
        CodecError::InvalidCode,
        CodecError::CorruptData,
    ];
    for (i, a) in all.iter().enumerate() {
        for b in &all[i + 1..] {
            assert_ne!(a.message(), b.message());
        }
    }
    let both = Error::Array(vec![
        Error::Io("x".to_string()),
        Error::Array(vec![Error::InvalidInput("y".to_string())]),
    ]);
    assert_eq!(both.message(), "I/O error: x\ny\n\n");
    assert_eq!(Error::Array(vec![]).message(), "");
}

#[test]
fn a_run_is_summed_up() {
    assert_eq!(Error::error_or(7, vec![]).unwrap(), 7);
    match Error::error_or((), vec![Error::Io("x".to_string())]) {
        Err(Error::Io(e)) => assert_eq!(e, "x"),
        other => panic!("{:?}", other),
    }
    match Error::error_or("v", vec![Error::Io("x".to_string()), Error::CannotWriteToStdout()]) {
        Err(Error::Array(errs)) => {
            assert_eq!(errs.len(), 2);
            assert!(matches!(errs[0], Error::Io(_)));
            assert!(matches!(errs[1], Error::CannotWriteToStdout()));
        }
        other => panic!("{:?}", other),
    }
}
