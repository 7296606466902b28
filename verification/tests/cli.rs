use bzip2rs::{Bzip2Cli, Mode};

fn options(files: &[&str]) -> Bzip2Cli {
    Bzip2Cli {
        decompress: false,
        compress: false,
        keep: false,
        force: false,
        test: false,
        stdout: false,
        quiet: false,
        verbose: 0,
        license: false,
        version: false,
        small: false,
        block_size: None,
        fast: false,
        best: false,
        input_files: files.iter().map(|f| f.to_string()).collect(),
    }
}

#[test]
fn mode_follows_the_names_of_the_inputs() {
    assert_eq!(options(&["a.txt"]).mode("bzip2rs"), Mode::Compress);
    assert_eq!(options(&["a.bz2", "b.tbz2", "c.tbz", "d.tz2"]).mode("bzip2rs"), Mode::Decompress);
    assert_eq!(options(&["a.bz2", "b.txt"]).mode("bzip2rs"), Mode::Compress);
    assert_eq!(options(&[]).mode("bzip2rs"), Mode::Decompress);
}
