use unzipper::cli::{banner, exit_code, failure_line, parse_args, Outcome, Stage};

#[test]
fn banner_is_the_greeting() {
    assert_eq!(banner(), "Hello, world!");
}

#[test]
fn missing_argument_gives_usage_line() {
    let args = vec!["unzip-it".to_string()];
    assert_eq!(parse_args(&args), Err("Usage: unzip-it <filename>".to_string()));
    assert_eq!(exit_code(Outcome::Usage), 1);
}

#[test]
fn one_argument_is_the_archive_path() {
    let args = vec!["prog".to_string(), "Archive.zip".to_string()];
    assert_eq!(parse_args(&args), Ok("Archive.zip".to_string()));
}

#[test]
fn further_arguments_are_ignored() {
    let args = vec!["prog".to_string(), "a.zip".to_string(), "b.zip".to_string()];
    assert_eq!(parse_args(&args), Ok("a.zip".to_string()));
}

#[test]
fn exit_codes_by_outcome() {
    assert_eq!(exit_code(Outcome::Extracted), 0);
    assert_eq!(exit_code(Outcome::Usage), 1);
    for stage in [
        Stage::Open,
        Stage::Metadata,
        Stage::CreateDir,
        Stage::CreateFile,
        Stage::Copy,
        Stage::Permission,
    ] {
        assert_ne!(exit_code(Outcome::Failed(stage)), 0);
    }
}

#[test]
fn failure_line_names_stage_and_subject() {
    assert_eq!(failure_line(Stage::Open, "x.zip"), "cannot open archive: x.zip");
    assert_eq!(failure_line(Stage::Metadata, "3"), "cannot read archive entry: 3");
    assert_eq!(failure_line(Stage::CreateDir, "a/b"), "cannot create directory: a/b");
    assert_eq!(failure_line(Stage::CreateFile, "a/f"), "cannot create file: a/f");
    assert_eq!(failure_line(Stage::Copy, "a/f"), "cannot copy contents: a/f");
    assert_eq!(failure_line(Stage::Permission, "run.sh"), "cannot set permissions: run.sh");
}
