//! Argument intake, the lines of the command-line surface, and exit codes.

use vstd::prelude::*;
use vstd::string::*;

verus! {

/// `Usage: <program> <filename>`
pub open spec fn usage_line(program: Seq<char>) -> Seq<char> {
    "Usage: "@ + program + " <filename>"@
}

/// The line written once at startup, before anything else.
pub fn banner() -> (s: String)
    ensures
        s@ == "Hello, world!"@,
{
    let mut s: String = String::new();
    s.append("Hello, world!");
    proof {
        assert(s@ =~= "Hello, world!"@);
    }
    s
}

/// Reads the argument vector, program name first. With an archive path
/// after the program name the path is returned; without one, the usage line.
/// Arguments after the archive path are ignored.
pub fn parse_args(args: &Vec<String>) -> (r: Result<String, String>)
    requires
        args@.len() >= 1,
    ensures
        match r {
            Ok(path) => args@.len() >= 2 && path@ == args@[1]@,
            Err(line) => args@.len() < 2 && line@ == usage_line(args@[0]@),
        },
{
    if args.len() < 2 {
        let mut line: String = String::new();
        line.append("Usage: ");
        line.append(args[0].as_str());
        line.append(" <filename>");
        proof {
            assert(line@ =~= usage_line(args@[0]@));
        }
        Err(line)
    } else {
        Ok(args[1].clone())
    }
}

/// The operation at which an extraction failed.
#[derive(Clone, Copy, PartialEq, Eq, Structural, Debug)]
pub enum Stage {
    /// The input could not be opened or is not a ZIP archive.
    Open,
    /// The central directory or a local header is malformed.
    Metadata,
    /// A directory could not be created.
    CreateDir,
    /// A destination file could not be created or truncated.
    CreateFile,
    /// Reading an entry or writing its destination failed midway.
    Copy,
    /// The mode could not be applied.
    Permission,
}

/// How a run ended.
#[derive(Clone, Copy, PartialEq, Eq, Structural, Debug)]
pub enum Outcome {
    /// Every entry was processed.
    Extracted,
    /// No archive path was given; the usage line was written.
    Usage,
    /// A fatal error at the given stage.
    Failed(Stage),
}

/// The exit status of a run that processed every entry.
pub const EXIT_EXTRACTED: i32 = 0;

/// The exit status of a run without an archive path.
pub const EXIT_USAGE: i32 = 1;

/// The exit status of a run that failed.
pub const EXIT_FAILED: i32 = 2;

/// The exit status for an outcome.
pub open spec fn exit_status(outcome: Outcome) -> i32 {
    match outcome {
        Outcome::Extracted => EXIT_EXTRACTED,
        Outcome::Usage => EXIT_USAGE,
        Outcome::Failed(_) => EXIT_FAILED,
    }
}

/// The exit status for an outcome: zero exactly for a run that processed
/// every entry, one for a usage failure.
pub fn exit_code(outcome: Outcome) -> (code: i32)
    ensures
        code == exit_status(outcome),
        code == 0 <==> outcome == Outcome::Extracted,
        outcome == Outcome::Usage ==> code == 1,
{
    match outcome {
        Outcome::Extracted => EXIT_EXTRACTED,
        Outcome::Usage => EXIT_USAGE,
        Outcome::Failed(_) => EXIT_FAILED,
    }
}

/// The words that name a stage in a diagnostic.
pub open spec fn stage_words(stage: Stage) -> Seq<char> {
    match stage {
        Stage::Open => "cannot open archive"@,
        Stage::Metadata => "cannot read archive entry"@,
        Stage::CreateDir => "cannot create directory"@,
        Stage::CreateFile => "cannot create file"@,
        Stage::Copy => "cannot copy contents"@,
        Stage::Permission => "cannot set permissions"@,
    }
}

/// The diagnostic for a fatal error: the failing stage, then what it
/// failed on.
pub fn failure_line(stage: Stage, subject: &str) -> (s: String)
    ensures
        s@ == stage_words(stage) + ": "@ + subject@,
{
    let mut s: String = String::new();
    match stage {
        Stage::Open => s.append("cannot open archive"),
        Stage::Metadata => s.append("cannot read archive entry"),
        Stage::CreateDir => s.append("cannot create directory"),
        Stage::CreateFile => s.append("cannot create file"),
        Stage::Copy => s.append("cannot copy contents"),
        Stage::Permission => s.append("cannot set permissions"),
    }
    proof {
        assert(s@ =~= stage_words(stage));
    }
    s.append(": ");
    s.append(subject);
    s
}

} // verus!
