//! The options of the command line, as plain values.
use vstd::prelude::*;
use vstd::string::StrSliceExecFns;

verus! {

/// Where the changed files come from.
#[derive(Debug, PartialEq, Eq, Clone, Copy, Structural)]
pub enum Source {
    Stdin,
    Git,
}

/// A `-` in place of the changes means: read them from standard input.
pub fn parse_stdin(src: &str) -> (r: Source)
    ensures
        (r == Source::Stdin) == (src@ == "-"@),
{
    proof {
        reveal_strlit("-");
    }
    if src.unicode_len() == 1 && src.get_char(0) == '-' {
        assert(src@ =~= "-"@);
        Source::Stdin
    } else {
        Source::Git
    }
}

/// The options of the program: one command.
#[derive(Debug)]
pub struct Opts {
    pub cmd: Command,
}

/// Where the manifests are read from.
#[derive(Debug)]
pub struct InputOpts {
    /// Search pattern for dependency files.
    pub dependency_files_glob: String,
    /// A full manifest file, as printed by `print --full`.
    pub full_manifest: Option<String>,
}

/// What is printed, and how.
#[derive(Debug)]
pub struct OutputOpts {
    /// The dependencies, not the build schedule.
    pub dependencies: bool,
    /// DOT for GraphViz.
    pub dot: bool,
    /// The full dependency graph, strengths included.
    pub full: bool,
    /// Only this component and what it depends on.
    pub scope: Option<String>,
    /// Only the components that nothing depends on.
    pub top_level: bool,
}

/// The options of the `diff` command.
#[derive(Debug)]
pub struct DiffOpts {
    /// The branch to compare with.
    pub base_branch: String,
    /// The commit to compare with in main-branch mode.
    pub base_commit: String,
    /// Compare with the parent commit only.
    pub main_branch: bool,
    /// Also rebuild the strong dependencies of affected components.
    pub rebuild_strong: bool,
    /// Where the changed files come from.
    pub changes: Source,
    pub input_opts: InputOpts,
    pub output_opts: OutputOpts,
}

/// The options of the `print` command.
#[derive(Debug)]
pub struct PrintOpts {
    pub input_opts: InputOpts,
    pub output_opts: OutputOpts,
}

/// The commands.
#[derive(Debug)]
pub enum Command {
    /// The build schedule of the components that changes affect.
    Diff(DiffOpts),
    /// The whole build schedule or dependency graph.
    Print(PrintOpts),
}

} // verus!
