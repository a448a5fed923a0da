//! Asking git which files changed, through a command executor that the caller provides.
use vstd::prelude::*;
use vstd::string::StringExecFns;
use crate::cli::DiffOpts;
use crate::text::{chars_of, pieces, slice_string, split_at_char, string_models, trim_end, trim_end_white};

verus! {

broadcast use vstd::function::group_function_axioms;

/// A commit, by name or hash.
pub type Commit = String;

/// The words of a command line.
pub type Command = Vec<String>;

/// How to find the commit to compare with.
pub enum Mode {
    /// On a feature branch: compare with the merge base of this branch and HEAD.
    Feature(String),
    /// On the main branch: compare with this commit.
    Main(String),
}

/// Why the changed files could not be listed.
#[derive(PartialEq, Debug)]
pub enum GitError {
    /// The merge base with the branch (first) could not be found; the executor said why (second).
    MergeBase(String, String),
    /// Listing the changed files failed; the executor said why.
    Diff(String),
}

/// The models of the words of a command.
pub open spec fn command_models(cmd: Seq<String>) -> Seq<Seq<char>> {
    string_models(cmd)
}

/// `git merge-base <branch> HEAD`.
pub open spec fn merge_base_command(branch: Seq<char>) -> Seq<Seq<char>> {
    seq!["git"@, "merge-base"@, branch, "HEAD"@]
}

/// `git diff --no-commit-id --name-only -r <base>`.
pub open spec fn diff_command(base: Seq<char>) -> Seq<Seq<char>> {
    seq!["git"@, "diff"@, "--no-commit-id"@, "--name-only"@, "-r"@, base]
}

/// The executor may have been given `command` and answered `out`.
pub open spec fn ran<X: FnMut(Vec<String>) -> Result<String, String>>(x: X, command: Seq<Seq<char>>, out: Result<String, String>) -> bool {
    exists|cmd: Vec<String>| command_models(cmd@) == command && #[trigger] call_ensures(x, (cmd,), out)
}

/// What finding the base commit gives, for each answer of the executor.
pub open spec fn base_outcome<X: FnMut(Vec<String>) -> Result<String, String>>(x: X, mode: Mode, r: Result<String, GitError>) -> bool {
    match mode {
        Mode::Main(c) => r matches Ok(s) && s@ == trim_end(c@),
        Mode::Feature(b) => exists|out: Result<String, String>|
            #[trigger] ran(x, merge_base_command(b@), out) && match out {
                Ok(o) => r matches Ok(s) && s@ == trim_end(o@),
                Err(e) => r matches Err(GitError::MergeBase(b2, e2)) && b2@ == b@ && e2@ == e@,
            },
    }
}

/// What listing the changed files gives, for each answer of the executor.
pub open spec fn diff_outcome<X: FnMut(Vec<String>) -> Result<String, String>>(x: X, mode: Mode, r: Result<Vec<String>, GitError>) -> bool {
    exists|b: Result<String, GitError>|
        #[trigger] base_outcome(x, mode, b) && match b {
            Err(e) => r == Err::<Vec<String>, GitError>(e),
            Ok(base) => exists|out: Result<String, String>|
                #[trigger] ran(x, diff_command(base@), out) && match out {
                    Ok(o) => r matches Ok(files) && string_models(files@) == pieces(trim_end(o@), '\n'),
                    Err(e) => r matches Err(GitError::Diff(e2)) && e2@ == e@,
                },
        }
}

/// Runs git commands through `executor`, which takes the words of a command
/// and answers its output or an error.
pub struct Git<Executor: FnMut(Vec<String>) -> Result<String, String>> {
    executor: Executor,
}

impl<Executor: FnMut(Vec<String>) -> Result<String, String>> Git<Executor> {
    /// The executor.
    pub closed spec fn executor(&self) -> Executor {
        self.executor
    }

    pub fn new(executor: Executor) -> (r: Self)
        ensures
            r.executor() == executor,
    {
        Git { executor }
    }

    fn execute(&mut self, command: Vec<String>) -> (r: Result<String, String>)
        requires
            forall|c: Vec<String>| #[trigger] call_requires(old(self).executor(), (c,)),
        ensures
            final(self).executor() == old(self).executor(),
            ran(old(self).executor(), command_models(command@), r),
    {
        let ghost words = command_models(command@);
        let ghost cmd = command;
        assert(call_requires(old(self).executor(), (cmd,)));
        assert(call_requires(self.executor, (cmd,)));
        let r = (self.executor)(command);
        assert(call_ensures(self.executor, (cmd,), r));
        r
    }

    /// The commit to compare with: the merge base with the branch on a
    /// feature branch, the given commit on the main branch. Trailing
    /// whitespace is dropped.
    pub fn diff_base(&mut self, mode: Mode) -> (r: Result<Commit, GitError>)
        requires
            forall|c: Vec<String>| #[trigger] call_requires(old(self).executor(), (c,)),
        ensures
            final(self).executor() == old(self).executor(),
            base_outcome(old(self).executor(), mode, r),
    {
        let ghost m = mode;
        match mode {
            Mode::Feature(base_branch) => {
                let mut command: Vec<String> = Vec::new();
                command.push(String::from_str("git"));
                command.push(String::from_str("merge-base"));
                command.push(base_branch.clone());
                command.push(String::from_str("HEAD"));
                assert(command_models(command@) =~= merge_base_command(base_branch@));
                let out = self.execute(command);
                match out {
                    Ok(base) => {
                        let r = Ok(trimmed_end(&base));
                        assert(ran(old(self).executor(), merge_base_command(base_branch@), out));
                        r
                    },
                    Err(e) => {
                        let r = Err(GitError::MergeBase(base_branch, e));
                        assert(ran(old(self).executor(), merge_base_command(m->Feature_0@), out));
                        r
                    },
                }
            },
            Mode::Main(base_commit) => Ok(trimmed_end(&base_commit)),
        }
    }

    /// The files changed since the commit to compare with, one per line of
    /// git's answer.
    pub fn diff(&mut self, mode: Mode) -> (r: Result<Vec<String>, GitError>)
        requires
            forall|c: Vec<String>| #[trigger] call_requires(old(self).executor(), (c,)),
        ensures
            final(self).executor() == old(self).executor(),
            diff_outcome(old(self).executor(), mode, r),
    {
        let ghost x = self.executor();
        let found = self.diff_base(mode);
        let base = match found {
            Ok(base) => base,
            Err(e) => {
                return Err(e);
            },
        };
        let mut command: Vec<String> = Vec::new();
        command.push(String::from_str("git"));
        command.push(String::from_str("diff"));
        command.push(String::from_str("--no-commit-id"));
        command.push(String::from_str("--name-only"));
        command.push(String::from_str("-r"));
        command.push(base.clone());
        assert(command_models(command@) =~= diff_command(base@));
        let out = self.execute(command);
        match out {
            Ok(files) => {
                let cs = chars_of(files.as_str());
                let end = trim_end_white(&cs, 0, cs.len());
                assert(cs@.subrange(0, cs.len() as int) == cs@);
                let r = Ok(split_at_char(files.as_str(), &cs, 0, end, '\n'));
                assert(ran(x, diff_command(base@), out));
                r
            },
            Err(e) => {
                let r = Err(GitError::Diff(e));
                assert(ran(x, diff_command(base@), out));
                r
            },
        }
    }
}

/// `s` without trailing whitespace.
fn trimmed_end(s: &String) -> (r: String)
    ensures
        r@ == trim_end(s@),
{
    let cs = chars_of(s.as_str());
    let end = trim_end_white(&cs, 0, cs.len());
    assert(cs@.subrange(0, cs.len() as int) == cs@);
    slice_string(&cs, 0, end)
}

/// The mode that the options ask for: the parent commit on the main branch,
/// the merge base with the base branch otherwise.
pub fn diff_mode(opts: &DiffOpts) -> (r: Mode)
    ensures
        opts.main_branch ==> (r matches Mode::Main(c) && c@ == opts.base_commit@),
        !opts.main_branch ==> (r matches Mode::Feature(b) && b@ == opts.base_branch@),
{
    if opts.main_branch {
        Mode::Main(opts.base_commit.clone())
    } else {
        Mode::Feature(opts.base_branch.clone())
    }
}

} // verus!
