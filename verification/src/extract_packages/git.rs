//! Gives every package its own git history: composer.json deliberately carries no `version` field,
//! since Composer derives `dev-main` from a real git branch instead, so a package that never gets
//! committed can't be depended on by version at all.

use vstd::prelude::*;

use crate::path_finder::syntax::lossy_text;
use crate::path_finder::syntax::utf8_lossy;
use crate::text::concat;
use crate::text::concat3;
use crate::text::copy;
use crate::text::join;
use crate::text::join_with;
use crate::text::texts;
use crate::text::trim;
use crate::text::trimmed;

verus! {

/// The commands that commit a package, as their arguments.
pub open spec fn commit_arguments() -> Seq<Seq<Seq<char>>> {
    seq![
        seq!["init"@, "--quiet"@, "-b"@, "main"@],
        seq!["add"@, "--all"@],
        seq!["commit"@, "--quiet"@, "-m"@, "Initial package import"@],
    ]
}

/// The git commands, in order, that make a directory its own repository on a `main` branch and commit
/// everything currently in it. Each is given as its arguments; the first that fails is the last that
/// is run.
pub fn commit_commands() -> (r: Vec<Vec<String>>)
    ensures
        Seq::new(r@.len(), |i: int| texts(r@[i]@)) == commit_arguments(),
{
    let init = vec![copy("init"), copy("--quiet"), copy("-b"), copy("main")];
    let add = vec![copy("add"), copy("--all")];
    let commit = vec![copy("commit"), copy("--quiet"), copy("-m"), copy("Initial package import")];
    assert(texts(init@) =~= commit_arguments()[0]);
    assert(texts(add@) =~= commit_arguments()[1]);
    assert(texts(commit@) =~= commit_arguments()[2]);
    let r = vec![init, add, commit];
    assert(Seq::new(r@.len(), |i: int| texts(r@[i]@)) =~= commit_arguments());
    r
}

/// How a git command that exited badly is reported.
pub open spec fn failure(arguments: Seq<Seq<char>>, dir: Seq<char>, stderr: Seq<u8>) -> Seq<char> {
    "`git "@ + join(arguments, " "@) + "` failed in "@ + dir + ": "@ + trimmed(utf8_lossy(stderr))
}

/// Whether a git command in the directory `dir` succeeded, given how it ended and what it wrote to its
/// standard error.
pub fn command_result(arguments: &Vec<String>, dir: &str, exited_well: bool, stderr: &[u8]) -> (r: Result<(), String>)
    ensures
        r is Ok == exited_well,
        r matches Err(message) ==> message@ == failure(texts(arguments@), dir@, stderr@),
{
    if exited_well {
        return Ok(());
    }
    let command = concat3("`git ", &join_with(arguments, " "), "` failed in ");
    let place = concat3(&command, dir, ": ");
    Err(concat(&place, &trim(&lossy_text(stderr))))
}

} // verus!
