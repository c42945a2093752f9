//! Applying a patch to the target codebase with `git apply --3way`, fed over stdin rather than
//! written to disk: the command, and what is made of its result.

use vstd::prelude::*;

use crate::path_finder::syntax::lossy_text;
use crate::path_finder::syntax::utf8_lossy;
use crate::text::concat;
use crate::text::concat3;
use crate::text::copy;
use crate::text::texts;

verus! {

/// The arguments of the git command that applies a patch from its standard input.
pub fn apply_arguments() -> (r: Vec<String>)
    ensures
        texts(r@) == seq!["apply"@, "--3way"@],
{
    let r = vec![copy("apply"), copy("--3way")];
    assert(texts(r@) =~= seq!["apply"@, "--3way"@]);
    r
}

/// What is wrong with the application of a patch, if anything is. The exit status comes first: if git
/// failed and closed its end of the pipe early, that is what caused the write to fail.
pub open spec fn patch_error(
    name: Seq<char>,
    exited_well: bool,
    stderr: Seq<u8>,
    write_error: Option<Seq<char>>,
) -> Option<Seq<char>> {
    if !exited_well {
        Some("git apply --3way failed for "@ + name + ":\n"@ + utf8_lossy(stderr))
    } else {
        match write_error {
            Some(error) => Some(
                "git apply for "@ + name + " succeeded, but writing the patch to it failed: "@ + error,
            ),
            None => None,
        }
    }
}

/// Whether the patch `name` was applied, given how git ended, what it wrote to its standard error, and
/// what went wrong in writing the patch to it.
pub fn patch_result(name: &str, exited_well: bool, stderr: &[u8], write_error: Option<&str>) -> (r: Result<(), String>)
    ensures
        r is Ok == patch_error(name@, exited_well, stderr@, crate::moodle::entrypoints::str_of(write_error)) is None,
        r matches Err(message) ==> Some(message@) == patch_error(
            name@,
            exited_well,
            stderr@,
            crate::moodle::entrypoints::str_of(write_error),
        ),
{
    if !exited_well {
        let start = concat3("git apply --3way failed for ", name, ":\n");
        return Err(concat(&start, &lossy_text(stderr)));
    }
    match write_error {
        Some(error) => {
            let start = concat3("git apply for ", name, " succeeded, but writing the patch to it failed: ");
            Err(concat(&start, error))
        },
        None => Ok(()),
    }
}

} // verus!
