//! The names under which the remote and its branches are known.

use vstd::prelude::*;
use vstd::string::StringExecFns;

verus! {

/// The name of the remote that every repository is synchronised with.
pub open spec fn remote() -> Seq<char> {
    "http-origin"@
}

/// The name of the branch that is synchronised where a link names none.
pub open spec fn default_branch() -> Seq<char> {
    "master"@
}

/// The full name of a local branch.
pub open spec fn branch_ref_of(branch: Seq<char>) -> Seq<char> {
    "refs/heads/"@ + branch
}

/// The refspec that maps a branch of the remote to the local branch of the
/// same name.
pub open spec fn refspec_of(branch: Seq<char>) -> Seq<char> {
    branch_ref_of(branch) + ":"@ + branch_ref_of(branch)
}

/// The name of the remote.
pub fn remote_name() -> (name: String)
    ensures
        name@ == remote(),
{
    String::from_str("http-origin")
}

/// The name of the default branch.
pub fn default_branch_name() -> (name: String)
    ensures
        name@ == default_branch(),
{
    String::from_str("master")
}

/// The full name of a local branch.
pub fn branch_ref(branch: &str) -> (name: String)
    ensures
        name@ == branch_ref_of(branch@),
{
    String::from_str("refs/heads/").concat(branch)
}

/// The refspec under which a branch is fetched and pushed.
pub fn refspec(branch: &str) -> (spec: String)
    ensures
        spec@ == refspec_of(branch@),
{
    let name = branch_ref(branch);
    let spec = name.clone().concat(":").concat(name.as_str());
    spec
}

/// The name of a branch as the remote tracks it.
pub fn tracking_branch(branch: &str) -> (name: String)
    ensures
        name@ == remote() + "/"@ + branch@,
{
    remote_name().concat("/").concat(branch)
}

} // verus!
