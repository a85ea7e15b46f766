//! Read-only git queries: what is asked, and what is made of the answer.
//! moo never writes to git.
use crate::bytes;
use crate::paths;
use crate::proto;
use crate::text;
use vstd::prelude::*;

verus! {

/// `run_git` was run with the arguments and gave the answer.
pub open spec fn answered<G: Fn(Vec<String>) -> Option<String>>(
    run_git: G,
    args: Seq<Seq<char>>,
    answer: Option<String>,
) -> bool {
    exists|v: Vec<String>|
        text::texts(v@) == args && #[trigger] call_ensures(run_git, (v,), answer)
}

/// What a git process that ended with `success` and wrote `stdout` answers.
pub open spec fn answer_of(success: bool, stdout: Seq<u8>) -> Option<Seq<char>> {
    let s = text::trimmed(text::lossy_of(stdout));
    if success && s.len() > 0 {
        Some(s)
    } else {
        None
    }
}

/// What was written, without the white space around it; nothing where the
/// process failed or wrote nothing.
pub fn answer(success: bool, stdout: &[u8]) -> (r: Option<String>)
    ensures
        text::opt_text(r) == answer_of(success, stdout@),
{
    if !success {
        return None;
    }
    let s = text::trim(text::lossy_text(stdout).as_str());
    if s.as_str().is_empty() {
        None
    } else {
        Some(s)
    }
}

pub open spec fn resolve_args(refish: Seq<char>) -> Seq<Seq<char>> {
    seq!["rev-parse"@, "--verify"@, "--quiet"@, refish + "^{commit}"@]
}

pub open spec fn toplevel_args() -> Seq<Seq<char>> {
    seq!["rev-parse"@, "--show-toplevel"@]
}

pub open spec fn common_dir_args() -> Seq<Seq<char>> {
    seq!["rev-parse"@, "--path-format=absolute"@, "--git-common-dir"@]
}

/// Resolves any ref-like string (branch, tag, SHA, HEAD) to a full SHA.
pub fn resolve<G: Fn(Vec<String>) -> Option<String>>(run_git: &G, refish: &str) -> (r: Option<String>)
    requires
        forall|v: Vec<String>| #[trigger] call_requires(*run_git, (v,)),
    ensures
        answered(*run_git, resolve_args(refish@), r),
{
    let mut commit = refish.to_owned();
    commit.append("^{commit}");
    let args = vec![
        "rev-parse".to_owned(),
        "--verify".to_owned(),
        "--quiet".to_owned(),
        commit,
    ];
    assert(text::texts(args@) =~= resolve_args(refish@));
    run_git(args)
}

/// Asks for the branch that is checked out. A detached HEAD has none.
pub open spec fn branch_args() -> Seq<Seq<char>> {
    seq!["symbolic-ref"@, "--quiet"@, "HEAD"@]
}

/// The commit that a handle shadows: the commit that is checked out where
/// HEAD is detached; else the tip of the branch with the handle's name, and
/// where there is no such branch the commit that is checked out.
pub open spec fn shadows<G: Fn(Vec<String>) -> Option<String>>(
    run_git: G,
    handle: Seq<char>,
    commit: Option<String>,
) -> bool {
    exists|branch: Option<String>|
        {
            &&& #[trigger] answered(run_git, branch_args(), branch)
            &&& match branch {
                None => answered(run_git, resolve_args("HEAD"@), commit),
                Some(_) => exists|tip: Option<String>|
                    {
                        &&& #[trigger] answered(
                            run_git,
                            resolve_args("refs/heads/"@ + handle),
                            tip,
                        )
                        &&& match tip {
                            Some(_) => commit == tip,
                            None => answered(run_git, resolve_args("HEAD"@), commit),
                        }
                    },
            }
        }
}

/// The commit that a handle shadows now, if inside a repository that has one.
pub fn shadowed_head<G: Fn(Vec<String>) -> Option<String>>(run_git: &G, handle: &str) -> (r: Option<
    String,
>)
    requires
        forall|v: Vec<String>| #[trigger] call_requires(*run_git, (v,)),
    ensures
        shadows(*run_git, handle@, r),
{
    let args = vec!["symbolic-ref".to_owned(), "--quiet".to_owned(), "HEAD".to_owned()];
    assert(text::texts(args@) =~= branch_args());
    let branch = run_git(args);
    assert(answered(*run_git, branch_args(), branch));
    if branch.is_none() {
        return resolve(run_git, "HEAD");
    }
    let mut name = "refs/heads/".to_owned();
    name.append(handle);
    let tip = resolve(run_git, name.as_str());
    assert(answered(*run_git, resolve_args("refs/heads/"@ + handle@), tip));
    if tip.is_some() {
        tip
    } else {
        resolve(run_git, "HEAD")
    }
}

/// Whatever `run_git` answers is made of what some git process wrote.
pub open spec fn answers_of_git<G: Fn(Vec<String>) -> Option<String>>(run_git: G) -> bool {
    forall|v: Vec<String>, a: Option<String>|
        #[trigger] call_ensures(run_git, (v,), a) ==> exists|success: bool, stdout: Seq<u8>|
            text::opt_text(a) == #[trigger] answer_of(success, stdout)
}

/// A resolved commit is not empty and has no white space at its ends.
pub proof fn resolved_is_plain<G: Fn(Vec<String>) -> Option<String>>(
    run_git: G,
    refish: Seq<char>,
    sha: String,
)
    requires
        answers_of_git(run_git),
        answered(run_git, resolve_args(refish), Some(sha)),
    ensures
        sha@.len() > 0,
        text::trimmed(sha@) == sha@,
        !text::is_space(sha@[0]),
        !text::is_space(sha@.last()),
{
    let v = choose|v: Vec<String>|
        text::texts(v@) == resolve_args(refish) && #[trigger] call_ensures(
            run_git,
            (v,),
            Some(sha),
        );
    assert(call_ensures(run_git, (v,), Some(sha)));
    let (success, stdout) = choose|success: bool, stdout: Seq<u8>|
        text::opt_text(Some(sha)) == #[trigger] answer_of(success, stdout);
    assert(sha@ == text::trimmed(text::lossy_of(stdout)));
    text::trimmed_has_no_ends(text::lossy_of(stdout));
}

/// The top-level directory of the current checkout, if inside one. In a
/// linked worktree this is the worktree's own root.
pub fn toplevel<G: Fn(Vec<String>) -> Option<String>>(run_git: &G) -> (r: Option<String>)
    requires
        forall|v: Vec<String>| #[trigger] call_requires(*run_git, (v,)),
    ensures
        answered(*run_git, toplevel_args(), r),
{
    let args = vec!["rev-parse".to_owned(), "--show-toplevel".to_owned()];
    assert(text::texts(args@) =~= toplevel_args());
    run_git(args)
}

/// The main checkout that a common git directory belongs to: its parent,
/// where it is called `.git`.
pub open spec fn checkout_of(common: Seq<char>) -> Option<Seq<u8>> {
    let route = paths::route_of(proto::wire(common));
    if route.file_name() == Some(proto::wire(".git"@)) {
        Some(route.parent()->0.written())
    } else {
        None
    }
}

fn main_checkout(common: &str) -> (r: Option<Vec<u8>>)
    ensures
        match r {
            Some(p) => checkout_of(common@) == Some(p@),
            None => checkout_of(common@) is None,
        },
{
    let route = paths::Route::parse(common.as_bytes());
    match route.file_name() {
        Some(name) => {
            if bytes::same_bytes(&name, ".git".as_bytes()) {
                let parent = route.ancestor(route.names.len() - 1);
                assert(parent@.names =~= route@.names.drop_last());
                assert(route@.parent() == Some(parent@));
                Some(parent.written())
            } else {
                None
            }
        },
        None => None,
    }
}

/// The bytes of an optional text.
pub open spec fn opt_wire(o: Option<String>) -> Option<Seq<u8>> {
    match o {
        Some(s) => Some(proto::wire(s@)),
        None => None,
    }
}

/// The repository that a checkout belongs to: the main checkout where git's
/// common directory tells it, and otherwise the checkout's own top level.
pub open spec fn belongs_to<G: Fn(Vec<String>) -> Option<String>>(
    run_git: G,
    root: Option<Seq<u8>>,
) -> bool {
    exists|common: Option<String>|
        {
            &&& #[trigger] answered(run_git, common_dir_args(), common)
            &&& match common {
                None => root is None,
                Some(c) => match checkout_of(c@) {
                    Some(p) => root == Some(p),
                    None => exists|top: Option<String>|
                        {
                            &&& #[trigger] answered(run_git, toplevel_args(), top)
                            &&& root == opt_wire(top)
                        },
                },
            }
        }
}

/// The main repository's top-level directory, if inside one. All worktrees
/// of a repository have the same one, so they share their machines. Bare or
/// unusual layouts have the checkout's own top level.
pub fn main_root<G: Fn(Vec<String>) -> Option<String>>(run_git: &G) -> (r: Option<Vec<u8>>)
    requires
        forall|v: Vec<String>| #[trigger] call_requires(*run_git, (v,)),
    ensures
        belongs_to(
            *run_git,
            match r {
                Some(p) => Some(p@),
                None => None,
            },
        ),
{
    let args = vec![
        "rev-parse".to_owned(),
        "--path-format=absolute".to_owned(),
        "--git-common-dir".to_owned(),
    ];
    assert(text::texts(args@) =~= common_dir_args());
    let common = run_git(args);
    assert(answered(*run_git, common_dir_args(), common));
    match &common {
        None => None,
        Some(c) => match main_checkout(c.as_str()) {
            Some(p) => Some(p),
            None => {
                let top = toplevel(run_git);
                assert(answered(*run_git, toplevel_args(), top));
                match &top {
                    Some(t) => {
                        let b = t.as_str().as_bytes();
                        let p = bytes::slice_of(b, 0, b.len());
                        assert(p@ =~= proto::wire(t@));
                        Some(p)
                    },
                    None => None,
                }
            },
        },
    }
}

} // verus!
