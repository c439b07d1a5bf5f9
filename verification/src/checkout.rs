//! The checkout dispatcher: given a chosen branch, the argument list of
//! the version-control subcommand that switches to it.  A local branch
//! takes a plain checkout; a remote branch takes the create-and-switch
//! subcommand, under a new local name derived from the remote ref.

use vstd::prelude::*;

use crate::branch::Branch;

verus! {

/// Number of characters before the first `/` of `s` (the whole length
/// when `s` has none).
pub open spec fn slash_break(s: Seq<char>) -> nat
    decreases s.len(),
{
    if s.len() == 0 {
        0
    } else if s[0] == '/' {
        0
    } else {
        (slash_break(s.drop_first()) + 1) as nat
    }
}

/// Any position with no `/` before it and a `/` (or the end of `s`) at
/// it is the position `slash_break` names.
pub proof fn lemma_slash_break_at(s: Seq<char>, k: int)
    requires
        0 <= k <= s.len(),
        forall|i: int| 0 <= i < k ==> s[i] != '/',
        k < s.len() ==> s[k] == '/',
    ensures
        slash_break(s) == k,
    decreases k,
{
    if k == 0 {
    } else {
        assert(s[0] != '/');
        assert forall|i: int| 0 <= i < k - 1 implies s.drop_first()[i] != '/' by {
            assert(s.drop_first()[i] == s[i + 1]);
        }
        if k - 1 < s.drop_first().len() {
            assert(s.drop_first()[k - 1] == s[k]);
        }
        lemma_slash_break_at(s.drop_first(), k - 1);
    }
}

/// The name without its remote component: everything past the first `/`,
/// or the name itself when it has none.
pub open spec fn local_name_spec(name: Seq<char>) -> Seq<char> {
    let k = slash_break(name);
    if k < name.len() {
        name.skip(k as int + 1)
    } else {
        name
    }
}

/// The local branch name under which a remote ref is checked out: the
/// text past the remote part of the name.
pub fn local_branch_name(name: &str) -> (r: String)
    ensures
        r@ == local_name_spec(name@),
{
    let n = name.unicode_len();
    let mut j: usize = 0;
    while j < n && name.get_char(j) != '/'
        invariant
            j <= n,
            n == name@.len(),
            forall|i: int| 0 <= i < j ==> name@[i] != '/',
        decreases n - j,
    {
        j += 1;
    }
    proof {
        lemma_slash_break_at(name@, j as int);
    }
    if j == n {
        let r = String::from_str(name);
        r
    } else {
        proof {
            assert(name@.subrange(j as int + 1, n as int) =~= name@.skip(j as int + 1));
        }
        let r = String::from_str(name.substring_char(j + 1, n));
        r
    }
}

/// Argument list of the plain checkout subcommand for a local branch.
pub fn checkout_local_branch(branch: &Branch) -> (args: Vec<String>)
    ensures
        args.deep_view() == seq!["checkout"@, branch.name@],
{
    let mut args: Vec<String> = Vec::new();
    args.push(String::from_str("checkout"));
    args.push(branch.name.clone());
    proof {
        assert(args.deep_view() =~= seq!["checkout"@, branch.name@]);
    }
    args
}

/// Argument list of the create-and-switch subcommand for a remote
/// branch: a new local branch named after the remote ref, created at the
/// remote ref and made current.
pub fn checkout_remote_branch(branch: &Branch) -> (args: Vec<String>)
    ensures
        args.deep_view() == seq![
            "switch"@,
            "-c"@,
            local_name_spec(branch.name@),
            branch.name@,
        ],
{
    let new_branch_name = local_branch_name(branch.name.as_str());
    let mut args: Vec<String> = Vec::new();
    args.push(String::from_str("switch"));
    args.push(String::from_str("-c"));
    args.push(new_branch_name);
    args.push(branch.name.clone());
    proof {
        assert(args.deep_view() =~= seq![
            "switch"@,
            "-c"@,
            local_name_spec(branch.name@),
            branch.name@,
        ]);
    }
    args
}

/// Chooses the checkout strategy for the chosen branch and returns the
/// argument list of the subcommand to run: a plain checkout for a local
/// branch, create-and-switch for a remote one.
pub fn checkout_branch(branch: &Branch) -> (args: Vec<String>)
    ensures
        !branch.is_remote ==> args.deep_view() == seq!["checkout"@, branch.name@],
        branch.is_remote ==> args.deep_view() == seq![
            "switch"@,
            "-c"@,
            local_name_spec(branch.name@),
            branch.name@,
        ],
{
    if branch.is_remote {
        checkout_remote_branch(branch)
    } else {
        checkout_local_branch(branch)
    }
}

} // verus!
