use branchpick::branch::Branch;
use branchpick::checkout::{checkout_branch, checkout_local_branch, checkout_remote_branch, local_branch_name};

#[test]
fn a_local_branch_takes_a_plain_checkout() {
    let b = Branch::new(String::from("feature/x"), false, false, None);
    let args = checkout_branch(&b);
    assert_eq!(args, vec!["checkout", "feature/x"]);
}

#[test]
fn the_current_branch_takes_a_plain_checkout_too() {
    let b = Branch::new(String::from("main"), true, false, None);
    let args = checkout_branch(&b);
    assert_eq!(args, vec!["checkout", "main"]);
}

#[test]
fn a_remote_branch_takes_create_and_switch() {
    let b = Branch::new(String::from("origin/feature/y"), false, true, None);
    let args = checkout_branch(&b);
    assert_eq!(args, vec!["switch", "-c", "feature/y", "origin/feature/y"]);
}

#[test]
fn the_dispatch_matches_the_dedicated_builders() {
    let local = Branch::new(String::from("main"), false, false, None);
    assert_eq!(checkout_branch(&local), checkout_local_branch(&local));
    let remote = Branch::new(String::from("origin/main"), false, true, None);
    assert_eq!(checkout_branch(&remote), checkout_remote_branch(&remote));
}

#[test]
fn the_new_local_name_drops_the_remote_part() {
    assert_eq!(local_branch_name("origin/feature/x"), "feature/x");
    assert_eq!(local_branch_name("origin/main"), "main");
    assert_eq!(local_branch_name("plain"), "plain");
}
