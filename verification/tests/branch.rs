use branchpick::branch::{branches, find_branch, parse_branch, tracked_remote_branches, Branch, TrackingMap};

#[test]
fn it_parses_branch() {
    let remote_tracked_by_map = TrackingMap::new();
    let branch = parse_branch(String::from("feature/project-1"), &remote_tracked_by_map);
    assert_eq!(branch.name, "feature/project-1");
    assert_eq!(branch.is_current, false);
    assert_eq!(branch.is_remote, false);
    assert_eq!(branch.tracked_by, None);
}

#[test]
fn it_parses_the_current_branch() {
    let remote_tracked_by_map = TrackingMap::new();
    let branch = parse_branch(String::from("* feature/project-1"), &remote_tracked_by_map);
    assert_eq!(branch.name, "feature/project-1");
    assert_eq!(branch.is_current, true);
    assert_eq!(branch.is_remote, false);
    assert_eq!(branch.tracked_by, None);
}

#[test]
fn it_parses_a_remote_branch() {
    let remote_tracked_by_map = TrackingMap::new();
    let branch = parse_branch(
        String::from("remotes/origin/feature/project-1"),
        &remote_tracked_by_map,
    );
    assert_eq!(branch.name, "origin/feature/project-1");
    assert_eq!(branch.is_current, false);
    assert_eq!(branch.is_remote, true);
    assert_eq!(branch.tracked_by, None);
}

#[test]
fn it_parses_a_tracked_branch() {
    let mut remote_tracked_by_map = TrackingMap::new();
    remote_tracked_by_map.insert(
        String::from("origin/feature/project-1"),
        String::from("feature/project-1"),
    );
    let branch = parse_branch(
        String::from("remotes/origin/feature/project-1"),
        &remote_tracked_by_map,
    );
    assert_eq!(branch.name, "origin/feature/project-1");
    assert_eq!(branch.is_current, false);
    assert_eq!(branch.is_remote, true);
    assert_eq!(branch.tracked_by, Some(String::from("feature/project-1")));
}

#[test]
fn it_parses_the_current_branch_without_a_space() {
    let map = TrackingMap::new();
    let branch = parse_branch(String::from("*feature/project-1"), &map);
    assert_eq!(branch.name, "feature/project-1");
    assert_eq!(branch.is_current, true);
    assert_eq!(branch.is_remote, false);
}

#[test]
fn it_parses_a_detached_head_line() {
    let map = TrackingMap::new();
    let branch = parse_branch(String::from("(HEAD detached at 1a2b3c)"), &map);
    assert_eq!(branch.name, "(HEAD detached at 1a2b3c)");
    assert_eq!(branch.is_current, false);
    assert_eq!(branch.is_remote, false);
    assert_eq!(branch.tracked_by, None);
}

#[test]
fn parsing_is_deterministic_on_equal_inputs() {
    let mut map = TrackingMap::new();
    map.insert(String::from("origin/main"), String::from("main"));
    let a = parse_branch(String::from("remotes/origin/main"), &map);
    let b = parse_branch(String::from("remotes/origin/main"), &map);
    assert_eq!(a.name, b.name);
    assert_eq!(a.is_current, b.is_current);
    assert_eq!(a.is_remote, b.is_remote);
    assert_eq!(a.tracked_by, b.tracked_by);
}

#[test]
fn it_builds_the_tracking_map() {
    let refs = "main <- origin/main\nfeature/x <- \nother <- origin/other\n";
    let map = tracked_remote_branches(refs);
    assert_eq!(
        map.lookup(&String::from("origin/main")),
        Some(String::from("main"))
    );
    assert_eq!(
        map.lookup(&String::from("origin/other")),
        Some(String::from("other"))
    );
    assert_eq!(map.lookup(&String::from("origin/feature/x")), None);
    assert_eq!(map.lookup(&String::from("main")), None);
}

#[test]
fn a_repeated_upstream_keeps_the_last_entry() {
    let refs = "first <- origin/shared\nsecond <- origin/shared\n";
    let map = tracked_remote_branches(refs);
    assert_eq!(
        map.lookup(&String::from("origin/shared")),
        Some(String::from("second"))
    );
}

#[test]
fn it_enumerates_and_filters_branches() {
    let refs = "main <- origin/main\n";
    let map = tracked_remote_branches(refs);
    let listing = "* main\nfeature/x\nremotes/origin/main\nremotes/origin/feature/y\n";
    let list = branches(listing, &map);
    assert_eq!(list.len(), 3);

    assert_eq!(list[0].name, "main");
    assert_eq!(list[0].is_current, true);
    assert_eq!(list[0].is_remote, false);

    assert_eq!(list[1].name, "feature/x");
    assert_eq!(list[1].is_current, false);
    assert_eq!(list[1].is_remote, false);

    assert_eq!(list[2].name, "origin/feature/y");
    assert_eq!(list[2].is_current, false);
    assert_eq!(list[2].is_remote, true);
    assert_eq!(list[2].tracked_by, None);

    let current: Vec<&Branch> = list.iter().filter(|b| b.is_current).collect();
    assert_eq!(current.len(), 1);
    for b in &list {
        assert!(!(b.is_remote && b.tracked_by.is_some()));
    }
}

#[test]
fn it_drops_blank_listing_lines() {
    let map = TrackingMap::new();
    let list = branches("main\n\n   \nfeature\n", &map);
    assert_eq!(list.len(), 2);
    assert_eq!(list[0].name, "main");
    assert_eq!(list[1].name, "feature");
}

#[test]
fn it_finds_a_branch_by_name() {
    let map = TrackingMap::new();
    let list = branches("* main\nfeature/x\n", &map);
    let found = find_branch(&list, &String::from("feature/x")).unwrap();
    assert_eq!(found.name, "feature/x");
    assert_eq!(found.is_current, false);
    assert!(find_branch(&list, &String::from("absent")).is_none());
}

#[test]
fn branch_new_keeps_its_parts() {
    let b = Branch::new(String::from("main"), true, false, None);
    assert_eq!(b.name, "main");
    assert_eq!(b.is_current, true);
    assert_eq!(b.is_remote, false);
    assert_eq!(b.tracked_by, None);
}
