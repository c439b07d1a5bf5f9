use branchpick::text::{split_lines, split_sep, trim};

#[test]
fn trimming_removes_surrounding_whitespace() {
    assert_eq!(trim("  feature/x \t"), "feature/x");
    assert_eq!(trim("feature/x"), "feature/x");
    assert_eq!(trim("   "), "");
    assert_eq!(trim(""), "");
}

#[test]
fn splitting_lines_keeps_every_piece_in_order() {
    assert_eq!(split_lines("a\nb\nc"), vec!["a", "b", "c"]);
    assert_eq!(split_lines("a\n"), vec!["a", ""]);
    assert_eq!(split_lines(""), vec![""]);
    assert_eq!(split_lines("\n"), vec!["", ""]);
}

#[test]
fn splitting_on_the_separator_keeps_every_piece_in_order() {
    assert_eq!(split_sep("main <- origin/main"), vec!["main ", " origin/main"]);
    assert_eq!(split_sep("main <- "), vec!["main ", " "]);
    assert_eq!(split_sep("a<-b<-c"), vec!["a", "b", "c"]);
    assert_eq!(split_sep("plain"), vec!["plain"]);
    assert_eq!(split_sep("a<-"), vec!["a", ""]);
}
