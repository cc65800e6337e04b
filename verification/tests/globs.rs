use uu_grep::globset::{globs_from, GlobSet};

#[test]
fn empty_set_matches_nothing() {
    let g = GlobSet::new();
    assert!(g.is_empty());
    assert!(!g.matches(Some("a.txt")));
    let d: GlobSet = Default::default();
    assert!(d.is_empty());
    let c = GlobSet::with_capacity(4);
    assert!(c.is_empty());
}

#[test]
fn added_globs_match_names() {
    let mut g = GlobSet::new();
    assert!(g.add("*.txt").is_ok());
    assert!(!g.is_empty());
    assert!(g.matches(Some("a.txt")));
    assert!(!g.matches(Some("b.log")));
    assert!(!g.matches(None));
    assert!(g.add("b.*").is_ok());
    assert!(g.matches(Some("b.log")));
    assert!(g.matches(Some("a.txt")));
}

#[test]
fn literal_glob_matches_only_itself() {
    let mut g = GlobSet::new();
    assert!(g.add("sub").is_ok());
    assert!(g.matches(Some("sub")));
    assert!(!g.matches(Some("sub2")));
    assert!(!g.matches(Some("su")));
}

#[test]
fn invalid_glob_is_reported_and_not_added() {
    let mut g = GlobSet::new();
    let e = g.add("***").unwrap_err();
    assert_eq!(e.pattern, "***");
    assert_eq!(e.position, 2);
    assert_eq!(e.message, "wildcards are either regular `*` or recursive `**`");
    assert!(g.is_empty());
    let e = g.add("a[").unwrap_err();
    assert_eq!(e.pattern, "a[");
    assert_eq!(e.position, 1);
    assert_eq!(e.message, "invalid range pattern");
    assert!(g.is_empty());
}

#[test]
fn globs_from_stops_at_first_invalid() {
    let g = globs_from(&["*.txt", "*.log"]).ok().unwrap();
    assert!(g.matches(Some("x.log")));
    let e = globs_from(&["*.txt", "[", "***"]).err().unwrap();
    assert_eq!(e.pattern, "[");
    assert!(globs_from(&[]).ok().unwrap().is_empty());
}

#[test]
fn exclude_file_lines_are_trimmed_and_blank_ones_skipped() {
    let mut g = GlobSet::new();
    assert!(g.add_pattern_lines("*.log\n   \n\tb.tmp \r\n").is_ok());
    assert!(g.matches(Some("a.log")));
    assert!(g.matches(Some("b.tmp")));
    assert!(!g.matches(Some("c.tmp")));
    assert!(!g.matches(Some("a.txt")));
}

#[test]
fn exclude_file_with_invalid_line_keeps_earlier_globs() {
    let mut g = GlobSet::new();
    let e = g.add_pattern_lines("*.log\n  a**b \n*.tmp\n").unwrap_err();
    assert_eq!(e.pattern, "a**b");
    assert_eq!(e.position, 0);
    assert_eq!(e.message, "recursive wildcards must form a single path component");
    assert!(g.matches(Some("x.log")));
    assert!(!g.matches(Some("x.tmp")));
}

#[test]
fn empty_exclude_file_adds_nothing() {
    let mut g = GlobSet::new();
    assert!(g.add_pattern_lines("").is_ok());
    assert!(g.is_empty());
}

#[test]
fn set_stays_empty_when_no_add_succeeds() {
    let mut g = GlobSet::new();
    assert!(g.add("***").is_err());
    assert!(g.add("[").is_err());
    assert!(g.is_empty());
    assert!(g.add("x").is_ok());
    assert!(!g.is_empty());
}
