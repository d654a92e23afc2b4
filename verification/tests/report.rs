//! What a report is made of besides verdicts: the shared source directory and
//! the ranking of unmodelled atoms.

use eoti::diag::{Findings, common, ranked, shorten};
use eoti::solver::Clash;

fn path(parts: &[&str]) -> Vec<String> {
    parts.iter().map(|part| (*part).to_owned()).collect()
}

#[test]
fn shares_the_longest_common_prefix_of_two_directories() {
    let known = path(&["/", "eo", "target", "1-parse", "org"]);
    let other = path(&["/", "eo", "target", "1-parse", "sys"]);
    assert_eq!(shorten(&known, &other), path(&["/", "eo", "target", "1-parse"]));
}

#[test]
fn shares_all_of_a_directory_that_begins_the_other() {
    let known = path(&["/", "eo"]);
    let other = path(&["/", "eo", "sub"]);
    assert_eq!(shorten(&known, &other), known);
    assert_eq!(shorten(&other, &known), known);
}

#[test]
fn shares_nothing_with_an_unrelated_directory() {
    assert!(shorten(&path(&["a", "b"]), &path(&["c", "b"])).is_empty());
    assert!(shorten(&path(&["a"]), &Vec::new()).is_empty());
}

#[test]
fn a_directory_shares_all_of_itself_with_itself() {
    let dir = path(&["x", "y", "z"]);
    assert_eq!(shorten(&dir, &dir), dir);
}

#[test]
fn the_common_directory_begins_every_input() {
    let dirs = vec![
        path(&["r", "a", "b"]),
        path(&["r", "a", "c"]),
        path(&["r", "a", "b", "d"]),
    ];
    let shared = common(&dirs);
    assert_eq!(shared, path(&["r", "a"]));
    for dir in &dirs {
        assert_eq!(&dir[..shared.len()], &shared[..]);
    }
}

#[test]
fn the_common_directory_of_one_is_itself_and_of_none_is_empty() {
    assert_eq!(common(&vec![path(&["only", "one"])]), path(&["only", "one"]));
    assert!(common(&Vec::new()).is_empty());
}

#[test]
fn ranks_the_most_reached_first_then_by_name() {
    let counts = vec![
        ("posix".to_owned(), 2),
        ("malloc".to_owned(), 7),
        ("cage".to_owned(), 2),
        ("as-i8".to_owned(), 1),
        ("Φ".to_owned(), 2),
    ];
    let order: Vec<(String, usize)> = ranked(&counts);
    let names: Vec<&str> = order.iter().map(|(name, _)| name.as_str()).collect();
    assert_eq!(names, vec!["malloc", "cage", "posix", "Φ", "as-i8"]);
}

#[test]
fn ranking_keeps_every_entry() {
    let counts = vec![("b".to_owned(), 1), ("a".to_owned(), 1), ("b".to_owned(), 1)];
    let mut order = ranked(&counts);
    assert_eq!(order.len(), 3);
    order.sort();
    let mut expected = counts.clone();
    expected.sort();
    assert_eq!(order, expected);
}

#[test]
fn a_name_sorts_before_every_longer_name_it_begins() {
    let counts = vec![("abc".to_owned(), 3), ("ab".to_owned(), 3)];
    let order = ranked(&counts);
    assert_eq!(order[0].0, "ab");
}

#[test]
fn a_run_with_only_typed_objects_passes() {
    let mut findings = Findings::new();
    findings.typed();
    findings.typed();
    assert_eq!(findings.objects, 2);
    assert_eq!(findings.clean(), 2);
    assert_eq!(findings.errors(), 0);
    assert!(findings.passed());
}

#[test]
fn a_refusal_stops_the_build_but_running_out_of_budget_only_flags() {
    let mut findings = Findings::new();
    findings.rejected(&Clash::Exhausted);
    assert_eq!((findings.refused, findings.flagged), (0, 1));
    assert!(findings.passed(), "a flag alone stopped the build");
    findings.rejected(&Clash::Unbound { name: "x".to_owned() });
    assert_eq!((findings.refused, findings.flagged), (1, 1));
    assert_eq!(findings.objects, 2);
    assert_eq!(findings.clean(), 0);
    assert_eq!(findings.errors(), 1);
    assert!(!findings.passed());
}

#[test]
fn an_unreadable_input_and_a_broken_forma_are_errors() {
    let mut findings = Findings::new();
    findings.unreadable();
    findings.dangling();
    findings.dangling();
    assert_eq!(findings.errors(), 3);
    assert_eq!(findings.objects, 0);
    assert!(!findings.passed());
}
