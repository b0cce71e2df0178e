use procman::coalesce::{absorb_row, find_representative};
use procman::ranking::may_precede;
use procman::text::{chars_of, fold, occurs, occurs_here};
use procman::{ProcessInfo, SortKey};

fn row(pid: u32, name: &str) -> ProcessInfo {
    ProcessInfo {
        pid,
        name: name.to_string(),
        cpu_usage: Some(u64::from(pid)),
        memory_usage: None,
    }
}

fn pids(rows: &[ProcessInfo]) -> Vec<u32> {
    rows.iter().map(|row| row.pid).collect()
}

#[test]
fn figure_is_the_one_the_key_selects() {
    let info = ProcessInfo {
        pid: 1,
        name: "a".to_string(),
        cpu_usage: Some(12),
        memory_usage: Some(34),
    };
    assert_eq!(info.figure(SortKey::Cpu), Some(12));
    assert_eq!(info.figure(SortKey::Memory), Some(34));
    assert_eq!(row(1, "a").figure(SortKey::Memory), None);
}

#[test]
fn nothing_but_the_undefined_stands_behind_the_undefined() {
    assert!(may_precede(Some(2), Some(1)));
    assert!(may_precede(Some(1), Some(1)));
    assert!(!may_precede(Some(1), Some(2)));
    assert!(may_precede(Some(0), None));
    assert!(may_precede(None, None));
    assert!(!may_precede(None, Some(0)));
    assert!(!may_precede(None, Some(u64::MAX)));
}

#[test]
fn the_representative_is_the_row_of_that_name() {
    let rows = vec![row(1, "a"), row(2, "b"), row(3, "c")];
    assert_eq!(find_representative(&rows, &"a".to_string()), Some(0));
    assert_eq!(find_representative(&rows, &"c".to_string()), Some(2));
    assert_eq!(find_representative(&rows, &"A".to_string()), None);
    assert_eq!(find_representative(&rows, &String::new()), None);
    assert_eq!(find_representative(&Vec::new(), &"a".to_string()), None);
    let twice = vec![row(1, "a"), row(2, "a")];
    assert_eq!(find_representative(&twice, &"a".to_string()), Some(0));
}

#[test]
fn the_first_of_a_name_joins_at_the_end() {
    let mut rows = vec![row(1, "a")];
    absorb_row(&mut rows, row(2, "b"), None);
    absorb_row(&mut rows, row(3, "c"), Some(1));
    assert_eq!(pids(&rows), vec![1, 2, 3]);
}

#[test]
fn a_later_one_of_a_name_stays_out_or_takes_over() {
    let mut rows = vec![row(1, "a"), row(2, "b"), row(3, "c")];
    absorb_row(&mut rows, row(4, "b"), Some(2));
    assert_eq!(pids(&rows), vec![1, 2, 3]);
    absorb_row(&mut rows, row(5, "b"), None);
    assert_eq!(pids(&rows), vec![1, 2, 3]);
    absorb_row(&mut rows, row(6, "b"), Some(1));
    assert_eq!(pids(&rows), vec![1, 3, 6]);
    absorb_row(&mut rows, row(7, "b"), Some(2));
    assert_eq!(pids(&rows), vec![1, 3, 7]);
    absorb_row(&mut rows, row(8, "a"), Some(0));
    assert_eq!(pids(&rows), vec![3, 7, 8]);
}

fn chars(text: &str) -> Vec<char> {
    text.chars().collect()
}

#[test]
fn chars_of_gives_the_characters_in_order() {
    assert_eq!(chars_of(""), Vec::<char>::new());
    assert_eq!(chars_of("abc"), vec!['a', 'b', 'c']);
    assert_eq!(chars_of("grün"), vec!['g', 'r', 'ü', 'n']);
}

#[test]
fn fold_gives_the_characters_in_lower_case() {
    assert_eq!(fold("Worker"), chars("worker"));
    assert_eq!(fold("GRÜN 7"), chars("grün 7"));
    assert_eq!(fold(""), Vec::<char>::new());
}

#[test]
fn occurs_here_looks_at_one_position() {
    let text = chars("worker");
    assert!(occurs_here(&chars("work"), &text, 0));
    assert!(!occurs_here(&chars("work"), &text, 1));
    assert!(occurs_here(&chars("er"), &text, 4));
    assert!(!occurs_here(&chars("er"), &text, 5));
    assert!(occurs_here(&chars(""), &text, 6));
    assert!(!occurs_here(&chars(""), &text, 7));
    assert!(!occurs_here(&chars("w"), &text, usize::MAX));
}

#[test]
fn occurs_finds_a_run_of_characters() {
    let text = chars("worker");
    assert!(occurs(&chars("work"), &text));
    assert!(occurs(&chars("er"), &text));
    assert!(occurs(&chars("rke"), &text));
    assert!(occurs(&chars("worker"), &text));
    assert!(occurs(&chars(""), &text));
    assert!(occurs(&chars(""), &chars("")));
    assert!(!occurs(&chars("Work"), &text));
    assert!(!occurs(&chars("wrk"), &text));
    assert!(!occurs(&chars("workers"), &text));
    assert!(!occurs(&chars("w"), &chars("")));
    assert!(occurs(&chars("aab"), &chars("aaab")));
    assert!(occurs(&chars("ün"), &chars("grün")));
}
