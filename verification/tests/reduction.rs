use procman::ranking::sort_processes;
use procman::reducer::row_of;
use procman::usage::RAW_CPU_UNITS_PER_PERCENT;
use procman::{get_processes, reduce, ProcessInfo, RawProcessRecord, Snapshot, SortKey};

fn record(pid: u32, name: &str, parent: Option<u32>, cpu_percent: u64, memory_bytes: u64) -> RawProcessRecord {
    RawProcessRecord {
        pid,
        name: Some(name.to_string()),
        parent,
        cpu_usage_raw: Some(cpu_percent * RAW_CPU_UNITS_PER_PERCENT),
        memory_bytes,
    }
}

fn snapshot_of(records: Vec<RawProcessRecord>) -> Snapshot {
    let mut snapshot = Snapshot::new(1_000_000, 1);
    for r in records {
        snapshot.insert(r);
    }
    snapshot
}

fn pids(rows: &[ProcessInfo]) -> Vec<u32> {
    rows.iter().map(|row| row.pid).collect()
}

#[test]
fn empty_snapshot_gives_no_rows() {
    let snapshot = Snapshot::new(1_000_000, 4);
    assert!(reduce(&snapshot, SortKey::Cpu, "").is_empty());
    assert!(reduce(&snapshot, SortKey::Memory, "x").is_empty());
}

#[test]
fn pid_zero_is_never_shown() {
    let snapshot = snapshot_of(vec![
        record(0, "idle", None, 90, 10),
        record(1, "init", Some(0), 1, 10),
    ]);
    assert_eq!(pids(&reduce(&snapshot, SortKey::Cpu, "")), vec![1]);
    assert_eq!(pids(&reduce(&snapshot, SortKey::Memory, "i")), vec![1]);
    assert!(reduce(&snapshot, SortKey::Cpu, "idle").is_empty());
}

#[test]
fn a_name_that_could_not_be_decoded_is_skipped() {
    let mut snapshot = Snapshot::new(1_000_000, 1);
    snapshot.insert(RawProcessRecord {
        pid: 5,
        name: None,
        parent: None,
        cpu_usage_raw: Some(0),
        memory_bytes: 0,
    });
    snapshot.insert(record(6, "shell", None, 2, 5));
    assert_eq!(pids(&reduce(&snapshot, SortKey::Cpu, "")), vec![6]);
}

#[test]
fn filter_keeps_the_names_that_contain_it() {
    let snapshot = snapshot_of(vec![
        record(1, "firefox", None, 5, 10),
        record(2, "bash", None, 4, 10),
        record(3, "Firewall", None, 3, 10),
        record(4, "campfire", None, 2, 10),
    ]);
    let rows = reduce(&snapshot, SortKey::Cpu, "fire");
    assert_eq!(pids(&rows), vec![1, 3, 4]);
    for row in &rows {
        assert!(row.name.to_lowercase().contains("fire"));
    }
}

#[test]
fn filter_ignores_case_on_both_sides() {
    let snapshot = snapshot_of(vec![
        record(1, "Worker", None, 5, 10),
        record(2, "bash", None, 4, 10),
    ]);
    assert_eq!(pids(&reduce(&snapshot, SortKey::Cpu, "WORK")), vec![1]);
    assert_eq!(pids(&reduce(&snapshot, SortKey::Cpu, "work")), vec![1]);
    assert_eq!(pids(&reduce(&snapshot, SortKey::Cpu, "BaSh")), vec![2]);
}

#[test]
fn filter_folds_letters_beyond_ascii() {
    let snapshot = snapshot_of(vec![record(1, "ÄPFEL-dienst", None, 5, 10)]);
    assert_eq!(pids(&reduce(&snapshot, SortKey::Cpu, "äpfel")), vec![1]);
    assert_eq!(pids(&reduce(&snapshot, SortKey::Cpu, "Äpfel-D")), vec![1]);
}

#[test]
fn filter_that_occurs_nowhere_gives_no_rows() {
    let snapshot = snapshot_of(vec![
        record(1, "worker", None, 5, 10),
        record(2, "bash", None, 4, 10),
    ]);
    assert!(reduce(&snapshot, SortKey::Cpu, "xyz").is_empty());
    assert!(reduce(&snapshot, SortKey::Cpu, "workers").is_empty());
}

#[test]
fn empty_filter_keeps_every_row() {
    let snapshot = snapshot_of(vec![
        record(1, "a", None, 1, 10),
        record(2, "b", None, 2, 10),
        record(3, "a", Some(1), 3, 10),
        record(0, "idle", None, 9, 10),
    ]);
    let rows = reduce(&snapshot, SortKey::Cpu, "");
    assert_eq!(pids(&rows), vec![2, 1]);
}

#[test]
fn rows_stand_by_descending_cpu_figure() {
    let snapshot = snapshot_of(vec![
        record(1, "a", None, 10, 300),
        record(2, "b", None, 30, 100),
        record(3, "c", None, 20, 200),
    ]);
    let rows = reduce(&snapshot, SortKey::Cpu, "");
    assert_eq!(pids(&rows), vec![2, 3, 1]);
    let figures: Vec<Option<u64>> = rows.iter().map(|row| row.cpu_usage).collect();
    assert_eq!(figures, vec![Some(3000), Some(2000), Some(1000)]);
}

#[test]
fn rows_stand_by_descending_memory_figure() {
    let snapshot = snapshot_of(vec![
        record(1, "a", None, 10, 300),
        record(2, "b", None, 30, 100),
        record(3, "c", None, 20, 200),
    ]);
    let rows = reduce(&snapshot, SortKey::Memory, "");
    assert_eq!(pids(&rows), vec![1, 3, 2]);
    let figures: Vec<Option<u64>> = rows.iter().map(|row| row.memory_usage).collect();
    assert_eq!(figures, vec![Some(3), Some(2), Some(1)]);
}

#[test]
fn a_figure_that_is_not_a_number_stands_last() {
    let mut snapshot = Snapshot::new(1_000_000, 1);
    snapshot.insert(RawProcessRecord {
        pid: 1,
        name: Some("odd".to_string()),
        parent: None,
        cpu_usage_raw: None,
        memory_bytes: 900_000,
    });
    snapshot.insert(record(2, "low", None, 0, 1_000));
    snapshot.insert(record(3, "high", None, 50, 2_000));
    let by_cpu = reduce(&snapshot, SortKey::Cpu, "");
    assert_eq!(pids(&by_cpu), vec![3, 2, 1]);
    assert_eq!(by_cpu[2].cpu_usage, None);
    let by_memory = reduce(&snapshot, SortKey::Memory, "");
    assert_eq!(pids(&by_memory), vec![1, 3, 2]);
}

#[test]
fn rows_that_tie_keep_their_order() {
    let snapshot = snapshot_of(vec![
        record(4, "d", None, 5, 10),
        record(1, "a", None, 5, 10),
        record(3, "c", None, 7, 10),
        record(2, "b", None, 5, 10),
    ]);
    assert_eq!(pids(&reduce(&snapshot, SortKey::Cpu, "")), vec![3, 1, 2, 4]);
    assert_eq!(pids(&reduce(&snapshot, SortKey::Memory, "")), vec![1, 2, 3, 4]);
}

#[test]
fn sort_processes_orders_any_rows() {
    let row = |pid: u32, cpu: Option<u64>, memory: Option<u64>| ProcessInfo {
        pid,
        name: format!("p{}", pid),
        cpu_usage: cpu,
        memory_usage: memory,
    };
    let mut rows = vec![
        row(1, None, Some(1)),
        row(2, Some(0), None),
        row(3, Some(u64::MAX), Some(1)),
        row(4, None, Some(2)),
        row(5, Some(0), None),
    ];
    sort_processes(&mut rows, SortKey::Cpu);
    assert_eq!(pids(&rows), vec![3, 2, 5, 1, 4]);
    sort_processes(&mut rows, SortKey::Memory);
    assert_eq!(pids(&rows), vec![4, 3, 1, 2, 5]);
    let again = rows.clone();
    sort_processes(&mut rows, SortKey::Memory);
    assert_eq!(rows, again);
    let mut none: Vec<ProcessInfo> = Vec::new();
    sort_processes(&mut none, SortKey::Cpu);
    assert!(none.is_empty());
}

#[test]
fn a_newcomer_with_another_parent_replaces_the_representative() {
    let snapshot = snapshot_of(vec![
        record(10, "worker", Some(1), 1, 10),
        record(11, "worker", Some(2), 2, 20),
    ]);
    let rows = reduce(&snapshot, SortKey::Cpu, "");
    assert_eq!(pids(&rows), vec![11]);
    assert_eq!(rows[0].name, "worker");
    assert_eq!(rows[0].cpu_usage, Some(200));
}

#[test]
fn two_of_a_name_with_the_same_parent_leave_one_row() {
    let snapshot = snapshot_of(vec![
        record(10, "worker", Some(1), 1, 10),
        record(11, "worker", Some(1), 2, 20),
    ]);
    let rows = reduce(&snapshot, SortKey::Cpu, "");
    assert_eq!(rows.len(), 1);
    assert_eq!(rows[0].pid, 11);
}

#[test]
fn a_child_of_the_representative_is_dropped() {
    let snapshot = snapshot_of(vec![
        record(10, "browser", Some(1), 1, 10),
        record(11, "browser", Some(10), 50, 20),
        record(12, "browser", Some(10), 60, 30),
    ]);
    let rows = reduce(&snapshot, SortKey::Cpu, "");
    assert_eq!(pids(&rows), vec![10]);
    assert_eq!(rows[0].cpu_usage, Some(100));
    assert_eq!(rows[0].memory_usage, Some(0));
}

#[test]
fn a_newcomer_without_parent_is_dropped() {
    let snapshot = snapshot_of(vec![
        record(10, "daemon", Some(1), 1, 10),
        record(11, "daemon", None, 50, 20),
    ]);
    assert_eq!(pids(&reduce(&snapshot, SortKey::Cpu, "")), vec![10]);
}

#[test]
fn a_replaced_representative_joins_at_the_end() {
    let snapshot = snapshot_of(vec![
        record(1, "a", None, 5, 10),
        record(2, "b", None, 5, 10),
        record(3, "a", Some(9), 5, 10),
    ]);
    assert_eq!(pids(&reduce(&snapshot, SortKey::Cpu, "")), vec![2, 3]);
}

#[test]
fn no_two_rows_bear_the_same_name() {
    let snapshot = snapshot_of(vec![
        record(1, "a", None, 1, 10),
        record(2, "a", Some(7), 2, 10),
        record(3, "b", Some(1), 3, 10),
        record(4, "a", Some(2), 4, 10),
        record(5, "b", Some(3), 5, 10),
        record(6, "b", Some(4), 6, 10),
    ]);
    let rows = reduce(&snapshot, SortKey::Cpu, "");
    assert_eq!(pids(&rows), vec![6, 2]);
    let mut names: Vec<&str> = rows.iter().map(|row| row.name.as_str()).collect();
    names.sort();
    names.dedup();
    assert_eq!(names.len(), rows.len());
}

#[test]
fn names_differ_by_case() {
    let snapshot = snapshot_of(vec![
        record(1, "Worker", None, 1, 10),
        record(2, "worker", Some(9), 2, 10),
    ]);
    assert_eq!(pids(&reduce(&snapshot, SortKey::Cpu, "worker")), vec![2, 1]);
}

#[test]
fn a_record_that_does_not_pass_takes_no_part_in_coalescing() {
    let snapshot = snapshot_of(vec![
        record(0, "worker", None, 1, 10),
        record(1, "worker", Some(0), 2, 10),
    ]);
    assert_eq!(pids(&reduce(&snapshot, SortKey::Cpu, "")), vec![1]);
}

#[test]
fn reducing_twice_gives_the_same_rows() {
    let snapshot = snapshot_of(vec![
        record(1, "a", None, 1, 30),
        record(2, "a", Some(7), 2, 20),
        record(3, "b", Some(1), 2, 10),
        record(4, "c", Some(1), 2, 10),
    ]);
    for key in [SortKey::Cpu, SortKey::Memory] {
        for filter in ["", "a", "B", "zz"] {
            let first = reduce(&snapshot, key, filter);
            let second = reduce(&snapshot, key, filter);
            assert_eq!(first, second);
        }
    }
}

#[test]
fn the_order_of_insertion_does_not_matter() {
    let records = vec![
        record(1, "a", None, 1, 30),
        record(2, "a", Some(7), 2, 20),
        record(3, "b", Some(1), 2, 10),
        record(4, "a", Some(3), 2, 10),
    ];
    let forward = snapshot_of(records.clone());
    let backward = snapshot_of(records.into_iter().rev().collect());
    assert_eq!(forward.records(), backward.records());
    assert_eq!(
        reduce(&forward, SortKey::Cpu, ""),
        reduce(&backward, SortKey::Cpu, "")
    );
}

#[test]
fn figures_are_those_of_the_representative_alone() {
    let mut snapshot = Snapshot::new(20_000, 4);
    snapshot.insert(RawProcessRecord {
        pid: 7,
        name: Some("job".to_string()),
        parent: None,
        cpu_usage_raw: Some(150 * RAW_CPU_UNITS_PER_PERCENT),
        memory_bytes: 5_000,
    });
    snapshot.insert(record(8, "job", Some(7), 100, 10_000));
    let rows = reduce(&snapshot, SortKey::Cpu, "");
    assert_eq!(
        rows,
        vec![ProcessInfo {
            pid: 7,
            name: "job".to_string(),
            cpu_usage: Some(3750),
            memory_usage: Some(2500),
        }]
    );
}

#[test]
fn row_of_gives_no_row_for_what_is_never_shown() {
    assert_eq!(row_of(&record(0, "idle", None, 1, 1), 100, 1), None);
    let nameless = RawProcessRecord {
        pid: 3,
        name: None,
        parent: None,
        cpu_usage_raw: None,
        memory_bytes: 1,
    };
    assert_eq!(row_of(&nameless, 100, 1), None);
    assert_eq!(
        row_of(&record(3, "x", None, 1, 50), 100, 2),
        Some(ProcessInfo {
            pid: 3,
            name: "x".to_string(),
            cpu_usage: Some(50),
            memory_usage: Some(5000),
        })
    );
}

#[test]
fn get_processes_reads_the_sort_label() {
    let snapshot = snapshot_of(vec![
        record(1, "a", None, 10, 300),
        record(2, "b", None, 30, 100),
    ]);
    let by = |label: &str| pids(&get_processes(&snapshot, label.to_string(), String::new()));
    assert_eq!(by("CPU"), vec![2, 1]);
    assert_eq!(by("RAM"), vec![1, 2]);
    assert_eq!(by("cpu"), vec![1, 2]);
    assert_eq!(by(""), vec![1, 2]);
    assert_eq!(
        pids(&get_processes(&snapshot, "CPU".to_string(), "B".to_string())),
        vec![2]
    );
}

#[test]
fn sort_key_from_label() {
    assert_eq!(SortKey::from_label(&"CPU".to_string()), SortKey::Cpu);
    assert_eq!(SortKey::from_label(&"RAM".to_string()), SortKey::Memory);
    assert_eq!(SortKey::from_label(&"CPU ".to_string()), SortKey::Memory);
}
