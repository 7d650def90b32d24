use procmon::summary::{summary_lines, SystemSummary};
use procmon::rows::{
    filter_by_user, process_row, row_height, sort_rows, ProcStatus, ProcessInfo,
};

fn info(pid: u32, parent: Option<u32>, user: &str, name: &str) -> ProcessInfo {
    ProcessInfo {
        pid,
        parent,
        user_name: user.to_string(),
        virtual_memory: 8 * 1024 * 1024 * 1024,
        memory: 4 * 1024 * 1024,
        status: ProcStatus::Sleep,
        cpu_usage_text: "0.00%".to_string(),
        mem_usage_text: "0.00%".to_string(),
        run_time: 12,
        raw_priority: 0,
        name: name.to_string(),
    }
}

fn row(cells: &[&str]) -> Vec<String> {
    cells.iter().map(|c| c.to_string()).collect()
}

fn full_row(pid: &str, user: &str, pr: &str, cpu: &str, mem: &str, cmd: &str) -> Vec<String> {
    row(&[pid, user, "1", pr, "0", "0", "0", "S", cpu, mem, "0", cmd])
}

fn column(rows: &[Vec<String>], c: usize) -> Vec<String> {
    rows.iter().map(|r| r[c].clone()).collect()
}

#[test]
fn row_of_a_process() {
    let mut p = info(1234, Some(1), "alice", "bash");
    p.virtual_memory = 20 * 1024 * 1024; // 20480 KiB
    p.memory = 2048 * 1024; // 2048 KiB
    p.status = ProcStatus::Run;
    p.cpu_usage_text = "1.50%".to_string();
    p.mem_usage_text = "0.25%".to_string();
    p.run_time = 7;
    p.raw_priority = -5;
    let r = process_row(&p);
    assert_eq!(
        r,
        row(&["1234", "alice", "1", "15", "-5", "2048", "18", "R", "1.50%", "0.25%", "700", "bash"])
    );
}

#[test]
fn row_without_parent_and_each_state() {
    let mut p = info(1, None, "root", "init");
    p.raw_priority = -1;
    let states = [
        (ProcStatus::Run, "R"),
        (ProcStatus::Sleep, "S"),
        (ProcStatus::Idle, "I"),
        (ProcStatus::Zombie, "Z"),
        (ProcStatus::Other, "U"),
    ];
    for (s, letter) in states {
        p.status = s;
        let r = process_row(&p);
        assert_eq!(r[2], "");
        assert_eq!(r[3], "19");
        assert_eq!(r[4], "-1");
        assert_eq!(r[7], letter);
    }
}

#[test]
fn sort_by_pid_reads_numbers() {
    let rows = vec![
        full_row("100", "a", "0", "0%", "0%", "x"),
        full_row("9", "a", "0", "0%", "0%", "y"),
        full_row("oops", "a", "0", "0%", "0%", "z"),
        full_row("25", "a", "0", "0%", "0%", "w"),
    ];
    let out = sort_rows(rows, 0);
    assert_eq!(column(&out, 0), vec!["oops", "9", "25", "100"]);
}

#[test]
fn sort_by_user_is_stable() {
    let rows = vec![
        full_row("1", "bob", "0", "0%", "0%", "a"),
        full_row("2", "alice", "0", "0%", "0%", "b"),
        full_row("3", "bob", "0", "0%", "0%", "c"),
        full_row("4", "Zed", "0", "0%", "0%", "d"),
        full_row("5", "alice", "0", "0%", "0%", "e"),
    ];
    let out = sort_rows(rows, 1);
    assert_eq!(column(&out, 0), vec!["4", "2", "5", "1", "3"]);
}

#[test]
fn sort_by_priority_highest_first() {
    let rows = vec![
        full_row("1", "u", "20", "0%", "0%", "a"),
        full_row("2", "u", "39", "0%", "0%", "b"),
        full_row("3", "u", "0", "0%", "0%", "c"),
        full_row("4", "u", "39", "0%", "0%", "d"),
    ];
    let out = sort_rows(rows, 3);
    assert_eq!(column(&out, 0), vec!["2", "4", "1", "3"]);
}

#[test]
fn sort_by_cpu_and_memory_highest_first() {
    let rows = vec![
        full_row("1", "u", "0", "1.50%", "9.00%", "a"),
        full_row("2", "u", "0", "12.00%", "0.10%", "b"),
        full_row("3", "u", "0", "3.25%", "9.00%", "c"),
    ];
    let by_cpu = sort_rows(rows.clone(), 8);
    assert_eq!(column(&by_cpu, 0), vec!["2", "3", "1"]);
    let by_mem = sort_rows(rows, 9);
    assert_eq!(column(&by_mem, 0), vec!["1", "3", "2"]);
}

#[test]
fn sort_by_command_ignores_case() {
    let rows = vec![
        full_row("1", "u", "0", "0%", "0%", "bash"),
        full_row("2", "u", "0", "0%", "0%", "Xorg"),
        full_row("3", "u", "0", "0%", "0%", "Bash"),
        full_row("4", "u", "0", "0%", "0%", "apt"),
    ];
    let out = sort_rows(rows, 11);
    assert_eq!(column(&out, 0), vec!["4", "1", "3", "2"]);
}

#[test]
fn unknown_sort_mode_keeps_order() {
    let rows = vec![
        full_row("3", "u", "0", "0%", "0%", "a"),
        full_row("1", "u", "0", "0%", "0%", "b"),
    ];
    assert_eq!(sort_rows(rows.clone(), 5), rows);
    assert_eq!(sort_rows(rows.clone(), -1), rows);
}

#[test]
fn sorting_short_tables() {
    assert_eq!(sort_rows(Vec::new(), 0), Vec::<Vec<String>>::new());
    let one = vec![row(&["only"])];
    assert_eq!(sort_rows(one.clone(), 11), one);
}

#[test]
fn filtering_by_user() {
    let rows = vec![
        full_row("1", "alice", "0", "0%", "0%", "a"),
        full_row("2", "bob", "0", "0%", "0%", "b"),
        row(&["3"]),
        full_row("4", "alice", "0", "0%", "0%", "c"),
    ];
    let out = filter_by_user(rows, &"alice".to_string());
    assert_eq!(column(&out, 0), vec!["1", "4"]);
}

#[test]
fn height_of_rows() {
    assert_eq!(row_height(&row(&["a", "b"])), 1);
    assert_eq!(row_height(&row(&["a\nb", "c\nd\ne"])), 3);
    assert_eq!(row_height(&Vec::new()), 1);
}

#[test]
fn sorting_twice_changes_nothing() {
    let rows = vec![
        full_row("3", "bob", "20", "1.00%", "2.00%", "Zsh"),
        full_row("1", "amy", "39", "5.00%", "0.50%", "bash"),
        full_row("2", "bob", "20", "1.00%", "2.00%", "awk"),
    ];
    for mode in [0, 1, 3, 8, 9, 10, 11] {
        let once = sort_rows(rows.clone(), mode);
        let twice = sort_rows(once.clone(), mode);
        assert_eq!(once, twice, "mode {}", mode);
    }
}

#[test]
fn sort_by_command_non_ascii() {
    let rows = vec![
        full_row("1", "u", "0", "0%", "0%", "Zeta"),
        full_row("2", "u", "0", "0%", "0%", "Émile"),
        full_row("3", "u", "0", "0%", "0%", "alpha"),
    ];
    let out = sort_rows(rows, 11);
    assert_eq!(column(&out, 0), vec!["3", "1", "2"]);
}

#[test]
fn system_summary_lines() {
    let s = SystemSummary {
        name: "Debian".to_string(),
        cores: 8,
        disks: 2,
        kernel_version: "6.1.0".to_string(),
        total_memory: 16000,
        available_memory: 9000,
        free_memory: 4000,
        used_memory: 7000,
        processes: 312,
        cpu_usage_text: format!("{:.3}", 12.5f64),
        mem_usage_text: format!("{:.3}", 43.75f64),
    };
    assert_eq!(
        summary_lines(&s),
        vec![
            "System name = Debian".to_string(),
            "Number of cores = 8".to_string(),
            "Number of disks = 2".to_string(),
            "Kernel version = 6.1.0".to_string(),
            "Total memory = 16000 bytes".to_string(),
            "Available memory = 9000 bytes".to_string(),
            "Free memory \n = 4000 bytes".to_string(),
            "Used memory = 7000 bytes".to_string(),
            "Number of processes = 312 process".to_string(),
            "CPU usage  = 12.500 %".to_string(),
            "Memory usage  = 43.750 %".to_string(),
        ]
    );
}

#[test]
fn sort_by_run_time_longest_first() {
    let mut a = full_row("1", "u", "0", "0%", "0%", "a");
    let mut b = full_row("2", "u", "0", "0%", "0%", "b");
    let mut c = full_row("3", "u", "0", "0%", "0%", "c");
    let mut d = full_row("4", "u", "0", "0%", "0%", "d");
    a[10] = "700".to_string();
    b[10] = "18446744073709551615".to_string();
    c[10] = "x".to_string();
    d[10] = "4294967296".to_string();
    let out = sort_rows(vec![a, b, c, d], 10);
    assert_eq!(column(&out, 0), vec!["2", "4", "1", "3"]);
}
