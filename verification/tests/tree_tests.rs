use procmon::tree::{kill_order, process_tree_lines};

fn row(pid: &str, parent: &str, name: &str) -> Vec<String> {
    let mut r: Vec<String> = vec![pid.to_string(), "root".to_string(), parent.to_string()];
    for _ in 3..11 {
        r.push(String::new());
    }
    r.push(name.to_string());
    r
}

#[test]
fn tree_of_processes() {
    let items = vec![
        row("1", "", "systemd"),
        row("20", "1", "sshd"),
        row("300", "20", "bash"),
        row("21", "1", "cron"),
    ];
    let lines = process_tree_lines(&items, &"1".to_string(), 0).unwrap();
    assert_eq!(
        lines,
        vec![
            "systemd──(1)".to_string(),
            "        └──── sshd (20)".to_string(),
            "                └──── bash (300)".to_string(),
            "        └──── cron (21)".to_string(),
        ]
    );
}

#[test]
fn tree_of_an_unknown_process() {
    let items = vec![row("5", "1", "a")];
    let lines = process_tree_lines(&items, &"42".to_string(), 2).unwrap();
    assert_eq!(lines, vec!["    └────  (42)".to_string()]);
}

#[test]
fn tree_with_a_cycle_never_ends() {
    let items = vec![row("7", "8", "a"), row("8", "7", "b")];
    assert_eq!(process_tree_lines(&items, &"7".to_string(), 0), None);
}

#[test]
fn kill_order_children_first() {
    let table = vec![(10, Some(1)), (11, Some(10)), (12, Some(1)), (13, Some(11)), (1, None)];
    assert_eq!(kill_order(&table, 1), Some(vec![13, 11, 10, 12, 1]));
    assert_eq!(kill_order(&table, 12), Some(vec![12]));
}

#[test]
fn kill_order_with_empty_snapshot() {
    assert_eq!(kill_order(&Vec::new(), 77), Some(vec![77]));
}

#[test]
fn kill_order_with_a_cycle() {
    let table = vec![(2, Some(3)), (3, Some(2))];
    assert_eq!(kill_order(&table, 2), None);
}
