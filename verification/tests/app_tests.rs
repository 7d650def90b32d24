use procmon::app::{handle_key, tick_due, App, Key, KeyOutcome, KeyPress, Modifiers, Screen};
use procmon::rows::{ProcStatus, ProcessInfo};

fn info(pid: u32, user: &str, name: &str, cpu: &str) -> ProcessInfo {
    ProcessInfo {
        pid,
        parent: Some(1),
        user_name: user.to_string(),
        virtual_memory: 4 * 1024 * 1024,
        memory: 1024 * 1024,
        status: ProcStatus::Run,
        cpu_usage_text: cpu.to_string(),
        mem_usage_text: "0.10%".to_string(),
        run_time: 3,
        raw_priority: 0,
        name: name.to_string(),
    }
}

fn snapshot() -> Vec<ProcessInfo> {
    vec![
        info(30, "bob", "vim", "2.00%"),
        info(4, "alice", "Xorg", "7.50%"),
        info(12, "alice", "bash", "0.30%"),
    ]
}

fn pids(app: &App) -> Vec<String> {
    app.items.iter().map(|r| r[0].clone()).collect()
}

fn press(code: Key, modifiers: Modifiers) -> KeyPress {
    KeyPress { code, modifiers }
}

fn plain(c: char) -> KeyPress {
    press(Key::Char(c), Modifiers::Other)
}

#[test]
fn start_sorted_by_pid() {
    let app = App::new(&snapshot(), String::new());
    assert_eq!(pids(&app), vec!["4", "12", "30"]);
    assert_eq!(app.sort_by_what, 0);
    assert!(app.show_table && app.show_graphs && !app.show_single_process);
    assert_eq!(app.oneP_ID, 0);
    assert_eq!(app.selected, None);
    assert_eq!(app.screen(), Screen::Full);
}

#[test]
fn start_with_one_user() {
    let app = App::new(&snapshot(), "alice".to_string());
    assert_eq!(pids(&app), vec!["4", "12"]);
    assert_eq!(app.user_n, "alice");
}

#[test]
fn tick_sorts_by_mode_and_keeps_user() {
    let mut app = App::new(&snapshot(), "alice".to_string());
    app.sort_by_what = 8;
    app.selected = Some(1);
    app.on_tick(&snapshot());
    assert_eq!(pids(&app), vec!["4", "12"]);
    assert_eq!(app.selected, Some(1));
    app.sort_by_what = 7;
    app.on_tick(&snapshot());
    assert_eq!(pids(&app), vec!["4", "12"]);
    let mut all = App::new(&snapshot(), String::new());
    all.sort_by_what = 8;
    all.on_tick(&snapshot());
    assert_eq!(pids(&all), vec!["4", "30", "12"]);
    all.sort_by_what = 7;
    all.on_tick(&snapshot());
    assert_eq!(pids(&all), vec!["30", "4", "12"]);
}

#[test]
fn moving_down_cycles_through_the_rows() {
    let mut app = App::new(&snapshot(), String::new());
    app.selected = Some(0);
    for k in 1..10usize {
        handle_key(press(Key::Down, Modifiers::Other), &mut app);
        assert_eq!(app.selected, Some(k % 3));
    }
}

#[test]
fn moving_the_selection_wraps() {
    let mut app = App::new(&snapshot(), String::new());
    app.next();
    assert_eq!(app.selected, Some(0));
    app.next();
    app.next();
    assert_eq!(app.selected, Some(2));
    app.next();
    assert_eq!(app.selected, Some(0));
    app.previous();
    assert_eq!(app.selected, Some(2));
    app.previous();
    assert_eq!(app.selected, Some(1));
    let mut fresh = App::new(&snapshot(), String::new());
    fresh.previous();
    assert_eq!(fresh.selected, Some(0));
}

#[test]
fn down_then_up_comes_back() {
    let mut app = App::new(&snapshot(), String::new());
    for start in 0..3usize {
        app.selected = Some(start);
        handle_key(press(Key::Down, Modifiers::Other), &mut app);
        handle_key(press(Key::Up, Modifiers::Other), &mut app);
        assert_eq!(app.selected, Some(start));
    }
}

#[test]
fn view_keys() {
    let mut app = App::new(&snapshot(), String::new());
    assert_eq!(handle_key(plain('t'), &mut app), KeyOutcome::Continue);
    assert_eq!(app.screen(), Screen::TableOnly);
    handle_key(plain('g'), &mut app);
    assert_eq!(app.screen(), Screen::GraphsOnly);
    handle_key(plain('d'), &mut app);
    assert_eq!(app.screen(), Screen::Full);
    app.show_table = false;
    app.show_graphs = false;
    assert_eq!(app.screen(), Screen::Full);
}

#[test]
fn quit_only_on_plain_q() {
    let mut app = App::new(&snapshot(), String::new());
    assert_eq!(handle_key(plain('q'), &mut app), KeyOutcome::Quit);
    assert_eq!(handle_key(press(Key::Char('q'), Modifiers::Shift), &mut app), KeyOutcome::Continue);
    assert_eq!(handle_key(press(Key::Char('Q'), Modifiers::Other), &mut app), KeyOutcome::Continue);
    assert_eq!(handle_key(press(Key::Other, Modifiers::Other), &mut app), KeyOutcome::Continue);
}

#[test]
fn shift_letters_choose_the_sort() {
    let mut app = App::new(&snapshot(), String::new());
    let modes = [('P', 0), ('U', 1), ('N', 3), ('C', 8), ('M', 9), ('T', 10)];
    for (c, m) in modes {
        handle_key(press(Key::Char(c), Modifiers::Shift), &mut app);
        assert_eq!(app.sort_by_what, m);
    }
    handle_key(press(Key::Char('X'), Modifiers::Shift), &mut app);
    assert_eq!(app.sort_by_what, 10);
    handle_key(press(Key::Char('p'), Modifiers::Shift), &mut app);
    assert_eq!(app.sort_by_what, 10);
    handle_key(press(Key::Char('C'), Modifiers::Shift), &mut app);
    app.on_tick(&snapshot());
    assert_eq!(pids(&app), vec!["4", "30", "12"]);
}

#[test]
fn control_searches_commands() {
    let mut app = App::new(&snapshot(), String::new());
    handle_key(press(Key::Char('b'), Modifiers::Control), &mut app);
    assert_eq!(app.selected, Some(1));
    handle_key(press(Key::Char('v'), Modifiers::Control), &mut app);
    assert_eq!(app.selected, Some(2));
    handle_key(press(Key::Char('z'), Modifiers::Control), &mut app);
    assert_eq!(app.selected, Some(2));
    handle_key(press(Key::Char('x'), Modifiers::Control), &mut app);
    assert_eq!(app.selected, Some(2));
}

#[test]
fn enter_toggles_details() {
    let mut app = App::new(&snapshot(), String::new());
    handle_key(press(Key::Enter, Modifiers::Other), &mut app);
    assert!(!app.show_single_process);
    app.selected = Some(2);
    handle_key(press(Key::Enter, Modifiers::Other), &mut app);
    assert!(app.show_single_process);
    assert_eq!(app.oneP_ID, 30);
    assert_eq!(app.screen(), Screen::SingleProcess);
    handle_key(press(Key::Enter, Modifiers::Shift), &mut app);
    assert!(!app.show_single_process);
    assert_eq!(app.screen(), Screen::Full);
}

#[test]
fn k_kills_the_selected_process() {
    let mut app = App::new(&snapshot(), String::new());
    assert_eq!(handle_key(plain('k'), &mut app), KeyOutcome::Continue);
    app.selected = Some(1);
    assert_eq!(handle_key(plain('k'), &mut app), KeyOutcome::Kill(12));
    assert_eq!(handle_key(press(Key::Char('k'), Modifiers::Control), &mut app), KeyOutcome::Continue);
    assert_eq!(app.selected, Some(1));
}

#[test]
fn negative_pid_text_wraps_to_u32() {
    let mut app = App::new(&snapshot(), String::new());
    app.items[0][0] = "-1".to_string();
    app.selected = Some(0);
    assert_eq!(handle_key(plain('k'), &mut app), KeyOutcome::Kill(u32::MAX));
}

#[test]
fn pid_beyond_i32_sorts_as_zero() {
    let procs = vec![info(5, "u", "a", "0.00%"), info(3_000_000_000, "u", "b", "0.00%")];
    let app = App::new(&procs, String::new());
    assert_eq!(pids(&app), vec!["3000000000", "5"]);
}

#[test]
fn shift_t_sorts_by_run_time() {
    let mut procs = snapshot();
    procs[0].run_time = 5;
    procs[1].run_time = 50;
    procs[2].run_time = 500;
    let mut app = App::new(&procs, String::new());
    handle_key(press(Key::Char('T'), Modifiers::Shift), &mut app);
    app.on_tick(&procs);
    assert_eq!(pids(&app), vec!["12", "4", "30"]);
}

#[test]
fn memory_at_infinity_sorts_first() {
    let mut procs = snapshot();
    procs[0].mem_usage_text = "5.00%".to_string();
    procs[1].mem_usage_text = "inf%".to_string();
    procs[2].mem_usage_text = "NaN%".to_string();
    let mut app = App::new(&procs, String::new());
    handle_key(press(Key::Char('M'), Modifiers::Shift), &mut app);
    app.on_tick(&procs);
    assert_eq!(pids(&app), vec!["4", "30", "12"]);
}

#[test]
fn tick_due_when_the_rate_is_reached() {
    assert!(!tick_due(1_999_999_999, 2_000_000_000));
    assert!(tick_due(2_000_000_000, 2_000_000_000));
    assert!(tick_due(2_000_000_001, 2_000_000_000));
}
