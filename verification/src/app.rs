use vstd::prelude::*;
use crate::rows::{
    column_le, law_filter_keeps_exactly, filter_by_user, is_sort_mode, is_stable_sort_of, process_row, process_row_computable,
    law_rows_of_user, process_row_view, row_of_user, rows_of_user, sort_rows, ProcessInfo,
};
use crate::text::{i32_parse, parse_i32, starts_with_char};

verus! {

// ---------------------------------------------------------------------------
// The state of the monitor
// ---------------------------------------------------------------------------

/// The state of the monitor that the keys act on.
#[allow(non_snake_case)]
pub struct App {
    /// The process table, one row of twelve columns per process.
    pub items: Vec<Vec<String>>,
    /// The sort mode of the table (see `is_sort_mode`).
    pub sort_by_what: i32,
    pub show_table: bool,
    pub show_graphs: bool,
    /// Whether the details of one process are shown in place of the table.
    pub show_single_process: bool,
    /// The process whose details are shown.
    pub oneP_ID: u32,
    /// The user whose processes the table started with; empty for all users.
    pub user_n: String,
    /// The selected row of the table.
    pub selected: Option<usize>,
}

/// What the screen shows.
#[derive(Clone, Copy, Debug, PartialEq, Eq)]
pub enum Screen {
    /// The details of the process `oneP_ID`.
    SingleProcess,
    /// Graphs, table, system information and help.
    Full,
    GraphsOnly,
    TableOnly,
}

/// `out` is `rows` in the order of `mode`: a stable sort by `sort_key` when the mode names
/// a sort, and the order given otherwise.
pub open spec fn arranged(out: Seq<Seq<Seq<char>>>, rows: Seq<Seq<Seq<char>>>, mode: i32) -> bool {
    if is_sort_mode(mode) {
        is_stable_sort_of(out, rows, mode)
    } else {
        out == rows
    }
}

/// The rows of a list of processes.
pub open spec fn rows_view(ps: Seq<ProcessInfo>) -> Seq<Seq<Seq<char>>> {
    ps.map_values(|p: ProcessInfo| process_row_view(p))
}

/// Every process of the list has a row that computes without overflow.
pub open spec fn all_computable(ps: Seq<ProcessInfo>) -> bool {
    forall|i: int| 0 <= i < ps.len() ==> process_row_computable(#[trigger] ps[i])
}

fn rows_of(processes: &Vec<ProcessInfo>) -> (rows: Vec<Vec<String>>)
    requires
        all_computable(processes@),
    ensures
        rows.deep_view() == rows_view(processes@),
{
    let mut rows: Vec<Vec<String>> = Vec::new();
    let mut i: usize = 0;
    while i < processes.len()
        invariant
            all_computable(processes@),
            i <= processes.len(),
            rows@.len() == i,
            rows.deep_view() == rows_view(processes@).subrange(0, i as int),
        decreases processes.len() - i,
    {
        let ghost before = rows@;
        let row = process_row(&processes[i]);
        rows.push(row);
        assert(rows.deep_view() =~= rows_view(processes@).subrange(0, i + 1)) by {
            assert forall|l: int| 0 <= l < i implies rows@[l] == before[l] by {}
            assert(rows@[i as int].deep_view() == process_row_view(processes@[i as int]));
        }
        i = i + 1;
    }
    assert(rows_view(processes@).subrange(0, i as int) == rows_view(processes@));
    rows
}

impl App {
    /// The monitor at start: the rows of `processes` sorted by PID, only those of the user
    /// `args` when it is not empty; table and graphs shown, no row selected.
    pub fn new(processes: &Vec<ProcessInfo>, args: String) -> (app: App)
        requires
            all_computable(processes@),
        ensures
            args@.len() == 0 ==> is_stable_sort_of(app.items.deep_view(), rows_view(processes@), 0),
            args@.len() > 0 ==> exists|sorted: Seq<Seq<Seq<char>>>|
                is_stable_sort_of(sorted, rows_view(processes@), 0) && app.items.deep_view()
                    == rows_of_user(sorted, args@),
            args@.len() > 0 ==> forall|i: int|
                0 <= i < app.items.len() ==> row_of_user(#[trigger] app.items.deep_view()[i], args@),
            args@.len() > 0 ==> forall|i: int|
                0 <= i < app.items.len() ==> (#[trigger] app.items.deep_view()[i]).len() > 1
                    && app.items.deep_view()[i][1] == args@,
            forall|i: int, j: int|
                0 <= i < j < app.items.len() ==> column_le(
                    #[trigger] app.items.deep_view()[i],
                    #[trigger] app.items.deep_view()[j],
                    0,
                ),
            app.sort_by_what == 0,
            app.show_table,
            app.show_graphs,
            !app.show_single_process,
            app.oneP_ID == 0,
            app.user_n@ == args@,
            app.selected is None,
    {
        let rows = rows_of(processes);
        let sorted = sort_rows(rows, 0);
        let ghost sv = sorted.deep_view();
        let items = if args.as_str().is_empty() {
            sorted
        } else {
            let kept = filter_by_user(sorted, &args);
            proof {
                law_rows_of_user(sv, args@);
                let pos = law_filter_keeps_exactly(sv, args@);
                let kv = kept.deep_view();
                assert forall|i: int, j: int| 0 <= i < j < kv.len() implies column_le(
                    #[trigger] kv[i],
                    #[trigger] kv[j],
                    0,
                ) by {
                    assert(pos[i] < pos[j]);
                    assert(kv[i] == sv[pos[i]]);
                    assert(kv[j] == sv[pos[j]]);
                }
            }
            kept
        };
        App {
            items,
            sort_by_what: 0,
            show_table: true,
            show_graphs: true,
            show_single_process: false,
            oneP_ID: 0,
            user_n: args,
            selected: None,
        }
    }

    /// Takes a new snapshot of the processes: the table becomes their rows, in the order of
    /// the current sort mode (in the order given when the mode names no sort), and only
    /// those of the user `user_n` when it is not empty. Nothing else changes.
    pub fn on_tick(&mut self, processes: &Vec<ProcessInfo>)
        requires
            all_computable(processes@),
        ensures
            old(self).user_n@.len() == 0 ==> arranged(
                final(self).items.deep_view(),
                rows_view(processes@),
                old(self).sort_by_what,
            ),
            old(self).user_n@.len() > 0 ==> exists|sorted: Seq<Seq<Seq<char>>>|
                arranged(sorted, rows_view(processes@), old(self).sort_by_what)
                    && final(self).items.deep_view() == rows_of_user(sorted, old(self).user_n@),
            old(self).user_n@.len() > 0 ==> forall|i: int|
                0 <= i < final(self).items.len() ==> row_of_user(
                    #[trigger] final(self).items.deep_view()[i],
                    old(self).user_n@,
                ),
            old(self).user_n@.len() == 0 && is_sort_mode(old(self).sort_by_what) ==> is_stable_sort_of(
                final(self).items.deep_view(),
                rows_view(processes@),
                old(self).sort_by_what,
            ),
            old(self).user_n@.len() == 0 && !is_sort_mode(old(self).sort_by_what)
                ==> final(self).items.deep_view() == rows_view(processes@),
            old(self).user_n@.len() > 0 ==> exists|sorted: Seq<Seq<Seq<char>>>|
                (is_sort_mode(old(self).sort_by_what) ==> is_stable_sort_of(
                    sorted,
                    rows_view(processes@),
                    old(self).sort_by_what,
                )) && (!is_sort_mode(old(self).sort_by_what) ==> sorted == rows_view(processes@))
                    && #[trigger] rows_of_user(sorted, old(self).user_n@) == final(self).items.deep_view(),
            old(self).user_n@.len() > 0 ==> forall|i: int|
                0 <= i < final(self).items.len() ==> (#[trigger] final(self).items.deep_view()[i]).len() > 1
                    && final(self).items.deep_view()[i][1] == old(self).user_n@,
            is_sort_mode(old(self).sort_by_what) ==> forall|i: int, j: int|
                0 <= i < j < final(self).items.len() ==> column_le(
                    #[trigger] final(self).items.deep_view()[i],
                    #[trigger] final(self).items.deep_view()[j],
                    old(self).sort_by_what,
                ),
            final(self).sort_by_what == old(self).sort_by_what,
            final(self).show_table == old(self).show_table,
            final(self).show_graphs == old(self).show_graphs,
            final(self).show_single_process == old(self).show_single_process,
            final(self).oneP_ID == old(self).oneP_ID,
            final(self).user_n == old(self).user_n,
            final(self).selected == old(self).selected,
    {
        let rows = rows_of(processes);
        proof {
            assert forall|i: int| 0 <= i < rows.deep_view().len() implies #[trigger] rows.deep_view()[i].len()
                > 11 by {
                assert(rows.deep_view()[i] == process_row_view(processes@[i]));
            }
        }
        let sorted = sort_rows(rows, self.sort_by_what);
        if self.user_n.as_str().is_empty() {
            self.items = sorted;
        } else {
            let ghost sv = sorted.deep_view();
            let kept = filter_by_user(sorted, &self.user_n);
            proof {
                law_rows_of_user(sv, self.user_n@);
                let pos = law_filter_keeps_exactly(sv, self.user_n@);
                let kv = kept.deep_view();
                if is_sort_mode(self.sort_by_what) {
                    assert forall|i: int, j: int| 0 <= i < j < kv.len() implies column_le(
                        #[trigger] kv[i],
                        #[trigger] kv[j],
                        self.sort_by_what,
                    ) by {
                        assert(pos[i] < pos[j]);
                        assert(kv[i] == sv[pos[i]]);
                        assert(kv[j] == sv[pos[j]]);
                    }
                }
            }
            self.items = kept;
        }
    }

    /// Moves the selection one row down, from the last row back to the first; selects the
    /// first row when none is selected.
    pub fn next(&mut self)
        requires
            old(self).selected is Some ==> old(self).items.len() > 0,
        ensures
            final(self).selected == next_selection(old(self).selected, old(self).items@.len()),
            final(self).items == old(self).items,
            final(self).sort_by_what == old(self).sort_by_what,
            final(self).show_table == old(self).show_table,
            final(self).show_graphs == old(self).show_graphs,
            final(self).show_single_process == old(self).show_single_process,
            final(self).oneP_ID == old(self).oneP_ID,
            final(self).user_n == old(self).user_n,
    {
        let i = match self.selected {
            Some(i) => {
                if i >= self.items.len() - 1 {
                    0
                } else {
                    i + 1
                }
            },
            None => 0,
        };
        self.selected = Some(i);
    }

    /// Moves the selection one row up, from the first row round to the last; selects the
    /// first row when none is selected.
    pub fn previous(&mut self)
        requires
            old(self).selected == Some(0usize) ==> old(self).items.len() > 0,
        ensures
            final(self).selected == previous_selection(old(self).selected, old(self).items@.len()),
            final(self).items == old(self).items,
            final(self).sort_by_what == old(self).sort_by_what,
            final(self).show_table == old(self).show_table,
            final(self).show_graphs == old(self).show_graphs,
            final(self).show_single_process == old(self).show_single_process,
            final(self).oneP_ID == old(self).oneP_ID,
            final(self).user_n == old(self).user_n,
    {
        let i = match self.selected {
            Some(i) => {
                if i == 0 {
                    self.items.len() - 1
                } else {
                    i - 1
                }
            },
            None => 0,
        };
        self.selected = Some(i);
    }

    /// What the screen shows in this state.
    pub fn screen(&self) -> (s: Screen)
        ensures
            s == screen_of(self.show_single_process, self.show_graphs, self.show_table),
    {
        if self.show_single_process {
            Screen::SingleProcess
        } else if self.show_graphs == self.show_table {
            Screen::Full
        } else if self.show_graphs {
            Screen::GraphsOnly
        } else {
            Screen::TableOnly
        }
    }
}

/// Whether a tick is due: the time since the last tick, in nanoseconds, has reached the
/// tick rate.
pub fn tick_due(elapsed_nanos: u128, tick_rate_nanos: u128) -> (due: bool)
    ensures
        due == (elapsed_nanos >= tick_rate_nanos),
{
    elapsed_nanos >= tick_rate_nanos
}

/// The selection after moving one row down in a table of `len` rows.
pub open spec fn next_selection(sel: Option<usize>, len: nat) -> Option<usize> {
    match sel {
        Some(i) => if i >= len - 1 {
            Some(0usize)
        } else {
            Some((i + 1) as usize)
        },
        None => Some(0usize),
    }
}

/// The selection after moving one row up in a table of `len` rows.
pub open spec fn previous_selection(sel: Option<usize>, len: nat) -> Option<usize> {
    match sel {
        Some(i) => if i == 0 {
            Some((len - 1) as usize)
        } else {
            Some((i - 1) as usize)
        },
        None => Some(0usize),
    }
}

/// The screen: the details of one process when asked for; else graphs and table together
/// when both or neither are on, or the one that is on.
pub open spec fn screen_of(single: bool, graphs: bool, table: bool) -> Screen {
    if single {
        Screen::SingleProcess
    } else if graphs == table {
        Screen::Full
    } else if graphs {
        Screen::GraphsOnly
    } else {
        Screen::TableOnly
    }
}


// ---------------------------------------------------------------------------
// Keys
// ---------------------------------------------------------------------------

/// The key of a key press, as far as the monitor tells keys apart.
#[derive(Clone, Copy, Debug, PartialEq, Eq)]
pub enum Key {
    Char(char),
    Enter,
    Down,
    Up,
    /// Any other key.
    Other,
}

/// The modifier keys held during a key press.
#[derive(Clone, Copy, Debug, PartialEq, Eq)]
pub enum Modifiers {
    /// Shift and nothing else.
    Shift,
    /// Control and nothing else.
    Control,
    /// No modifier, or any other combination.
    Other,
}

/// A key press.
#[derive(Clone, Copy, Debug, PartialEq, Eq)]
pub struct KeyPress {
    pub code: Key,
    pub modifiers: Modifiers,
}

/// What the program does after a key press, besides the change of state.
#[derive(Clone, Copy, Debug, PartialEq, Eq)]
pub enum KeyOutcome {
    /// Go on.
    Continue,
    /// Leave the program.
    Quit,
    /// Stop the process with this PID, and its descendants, then go on.
    Kill(u32),
}

/// The sort mode that Shift with a letter asks for: P by PID, U by user, N by priority,
/// C by CPU, M by memory, T by run time.
pub open spec fn shift_sort_mode(c: char) -> Option<i32> {
    if c == 'P' {
        Some(0i32)
    } else if c == 'U' {
        Some(1i32)
    } else if c == 'N' {
        Some(3i32)
    } else if c == 'C' {
        Some(8i32)
    } else if c == 'M' {
        Some(9i32)
    } else if c == 'T' {
        Some(10i32)
    } else {
        None
    }
}

/// The row's command (twelfth column) begins with `x`.
pub open spec fn command_starts_with(row: Seq<Seq<char>>, x: char) -> bool {
    row[11].len() > 0 && row[11][0] == x
}

/// The index of the first row whose command begins with `x`.
pub open spec fn first_command_match(rows: Seq<Seq<Seq<char>>>, x: char) -> Option<int>
    decreases rows.len(),
{
    if rows.len() == 0 {
        None
    } else if command_starts_with(rows[0], x) {
        Some(0)
    } else {
        match first_command_match(rows.drop_first(), x) {
            Some(k) => Some(k + 1),
            None => None,
        }
    }
}

/// Every row that the search for `x` reads, up to the first match, has a command column.
pub open spec fn search_reads_commands(rows: Seq<Seq<Seq<char>>>, x: char) -> bool {
    forall|i: int|
        0 <= i < rows.len() && (forall|j: int| 0 <= j < i ==> !command_starts_with(
            #[trigger] rows[j],
            x,
        )) ==> #[trigger] rows[i].len() > 11
}

/// The PID of row `i`, as `parse::<i32>().unwrap()` reads it, taken as a `u32`.
pub open spec fn pid_of_row(rows: Seq<Seq<Seq<char>>>, i: int) -> u32 {
    (i32_parse(rows[i][0])->0) as u32
}

/// The selected row exists and its PID column reads as an `i32`.
pub open spec fn selected_pid_readable(rows: Seq<Seq<Seq<char>>>, sel: Option<usize>) -> bool {
    match sel {
        Some(i) => i < rows.len() && rows[i as int].len() > 0 && i32_parse(rows[i as int][0]) is Some,
        None => true,
    }
}

/// The key is Enter, or `k` without Shift or Control: both read the PID of the selected row.
pub open spec fn reads_selected_pid(key: KeyPress) -> bool {
    key.code == Key::Enter || (key.code == Key::Char('k') && key.modifiers == Modifiers::Other)
}

/// The inputs on which handling the key reads only rows and columns that exist and
/// PIDs that read as numbers.
pub open spec fn key_handled_safely(app: App, key: KeyPress) -> bool {
    let rows = app.items.deep_view();
    &&& reads_selected_pid(key) ==> selected_pid_readable(rows, app.selected)
    &&& (key.code matches Key::Char(x) && key.modifiers == Modifiers::Control) ==> search_reads_commands(
        rows,
        key.code->Char_0,
    )
    &&& key.code == Key::Down ==> (app.selected is Some ==> app.items.len() > 0)
    &&& key.code == Key::Up ==> (app.selected == Some(0usize) ==> app.items.len() > 0)
}

/// The outcome of a key: plain `q` quits; plain `k` with a selected row stops its process.
pub open spec fn key_outcome(app: App, key: KeyPress) -> KeyOutcome {
    if key.code == Key::Char('q') && key.modifiers == Modifiers::Other {
        KeyOutcome::Quit
    } else if key.code == Key::Char('k') && key.modifiers == Modifiers::Other && app.selected is Some {
        KeyOutcome::Kill(pid_of_row(app.items.deep_view(), app.selected->0 as int))
    } else {
        KeyOutcome::Continue
    }
}

/// The sort mode after a key: Shift with one of P, U, N, C, M, T sets it.
pub open spec fn sort_after_key(app: App, key: KeyPress) -> i32 {
    match key.code {
        Key::Char(c) => if key.modifiers == Modifiers::Shift && shift_sort_mode(c) is Some {
            shift_sort_mode(c)->0
        } else {
            app.sort_by_what
        },
        _ => app.sort_by_what,
    }
}

/// Which parts are shown after a key, as (table, graphs): plain `t` the table, `g` the
/// graphs, `d` both.
pub open spec fn parts_after_key(app: App, key: KeyPress) -> (bool, bool) {
    if key.modifiers == Modifiers::Other && key.code == Key::Char('t') {
        (true, false)
    } else if key.modifiers == Modifiers::Other && key.code == Key::Char('g') {
        (false, true)
    } else if key.modifiers == Modifiers::Other && key.code == Key::Char('d') {
        (true, true)
    } else {
        (app.show_table, app.show_graphs)
    }
}

/// The selection after a key: Down and Up move it; Control with a character selects the
/// first row whose command begins with it, if any.
pub open spec fn selection_after_key(app: App, key: KeyPress) -> Option<usize> {
    let rows = app.items.deep_view();
    match key.code {
        Key::Down => next_selection(app.selected, rows.len()),
        Key::Up => previous_selection(app.selected, rows.len()),
        Key::Char(x) => if key.modifiers == Modifiers::Control {
            match first_command_match(rows, x) {
                Some(i) => Some(i as usize),
                None => app.selected,
            }
        } else {
            app.selected
        },
        _ => app.selected,
    }
}

/// Enter with a selected row toggles the details view and shows that row's process.
pub open spec fn details_after_key(app: App, key: KeyPress) -> (bool, u32) {
    if key.code == Key::Enter && app.selected is Some {
        (!app.show_single_process, pid_of_row(app.items.deep_view(), app.selected->0 as int))
    } else {
        (app.show_single_process, app.oneP_ID)
    }
}

/// The state after a key press.
pub open spec fn key_step(app: App, key: KeyPress) -> App {
    App {
        items: app.items,
        sort_by_what: sort_after_key(app, key),
        show_table: parts_after_key(app, key).0,
        show_graphs: parts_after_key(app, key).1,
        show_single_process: details_after_key(app, key).0,
        oneP_ID: details_after_key(app, key).1,
        user_n: app.user_n,
        selected: selection_after_key(app, key),
    }
}

/// The index of the first row whose command begins with `x`.
fn find_command(items: &Vec<Vec<String>>, x: char) -> (r: Option<usize>)
    requires
        search_reads_commands(items.deep_view(), x),
    ensures
        r matches Some(i) ==> first_command_match(items.deep_view(), x) == Some(i as int),
        r is None ==> first_command_match(items.deep_view(), x) is None,
{
    let ghost rows = items.deep_view();
    let mut i: usize = 0;
    assert(rows.subrange(0, rows.len() as int) == rows);
    while i < items.len()
        invariant
            rows == items.deep_view(),
            search_reads_commands(rows, x),
            i <= items.len(),
            forall|j: int| 0 <= j < i ==> !command_starts_with(#[trigger] rows[j], x),
            first_command_match(rows, x) == match first_command_match(
                rows.subrange(i as int, rows.len() as int),
                x,
            ) {
                Some(k) => Some(k + i),
                None => None,
            },
        decreases items.len() - i,
    {
        let ghost rest = rows.subrange(i as int, rows.len() as int);
        assert(rows[i as int].len() > 11);
        assert(rest[0] == rows[i as int]);
        assert(rows[i as int] == items@[i as int].deep_view());
        if starts_with_char(items[i][11].as_str(), x) {
            return Some(i);
        }
        assert(rest.drop_first() == rows.subrange(i + 1, rows.len() as int));
        i = i + 1;
    }
    None
}

/// The PID of row `i`, as `parse::<i32>().unwrap()` reads it, taken as a `u32`.
fn row_pid(items: &Vec<Vec<String>>, i: usize) -> (pid: u32)
    requires
        selected_pid_readable(items.deep_view(), Some(i)),
    ensures
        pid == pid_of_row(items.deep_view(), i as int),
{
    assert(items.deep_view()[i as int] == items@[i as int].deep_view());
    let v = parse_i32(items[i][0].as_str());
    let v = v.unwrap();
    v as u32
}

/// Handles one key press: changes the state as the key asks and tells what the program
/// does next.
pub fn handle_key(key: KeyPress, app: &mut App) -> (outcome: KeyOutcome)
    requires
        key_handled_safely(*old(app), key),
    ensures
        outcome == key_outcome(*old(app), key),
        *final(app) == key_step(*old(app), key),
{
    let mut outcome = KeyOutcome::Continue;
    match key.code {
        Key::Char(x) => {
            if let Modifiers::Shift = key.modifiers {
                if x == 'P' {
                    app.sort_by_what = 0;
                } else if x == 'U' {
                    app.sort_by_what = 1;
                } else if x == 'N' {
                    app.sort_by_what = 3;
                } else if x == 'C' {
                    app.sort_by_what = 8;
                } else if x == 'M' {
                    app.sort_by_what = 9;
                } else if x == 'T' {
                    app.sort_by_what = 10;
                }
            } else if let Modifiers::Control = key.modifiers {
                match find_command(&app.items, x) {
                    Some(index) => {
                        app.selected = Some(index);
                    },
                    None => {},
                }
            } else {
                if x == 'q' {
                    outcome = KeyOutcome::Quit;
                } else if x == 't' {
                    app.show_table = true;
                    app.show_graphs = false;
                } else if x == 'g' {
                    app.show_table = false;
                    app.show_graphs = true;
                } else if x == 'd' {
                    app.show_table = true;
                    app.show_graphs = true;
                } else if x == 'k' {
                    match app.selected {
                        Some(i) => {
                            outcome = KeyOutcome::Kill(row_pid(&app.items, i));
                        },
                        None => {},
                    }
                }
            }
        },
        Key::Enter => {
            match app.selected {
                Some(i) => {
                    app.oneP_ID = row_pid(&app.items, i);
                    app.show_single_process = !app.show_single_process;
                },
                None => {},
            }
        },
        Key::Down => app.next(),
        Key::Up => app.previous(),
        Key::Other => {},
    }
    outcome
}


// ---------------------------------------------------------------------------
// Laws of the keys
// ---------------------------------------------------------------------------

/// Moving down then up, or up then down, comes back to the row one started from.
pub proof fn law_next_previous_inverse(i: usize, len: nat)
    requires
        i < len <= usize::MAX,
    ensures
        previous_selection(next_selection(Some(i), len), len) == Some(i),
        next_selection(previous_selection(Some(i), len), len) == Some(i),
{
}

/// The selection after moving down `k` times.
pub open spec fn next_times(sel: Option<usize>, len: nat, k: nat) -> Option<usize>
    decreases k,
{
    if k == 0 {
        sel
    } else {
        next_selection(next_times(sel, len, (k - 1) as nat), len)
    }
}

proof fn lemma_mod_step(k: nat, len: nat)
    requires
        0 < len,
        k > 0,
    ensures
        ((k - 1) as int) % (len as int) == len - 1 ==> (k as int) % (len as int) == 0,
        ((k - 1) as int) % (len as int) != len - 1 ==> (k as int) % (len as int) == ((k - 1) as int) % (len as int) + 1,
{
    let j = (k - 1) as int;
    let l = len as int;
    vstd::arithmetic::div_mod::lemma_fundamental_div_mod(j, l);
    vstd::arithmetic::div_mod::lemma_mod_bound(j, l);
    let q = j / l;
    let r = j % l;
    if r == l - 1 {
        assert(j + 1 == (q + 1) * l) by (nonlinear_arith)
            requires
                j == q * l + r,
                r == l - 1,
        ;
        vstd::arithmetic::div_mod::lemma_mod_multiples_basic(q + 1, l);
    } else {
        vstd::arithmetic::div_mod::lemma_fundamental_div_mod_converse(j + 1, l, q, r + 1);
    }
}

/// Starting from the first row, `k` moves down select row `k` modulo the number of rows:
/// the selection goes through every row in turn and comes back to the first.
pub proof fn law_next_cycles(len: nat, k: nat)
    requires
        0 < len <= usize::MAX,
    ensures
        next_times(Some(0usize), len, k) == Some(((k as int) % (len as int)) as usize),
    decreases k,
{
    if k > 0 {
        law_next_cycles(len, (k - 1) as nat);
        lemma_mod_step(k, len);
        vstd::arithmetic::div_mod::lemma_mod_bound((k - 1) as int, len as int);
        vstd::arithmetic::div_mod::lemma_mod_bound(k as int, len as int);
        let r = ((k - 1) as int) % (len as int);
        assert(next_times(Some(0usize), len, (k - 1) as nat) == Some(r as usize));
        assert(next_times(Some(0usize), len, k) == next_selection(Some(r as usize), len));
    } else {
        vstd::arithmetic::div_mod::lemma_small_mod(0, len);
    }
}

/// Moving up or down keeps the selection on a row of the table.
pub proof fn law_selection_stays_in_table(sel: Option<usize>, len: nat)
    requires
        0 < len <= usize::MAX,
        sel matches Some(i) ==> i < len,
    ensures
        next_selection(sel, len) matches Some(k) && k < len,
        previous_selection(sel, len) matches Some(k) && k < len,
{
}

/// Pressing Enter twice goes back to the screen one was on, and shows the details of the
/// selected row's process.
pub proof fn law_enter_twice(app: App)
    requires
        selected_pid_readable(app.items.deep_view(), app.selected),
    ensures
        key_step(
            key_step(app, KeyPress { code: Key::Enter, modifiers: Modifiers::Other }),
            KeyPress { code: Key::Enter, modifiers: Modifiers::Other },
        ).show_single_process == app.show_single_process,
        key_step(
            key_step(app, KeyPress { code: Key::Enter, modifiers: Modifiers::Other }),
            KeyPress { code: Key::Enter, modifiers: Modifiers::Other },
        ).selected == app.selected,
{
}

/// Outside the details view, plain `t` shows the table only, `g` the graphs only and `d`
/// both; and `q` is the one key that quits.
pub proof fn law_view_keys(app: App, key: KeyPress)
    requires
        !app.show_single_process,
    ensures
        key == (KeyPress { code: Key::Char('t'), modifiers: Modifiers::Other }) ==> screen_of(
            key_step(app, key).show_single_process,
            key_step(app, key).show_graphs,
            key_step(app, key).show_table,
        ) == Screen::TableOnly,
        key == (KeyPress { code: Key::Char('g'), modifiers: Modifiers::Other }) ==> screen_of(
            key_step(app, key).show_single_process,
            key_step(app, key).show_graphs,
            key_step(app, key).show_table,
        ) == Screen::GraphsOnly,
        key == (KeyPress { code: Key::Char('d'), modifiers: Modifiers::Other }) ==> screen_of(
            key_step(app, key).show_single_process,
            key_step(app, key).show_graphs,
            key_step(app, key).show_table,
        ) == Screen::Full,
        (key_outcome(app, key) == KeyOutcome::Quit) == (key == (KeyPress {
            code: Key::Char('q'),
            modifiers: Modifiers::Other,
        })),
{
}

/// The quick search finds the first row whose command (the twelfth column) begins with
/// the character, and finds none only when no row's command does.
pub proof fn law_search_finds_first(rows: Seq<Seq<Seq<char>>>, x: char)
    ensures
        first_command_match(rows, x) matches Some(i) ==> 0 <= i < rows.len() && rows[i][11].len() > 0
            && rows[i][11][0] == x && forall|j: int|
            0 <= j < i ==> !((#[trigger] rows[j])[11].len() > 0 && rows[j][11][0] == x),
        first_command_match(rows, x) is None ==> forall|j: int|
            0 <= j < rows.len() ==> !((#[trigger] rows[j])[11].len() > 0 && rows[j][11][0] == x),
    decreases rows.len(),
{
    if rows.len() > 0 && !command_starts_with(rows[0], x) {
        let rest = rows.drop_first();
        law_search_finds_first(rest, x);
        assert forall|j: int| 1 <= j < rows.len() implies rows[j] == rest[j - 1] by {}
    }
}

/// Control with a character selects the first row of the table whose command begins with
/// that character; when no row's command does, the selection stays where it was.
pub proof fn law_control_key_selects_first_match(app: App, x: char)
    ensures
        (exists|i: int|
            0 <= i < app.items.len() && (#[trigger] app.items.deep_view()[i])[11].len() > 0
                && app.items.deep_view()[i][11][0] == x) ==> (key_step(
            app,
            KeyPress { code: Key::Char(x), modifiers: Modifiers::Control },
        ).selected matches Some(k) && k < app.items.len() && app.items.deep_view()[k as int][11].len()
            > 0 && app.items.deep_view()[k as int][11][0] == x && forall|j: int|
            0 <= j < k ==> !((#[trigger] app.items.deep_view()[j])[11].len() > 0
                && app.items.deep_view()[j][11][0] == x)),
        !(exists|i: int|
            0 <= i < app.items.len() && (#[trigger] app.items.deep_view()[i])[11].len() > 0
                && app.items.deep_view()[i][11][0] == x) ==> key_step(
            app,
            KeyPress { code: Key::Char(x), modifiers: Modifiers::Control },
        ).selected == app.selected,
{
    let rows = app.items.deep_view();
    law_search_finds_first(rows, x);
    if first_command_match(rows, x) is None {
        if exists|i: int| 0 <= i < app.items.len() && (#[trigger] rows[i])[11].len() > 0 && rows[i][11][0] == x {
            let i = choose|i: int| 0 <= i < app.items.len() && (#[trigger] rows[i])[11].len() > 0 && rows[i][11][0] == x;
            assert(!(rows[i][11].len() > 0 && rows[i][11][0] == x));
        }
    } else {
        let i = first_command_match(rows, x)->0;
        assert(rows[i][11].len() > 0 && rows[i][11][0] == x);
    }
}

/// A Shift key that names a sort mode makes the next snapshot sorted in that mode.
pub proof fn law_sort_key_sets_mode(app: App, c: char)
    requires
        shift_sort_mode(c) is Some,
    ensures
        is_sort_mode(
            key_step(app, KeyPress { code: Key::Char(c), modifiers: Modifiers::Shift }).sort_by_what,
        ),
        key_step(app, KeyPress { code: Key::Char(c), modifiers: Modifiers::Shift }).sort_by_what
            == shift_sort_mode(c)->0,
{
}

} // verus!
