use vstd::prelude::*;
use crate::percent::{
    lemma_divmod_order, law_percent_order, percent_above, percent_class, percent_desc_key,
    percent_key_of, percent_value,
};
use crate::order::{key_lt, is_permutation, is_stable_order, law_stable_order_unique, stable_order};
use crate::text::{
    char_codes, char_codes_of, is_digit, law_decimal_reads_back, law_signed_decimal_parses, count_char, count_char_in, decimal, i32_parse, i64_to_string,
    lemma_count_char_le_len, lowercase, parse_i32, parse_u64, u64_parse, signed_decimal, to_lowercase,
    u64_to_string,
};

verus! {

// ---------------------------------------------------------------------------
// One process, as the table shows it
// ---------------------------------------------------------------------------

/// The scheduling state of a process, as far as the table tells them apart.
#[derive(Clone, Copy, Debug, PartialEq, Eq)]
pub enum ProcStatus {
    Run,
    Sleep,
    Idle,
    Zombie,
    /// Any other state.
    Other,
}

/// What the table shows of one process, gathered from the operating system.
pub struct ProcessInfo {
    pub pid: u32,
    pub parent: Option<u32>,
    /// Name of the user that owns the process.
    pub user_name: String,
    /// Virtual memory, in bytes.
    pub virtual_memory: u64,
    /// Resident memory, in bytes.
    pub memory: u64,
    pub status: ProcStatus,
    /// CPU usage, already written as a percentage with two decimals ("3.25%").
    pub cpu_usage_text: String,
    /// Memory usage, already written as a percentage with two decimals.
    pub mem_usage_text: String,
    /// Time the process has run, in seconds.
    pub run_time: u64,
    /// The value that `getpriority` returns for the process.
    pub raw_priority: i32,
    /// Name of the command.
    pub name: String,
}

/// The number of columns of a process row.
pub const ROW_COLUMNS: usize = 12;

/// The one-letter state column.
pub open spec fn status_letter(s: ProcStatus) -> Seq<char> {
    match s {
        ProcStatus::Run => seq!['R'],
        ProcStatus::Sleep => seq!['S'],
        ProcStatus::Idle => seq!['I'],
        ProcStatus::Zombie => seq!['Z'],
        ProcStatus::Other => seq!['U'],
    }
}

/// The inputs for which the row can be computed without an arithmetic overflow.
pub open spec fn process_row_computable(p: ProcessInfo) -> bool {
    &&& i32::MIN < p.raw_priority <= i32::MAX - 20
    &&& p.memory / 1024 <= p.virtual_memory / 1024
    &&& p.run_time * 100 <= u64::MAX
}

/// The priority column: 20 plus the raw priority.
pub open spec fn priority_of(p: ProcessInfo) -> int {
    20 + p.raw_priority
}

/// The row of a process: PID, USER, PTID (parent), PR, NI, RES (KiB), SHR, S, %CPU, %MEM,
/// TIME+ (hundredths of seconds) and COMMAND.
pub open spec fn process_row_view(p: ProcessInfo) -> Seq<Seq<char>> {
    seq![
        decimal(p.pid as nat),
        p.user_name@,
        match p.parent {
            Some(q) => decimal(q as nat),
            None => Seq::<char>::empty(),
        },
        signed_decimal(priority_of(p)),
        signed_decimal(-(20 - priority_of(p))),
        decimal((p.memory / 1024) as nat),
        decimal(((p.virtual_memory / 1024 - p.memory / 1024) / 1024) as nat),
        status_letter(p.status),
        p.cpu_usage_text@,
        p.mem_usage_text@,
        decimal((p.run_time * 100) as nat),
        p.name@,
    ]
}

fn status_string(s: ProcStatus) -> (r: String)
    ensures
        r@ == status_letter(s),
{
    let c = match s {
        ProcStatus::Run => 'R',
        ProcStatus::Sleep => 'S',
        ProcStatus::Idle => 'I',
        ProcStatus::Zombie => 'Z',
        ProcStatus::Other => 'U',
    };
    crate::text::string_of_char(c)
}

/// The table row of a process.
pub fn process_row(p: &ProcessInfo) -> (row: Vec<String>)
    requires
        process_row_computable(*p),
    ensures
        row.deep_view() == process_row_view(*p),
        row.len() == ROW_COLUMNS,
{
    let pid_string = u64_to_string(p.pid as u64);
    let parent_pid_string = match p.parent {
        Some(id) => u64_to_string(id as u64),
        None => String::new(),
    };
    let virtual_memory = p.virtual_memory / 1024;
    let memory = p.memory / 1024;
    let shared_memory = (virtual_memory - memory) / 1024;
    let priority: i32 = 20 + p.raw_priority;
    let nice: i32 = -(20 - priority);
    let cpu_time = p.run_time * 100;
    let row: Vec<String> = vec![
        pid_string,
        p.user_name.clone(),
        parent_pid_string,
        i64_to_string(priority as i64),
        i64_to_string(nice as i64),
        u64_to_string(memory),
        u64_to_string(shared_memory),
        status_string(p.status),
        p.cpu_usage_text.clone(),
        p.mem_usage_text.clone(),
        u64_to_string(cpu_time),
        p.name.clone(),
    ];
    assert(row.deep_view() =~= process_row_view(*p));
    row
}

// ---------------------------------------------------------------------------
// Sorting the table
// ---------------------------------------------------------------------------

/// The sort modes: 0 by PID, 1 by user, 3 by priority (highest first), 8 by CPU usage
/// (highest first), 9 by memory usage (highest first), 10 by run time (longest first),
/// 11 by command, ignoring case.
pub open spec fn is_sort_mode(mode: i32) -> bool {
    mode == 0 || mode == 1 || mode == 3 || mode == 8 || mode == 9 || mode == 10 || mode == 11
}

/// The column that a sort mode reads.
pub open spec fn sort_column(mode: i32) -> int {
    if mode == 0 {
        0
    } else if mode == 1 {
        1
    } else if mode == 3 {
        3
    } else if mode == 8 {
        8
    } else if mode == 9 {
        9
    } else if mode == 10 {
        10
    } else {
        11
    }
}

/// A number column read as `parse::<i32>().unwrap_or(0)` reads it.
pub open spec fn int_key(s: Seq<char>) -> int {
    match i32_parse(s) {
        Some(v) => v as int,
        None => 0,
    }
}

/// The key by which a row is ordered in a sort mode; rows are arranged by increasing key.
pub open spec fn sort_key(row: Seq<Seq<char>>, mode: i32) -> Seq<i64> {
    if mode == 0 {
        seq![int_key(row[0]) as i64]
    } else if mode == 1 {
        char_codes(row[1])
    } else if mode == 3 {
        seq![(-int_key(row[3])) as i64]
    } else if mode == 8 {
        percent_desc_key(row[8])
    } else if mode == 9 {
        percent_desc_key(row[9])
    } else if mode == 10 {
        time_desc_key(time_value(row[10]))
    } else if mode == 11 {
        char_codes(lowercase(row[11]))
    } else {
        Seq::<i64>::empty()
    }
}

/// The run-time column read as `parse::<u64>().unwrap_or(0)` reads it.
pub open spec fn time_value(s: Seq<char>) -> u64 {
    match u64_parse(s) {
        Some(v) => v,
        None => 0,
    }
}

/// 2^32, the base of the two halves of a time key.
pub const HALF: u64 = 4294967296;

/// The key of a run time, the longest first: its two 32-bit halves, negated.
pub open spec fn time_desc_key(v: u64) -> Seq<i64> {
    seq![(-(v / HALF)) as i64, (-(v % HALF)) as i64]
}

/// Sorting by run time puts longer run times first, and equal run times key alike.
pub proof fn law_time_order(x: u64, y: u64)
    ensures
        key_lt(time_desc_key(x), time_desc_key(y)) == (x > y),
        (time_desc_key(x) == time_desc_key(y)) == (x == y),
{
    lemma_divmod_order(x as int, y as int, HALF as int);
    reveal_with_fuel(key_lt, 3);
    let kx = time_desc_key(x);
    let ky = time_desc_key(y);
    assert(kx.drop_first() =~= seq![kx[1]]);
    assert(ky.drop_first() =~= seq![ky[1]]);
    assert(seq![kx[1]].drop_first() =~= Seq::<i64>::empty());
    assert(seq![ky[1]].drop_first() =~= Seq::<i64>::empty());
    if kx == ky {
        assert(kx[0] == ky[0] && kx[1] == ky[1]);
    }
}

pub open spec fn sort_keys(rows: Seq<Seq<Seq<char>>>, mode: i32) -> Seq<Seq<i64>> {
    rows.map_values(|r: Seq<Seq<char>>| sort_key(r, mode))
}

/// `out` is `rows` put in the order that a stable sort by `sort_key` gives.
pub open spec fn is_stable_sort_of(
    out: Seq<Seq<Seq<char>>>,
    rows: Seq<Seq<Seq<char>>>,
    mode: i32,
) -> bool {
    exists|p: Seq<usize>|
        #[trigger] is_stable_order(sort_keys(rows, mode), p) && out.len() == rows.len() && forall|
            i: int,
        |
            0 <= i < out.len() ==> #[trigger] out[i] == rows[p[i] as int]
}

/// Sorting determines the table: two stable sorts of the same rows in the same mode give
/// the same table.
pub proof fn law_sort_is_determined(
    out1: Seq<Seq<Seq<char>>>,
    out2: Seq<Seq<Seq<char>>>,
    rows: Seq<Seq<Seq<char>>>,
    mode: i32,
)
    requires
        is_stable_sort_of(out1, rows, mode),
        is_stable_sort_of(out2, rows, mode),
    ensures
        out1 == out2,
{
    let p = choose|p: Seq<usize>|
        #[trigger] is_stable_order(sort_keys(rows, mode), p) && out1.len() == rows.len() && forall|
            i: int,
        |
            0 <= i < out1.len() ==> #[trigger] out1[i] == rows[p[i] as int];
    let q = choose|q: Seq<usize>|
        #[trigger] is_stable_order(sort_keys(rows, mode), q) && out2.len() == rows.len() && forall|
            i: int,
        |
            0 <= i < out2.len() ==> #[trigger] out2[i] == rows[q[i] as int];
    law_stable_order_unique(sort_keys(rows, mode), p, q);
    assert(out1 =~= out2) by {
        assert forall|i: int| 0 <= i < out1.len() implies out1[i] == out2[i] by {
            assert(out1[i] == rows[p[i] as int]);
            assert(out2[i] == rows[q[i] as int]);
        }
    }
}

/// Sorting a sorted table again in the same mode leaves it as it is.
pub proof fn law_sorting_twice_changes_nothing(
    sorted: Seq<Seq<Seq<char>>>,
    again: Seq<Seq<Seq<char>>>,
    rows: Seq<Seq<Seq<char>>>,
    mode: i32,
)
    requires
        rows.len() <= usize::MAX,
        is_stable_sort_of(sorted, rows, mode),
        is_stable_sort_of(again, sorted, mode),
    ensures
        again == sorted,
{
    let p = choose|p: Seq<usize>|
        #[trigger] is_stable_order(sort_keys(rows, mode), p) && sorted.len() == rows.len() && forall|
            i: int,
        |
            0 <= i < sorted.len() ==> #[trigger] sorted[i] == rows[p[i] as int];
    let n = sorted.len();
    let id: Seq<usize> = Seq::new(n, |i: int| i as usize);
    let ks = sort_keys(sorted, mode);
    let kr = sort_keys(rows, mode);
    assert forall|i: int| 0 <= i < n implies #[trigger] ks[i] == kr[p[i] as int] by {
        assert(sorted[i] == rows[p[i] as int]);
    }
    assert(forall|i: int| 0 <= i < n ==> #[trigger] id[i] as int == i);
    assert(is_permutation(id, ks.len()));
    assert forall|i: int, j: int| 0 <= i < j < id.len() implies crate::order::key_le(
        #[trigger] ks[id[i] as int],
        #[trigger] ks[id[j] as int],
    ) by {
        assert(id[i] as int == i && id[j] as int == j);
        assert(ks[i] == kr[p[i] as int]);
        assert(ks[j] == kr[p[j] as int]);
    }
    assert(is_stable_order(ks, id));
    assert(forall|i: int| 0 <= i < sorted.len() ==> #[trigger] sorted[i] == sorted[id[i] as int]);
    assert(is_stable_sort_of(sorted, sorted, mode));
    law_sort_is_determined(again, sorted, sorted, mode);
}

// ---------------------------------------------------------------------------
// The order of each sort mode, read off the columns
// ---------------------------------------------------------------------------

/// `a` comes no later than `b` in the order of `str` comparison: character by character by
/// code point, a prefix first.
pub open spec fn text_le(a: Seq<char>, b: Seq<char>) -> bool
    decreases a.len(),
{
    if a.len() == 0 {
        true
    } else if b.len() == 0 {
        false
    } else if a[0] != b[0] {
        (a[0] as u32) < (b[0] as u32)
    } else {
        text_le(a.drop_first(), b.drop_first())
    }
}

proof fn lemma_char_code_injective(x: char, y: char)
    requires
        (x as u32) as i64 == (y as u32) as i64,
    ensures
        x == y,
{
    assert(x as u32 == y as u32);
}

/// Keys of code points order texts as `str` comparison does, and key alike only for the
/// same text.
pub proof fn lemma_char_codes_order(a: Seq<char>, b: Seq<char>)
    ensures
        crate::order::key_le(char_codes(a), char_codes(b)) == text_le(a, b),
        (char_codes(a) == char_codes(b)) == (a == b),
    decreases a.len(),
{
    let ca = char_codes(a);
    let cb = char_codes(b);
    if a.len() > 0 && b.len() > 0 {
        assert(ca.drop_first() =~= char_codes(a.drop_first()));
        assert(cb.drop_first() =~= char_codes(b.drop_first()));
        lemma_char_codes_order(a.drop_first(), b.drop_first());
        assert(ca[0] == (a[0] as u32) as i64);
        assert(cb[0] == (b[0] as u32) as i64);
        if a[0] != b[0] && ca[0] == cb[0] {
            lemma_char_code_injective(a[0], b[0]);
        }
        if a == b {
            assert(ca =~= cb);
        }
    } else if a.len() == 0 && b.len() == 0 {
        assert(ca =~= cb);
    }
    if ca == cb {
        assert(a.len() == ca.len() && b.len() == cb.len());
        assert forall|i: int| 0 <= i < a.len() implies a[i] == b[i] by {
            assert(ca[i] == cb[i]);
            assert(ca[i] == (a[i] as u32) as i64);
            assert(cb[i] == (b[i] as u32) as i64);
            lemma_char_code_injective(a[i], b[i]);
        }
        assert(a.len() == b.len());
        assert(a =~= b);
    }
}

/// Row `r` may stand before row `s` in the order of `mode`, as the original compares the
/// columns: PID ascending, user name ascending, priority descending, CPU and memory
/// percentages descending, run time descending, command ascending ignoring case.
pub open spec fn column_le(r: Seq<Seq<char>>, s: Seq<Seq<char>>, mode: i32) -> bool {
    if mode == 0 {
        int_key(r[0]) <= int_key(s[0])
    } else if mode == 1 {
        text_le(r[1], s[1])
    } else if mode == 3 {
        int_key(r[3]) >= int_key(s[3])
    } else if mode == 8 {
        !percent_above(s[8], r[8])
    } else if mode == 9 {
        !percent_above(s[9], r[9])
    } else if mode == 10 {
        time_value(r[10]) >= time_value(s[10])
    } else {
        text_le(lowercase(r[11]), lowercase(s[11]))
    }
}

/// Rows `r` and `s` compare as equal in the order of `mode`.
pub open spec fn column_tie(r: Seq<Seq<char>>, s: Seq<Seq<char>>, mode: i32) -> bool {
    if mode == 0 {
        int_key(r[0]) == int_key(s[0])
    } else if mode == 1 {
        r[1] == s[1]
    } else if mode == 3 {
        int_key(r[3]) == int_key(s[3])
    } else if mode == 8 {
        percent_class(r[8]) == percent_class(s[8]) && (percent_class(r[8]) != 0 || percent_value(
            r[8],
        ) == percent_value(s[8]))
    } else if mode == 9 {
        percent_class(r[9]) == percent_class(s[9]) && (percent_class(r[9]) != 0 || percent_value(
            r[9],
        ) == percent_value(s[9]))
    } else if mode == 10 {
        time_value(r[10]) == time_value(s[10])
    } else {
        lowercase(r[11]) == lowercase(s[11])
    }
}

proof fn lemma_single_key(x: i64, y: i64)
    ensures
        crate::order::key_le(seq![x], seq![y]) == (x <= y),
        (seq![x] == seq![y]) == (x == y),
{
    reveal_with_fuel(key_lt, 2);
    assert(seq![x].drop_first() =~= Seq::<i64>::empty());
    assert(seq![y].drop_first() =~= Seq::<i64>::empty());
    if seq![x] == seq![y] {
        assert(seq![x][0] == seq![y][0]);
    }
}

/// The key of each sort mode orders rows exactly as the columns compare, and keys two rows
/// alike exactly when the columns compare as equal.
pub proof fn law_sort_key_follows_columns(r: Seq<Seq<char>>, s: Seq<Seq<char>>, mode: i32)
    requires
        is_sort_mode(mode),
    ensures
        crate::order::key_le(sort_key(r, mode), sort_key(s, mode)) == column_le(r, s, mode),
        (sort_key(r, mode) == sort_key(s, mode)) == column_tie(r, s, mode),
{
    if mode == 0 {
        lemma_single_key(int_key(r[0]) as i64, int_key(s[0]) as i64);
    } else if mode == 1 {
        lemma_char_codes_order(r[1], s[1]);
    } else if mode == 3 {
        lemma_single_key((-int_key(r[3])) as i64, (-int_key(s[3])) as i64);
    } else if mode == 8 {
        law_percent_order(s[8], r[8]);
    } else if mode == 9 {
        law_percent_order(s[9], r[9]);
    } else if mode == 10 {
        law_time_order(time_value(s[10]), time_value(r[10]));
    } else {
        lemma_char_codes_order(lowercase(r[11]), lowercase(s[11]));
    }
}

/// A stable sort in a mode puts the rows in the order of their columns: a permutation of
/// the rows in which each row may stand before every later one, and rows that compare as
/// equal keep the order they had.
pub proof fn law_sort_orders_by_columns(
    out: Seq<Seq<Seq<char>>>,
    rows: Seq<Seq<Seq<char>>>,
    mode: i32,
)
    requires
        is_sort_mode(mode),
        is_stable_sort_of(out, rows, mode),
    ensures
        forall|i: int, j: int| 0 <= i < j < out.len() ==> column_le(#[trigger] out[i], #[trigger] out[j], mode),
        exists|p: Seq<usize>|
            #[trigger] is_permutation(p, rows.len()) && out.len() == rows.len() && (forall|i: int|
                0 <= i < out.len() ==> #[trigger] out[i] == rows[p[i] as int]) && (forall|i: int, j: int|
                0 <= i < j < out.len() && column_tie(#[trigger] out[i], #[trigger] out[j], mode) ==> p[i] < p[j]),
{
    let p = choose|p: Seq<usize>|
        #[trigger] is_stable_order(sort_keys(rows, mode), p) && out.len() == rows.len() && forall|
            i: int,
        |
            0 <= i < out.len() ==> #[trigger] out[i] == rows[p[i] as int];
    let ks = sort_keys(rows, mode);
    assert forall|i: int, j: int| 0 <= i < j < out.len() implies column_le(#[trigger] out[i], #[trigger] out[j], mode)
        && (column_tie(out[i], out[j], mode) ==> p[i] < p[j]) by {
        assert(out[i] == rows[p[i] as int]);
        assert(out[j] == rows[p[j] as int]);
        assert(ks[p[i] as int] == sort_key(out[i], mode));
        assert(ks[p[j] as int] == sort_key(out[j], mode));
        law_sort_key_follows_columns(out[i], out[j], mode);
    }
    assert(is_permutation(p, rows.len()));
}

/// Every row has the column that the sort mode reads.
pub open spec fn rows_have_column(rows: Seq<Seq<Seq<char>>>, col: int) -> bool {
    forall|i: int| 0 <= i < rows.len() ==> #[trigger] rows[i].len() > col
}

fn negated(k: i64) -> (r: i64)
    requires
        k > i64::MIN,
    ensures
        r == -k,
{
    0 - k
}

/// The sort key of one row.
fn row_key(row: &Vec<String>, mode: i32) -> (k: Vec<i64>)
    requires
        is_sort_mode(mode),
        row.len() > sort_column(mode),
    ensures
        k@ == sort_key(row.deep_view(), mode),
{
    let ghost rv = row.deep_view();
    assert(forall|i: int| 0 <= i < row.len() ==> #[trigger] rv[i] == row@[i]@);
    let mut k: Vec<i64> = Vec::new();
    if mode == 0 || mode == 3 {
        let col: usize = if mode == 0 { 0 } else { 3 };
        let v: i64 = match parse_i32(row[col].as_str()) {
            Some(v) => v as i64,
            None => 0,
        };
        if mode == 0 {
            k.push(v);
        } else {
            k.push(negated(v));
        }
        assert(k@ =~= sort_key(rv, mode));
        k
    } else if mode == 8 || mode == 9 {
        let col: usize = if mode == 8 { 8 } else { 9 };
        percent_key_of(row[col].as_str())
    } else if mode == 10 {
        let v: u64 = match parse_u64(row[10].as_str()) {
            Some(v) => v,
            None => 0,
        };
        k.push(0 - ((v / 4294967296) as i64));
        k.push(0 - ((v % 4294967296) as i64));
        assert(k@ =~= sort_key(rv, mode));
        k
    } else if mode == 1 {
        char_codes_of(row[1].as_str())
    } else {
        let lower = to_lowercase(row[11].as_str());
        char_codes_of(lower.as_str())
    }
}

/// The rows in the order of a sort mode: a stable sort by
/// `sort_key`. A value of `mode` that names no sort leaves the rows as they are.
pub fn sort_rows(rows: Vec<Vec<String>>, mode: i32) -> (out: Vec<Vec<String>>)
    requires
        is_sort_mode(mode) && rows.len() >= 2 ==> rows_have_column(rows.deep_view(), sort_column(mode)),
    ensures
        is_sort_mode(mode) ==> is_stable_sort_of(out.deep_view(), rows.deep_view(), mode),
        is_sort_mode(mode) ==> forall|i: int, j: int|
            0 <= i < j < out.len() ==> column_le(
                #[trigger] out.deep_view()[i],
                #[trigger] out.deep_view()[j],
                mode,
            ),
        !is_sort_mode(mode) ==> out.deep_view() == rows.deep_view(),
{
    let ghost rv = rows.deep_view();
    if !is_sort_mode_exec(mode) {
        return rows;
    }
    let n = rows.len();
    if n < 2 {
        proof {
            let p: Seq<usize> = Seq::new(n as nat, |i: int| i as usize);
            assert(is_stable_order(sort_keys(rv, mode), p));
            assert(forall|i: int| 0 <= i < rv.len() ==> #[trigger] rv[i] == rv[p[i] as int]);
        }
        return rows;
    }
    let mut keys: Vec<Vec<i64>> = Vec::new();
    let mut i: usize = 0;
    while i < n
        invariant
            n == rows.len(),
            rv == rows.deep_view(),
            is_sort_mode(mode),
            rows_have_column(rv, sort_column(mode)),
            i <= n,
            keys@.len() == i,
            forall|l: int| 0 <= l < i ==> #[trigger] keys@[l]@ == sort_key(rv[l], mode),
        decreases n - i,
    {
        assert(rv[i as int] == rows@[i as int].deep_view());
        let k = row_key(&rows[i], mode);
        keys.push(k);
        i = i + 1;
    }
    assert forall|l: int| 0 <= l < n implies #[trigger] keys.deep_view()[l] == sort_keys(rv, mode)[l] by {
        assert(keys.deep_view()[l] == keys@[l]@);
    }
    assert(keys.deep_view() =~= sort_keys(rv, mode));
    let p = stable_order(&keys);
    let mut out: Vec<Vec<String>> = Vec::new();
    let mut j: usize = 0;
    while j < n
        invariant
            n == rows.len(),
            rv == rows.deep_view(),
            is_stable_order(sort_keys(rv, mode), p@),
            j <= n,
            out@.len() == j,
            forall|l: int| 0 <= l < j ==> #[trigger] out@[l].deep_view() == rv[p@[l] as int],
        decreases n - j,
    {
        let r = rows[p[j]].clone();
        assert(r.deep_view() =~= rows@[p@[j as int] as int].deep_view());
        out.push(r);
        j = j + 1;
    }
    assert(is_stable_order(sort_keys(rv, mode), p@));
    assert forall|l: int| 0 <= l < out.len() implies #[trigger] out.deep_view()[l] == rv[p@[l] as int] by {
        assert(out.deep_view()[l] == out@[l].deep_view());
    }
    proof {
        law_sort_orders_by_columns(out.deep_view(), rv, mode);
    }
    out
}

/// Whether `mode` names a sort.
pub fn is_sort_mode_exec(mode: i32) -> (r: bool)
    ensures
        r == is_sort_mode(mode),
{
    mode == 0 || mode == 1 || mode == 3 || mode == 8 || mode == 9 || mode == 10 || mode == 11
}


/// Sorting by PID orders the rows by the PID they were written with, for every PID that
/// fits in an `i32` (a larger one reads as 0, as `parse::<i32>().unwrap_or(0)` gives).
pub proof fn law_pid_key(p: ProcessInfo)
    ensures
        p.pid <= i32::MAX ==> sort_key(process_row_view(p), 0) == seq![p.pid as i64],
        p.pid > i32::MAX ==> sort_key(process_row_view(p), 0) == seq![0i64],
{
    law_decimal_reads_back(p.pid as nat);
    let s = decimal(p.pid as nat);
    assert(is_digit(s[0]));
    if p.pid <= i32::MAX {
        assert(signed_decimal(p.pid as int) == s);
        law_signed_decimal_parses(p.pid as int);
    }
}

/// The priority column is 20 more than the nice column, which is the raw priority; both
/// read back as written, and sorting by priority orders rows by decreasing priority.
pub proof fn law_priority_columns(p: ProcessInfo)
    requires
        process_row_computable(p),
    ensures
        int_key(process_row_view(p)[3]) == p.raw_priority + 20,
        int_key(process_row_view(p)[4]) == p.raw_priority,
        sort_key(process_row_view(p), 3) == seq![(-(p.raw_priority + 20)) as i64],
{
    law_signed_decimal_parses(p.raw_priority + 20);
    law_signed_decimal_parses(p.raw_priority as int);
}

// ---------------------------------------------------------------------------
// Rows of one user
// ---------------------------------------------------------------------------

/// The row belongs to `user`: its second column (`row.get(1)`) is that name.
pub open spec fn row_of_user(row: Seq<Seq<char>>, user: Seq<char>) -> bool {
    row.len() > 1 && row[1] == user
}

/// The rows of `user`, in the order they come.
pub open spec fn rows_of_user(rows: Seq<Seq<Seq<char>>>, user: Seq<char>) -> Seq<Seq<Seq<char>>>
    decreases rows.len(),
{
    if rows.len() == 0 {
        Seq::empty()
    } else {
        let rest = rows_of_user(rows.drop_last(), user);
        if row_of_user(rows.last(), user) {
            rest.push(rows.last())
        } else {
            rest
        }
    }
}

/// Filtering keeps exactly the rows of the user: every row it keeps is theirs, and every
/// row of theirs is kept.
pub proof fn law_rows_of_user(rows: Seq<Seq<Seq<char>>>, user: Seq<char>)
    ensures
        forall|i: int|
            0 <= i < rows_of_user(rows, user).len() ==> row_of_user(
                #[trigger] rows_of_user(rows, user)[i],
                user,
            ),
        forall|i: int|
            0 <= i < rows.len() && row_of_user(#[trigger] rows[i], user) ==> rows_of_user(
                rows,
                user,
            ).contains(rows[i]),
    decreases rows.len(),
{
    if rows.len() > 0 {
        let rest = rows.drop_last();
        law_rows_of_user(rest, user);
        let r = rows_of_user(rows, user);
        let rr = rows_of_user(rest, user);
        assert forall|i: int| 0 <= i < rows.len() && row_of_user(#[trigger] rows[i], user) implies r.contains(
            rows[i],
        ) by {
            if i < rows.len() - 1 {
                assert(rest[i] == rows[i]);
                assert(rr.contains(rows[i]));
                let k = choose|k: int| 0 <= k < rr.len() && rr[k] == rows[i];
                if row_of_user(rows.last(), user) {
                    assert(r[k] == rr[k]);
                }
            } else {
                assert(r[r.len() - 1] == rows[i]);
            }
        }
    }
}

/// Filtering by user keeps, in their order, exactly the rows whose user column (the
/// second) is the name: each row kept has that user column, and the rows kept are the
/// rows of the table at increasing positions that take in every row with that user
/// column.
pub proof fn law_filter_keeps_exactly(rows: Seq<Seq<Seq<char>>>, user: Seq<char>) -> (s: Seq<int>)
    ensures
        forall|k: int|
            0 <= k < rows_of_user(rows, user).len() ==> (#[trigger] rows_of_user(rows, user)[k]).len()
                > 1 && rows_of_user(rows, user)[k][1] == user,
        s.len() == rows_of_user(rows, user).len(),
        forall|k: int|
            0 <= k < s.len() ==> 0 <= #[trigger] s[k] < rows.len() && rows_of_user(rows, user)[k]
                == rows[s[k]],
        forall|k: int, l: int| 0 <= k < l < s.len() ==> #[trigger] s[k] < #[trigger] s[l],
        forall|i: int|
            0 <= i < rows.len() && (#[trigger] rows[i]).len() > 1 && rows[i][1] == user ==> exists|
                k: int,
            | 0 <= k < s.len() && s[k] == i,
    decreases rows.len(),
{
    let out = rows_of_user(rows, user);
    if rows.len() == 0 {
        Seq::<int>::empty()
    } else {
        let rest = rows.drop_last();
        let n = rows.len() - 1;
        law_filter_keeps_exactly(rest, user);
        let ro = rows_of_user(rest, user);
        let sr = law_filter_keeps_exactly(rest, user);
        if row_of_user(rows.last(), user) {
            let s = sr.push(n);
            assert(out == ro.push(rows.last()));
            assert forall|k: int| 0 <= k < s.len() implies 0 <= #[trigger] s[k] < rows.len() && out[k]
                == rows[s[k]] by {
                if k < sr.len() {
                    assert(s[k] == sr[k]);
                    assert(rest[sr[k]] == rows[sr[k]]);
                }
            }
            assert forall|k: int, l: int| 0 <= k < l < s.len() implies #[trigger] s[k] < #[trigger] s[l] by {
                if l < sr.len() {
                    assert(s[k] == sr[k] && s[l] == sr[l]);
                } else {
                    assert(s[k] == sr[k]);
                }
            }
            assert forall|i: int| 0 <= i < rows.len() && (#[trigger] rows[i]).len() > 1 && rows[i][1]
                == user implies exists|k: int| 0 <= k < s.len() && s[k] == i by {
                if i < n {
                    assert(rest[i] == rows[i]);
                    let k = choose|k: int| 0 <= k < sr.len() && sr[k] == i;
                    assert(s[k] == i);
                } else {
                    assert(s[sr.len() as int] == i);
                }
            }
            assert forall|k: int| 0 <= k < out.len() implies (#[trigger] out[k]).len() > 1 && out[k][1]
                == user by {
                if k < ro.len() {
                    assert(out[k] == ro[k]);
                }
            }
            s
        } else {
            let s = sr;
            assert(out == ro);
            assert forall|k: int| 0 <= k < s.len() implies 0 <= #[trigger] s[k] < rows.len() && out[k]
                == rows[s[k]] by {
                assert(rest[sr[k]] == rows[sr[k]]);
            }
            assert forall|i: int| 0 <= i < rows.len() && (#[trigger] rows[i]).len() > 1 && rows[i][1]
                == user implies exists|k: int| 0 <= k < s.len() && s[k] == i by {
                assert(i < n);
                assert(rest[i] == rows[i]);
            }
            s
        }
    }
}

/// Keeps the rows whose user column is `user`, in their order.
pub fn filter_by_user(items: Vec<Vec<String>>, user: &String) -> (out: Vec<Vec<String>>)
    ensures
        out.deep_view() == rows_of_user(items.deep_view(), user@),
        forall|k: int|
            0 <= k < out.len() ==> (#[trigger] out.deep_view()[k]).len() > 1 && out.deep_view()[k][1]
                == user@,
        exists|s: Seq<int>|
            #[trigger] s.len() == out.len() && (forall|k: int|
                0 <= k < s.len() ==> 0 <= #[trigger] s[k] < items.len() && out.deep_view()[k]
                    == items.deep_view()[s[k]]) && (forall|k: int, l: int|
                0 <= k < l < s.len() ==> #[trigger] s[k] < #[trigger] s[l]) && (forall|i: int|
                0 <= i < items.len() && (#[trigger] items.deep_view()[i]).len() > 1
                    && items.deep_view()[i][1] == user@ ==> exists|k: int| 0 <= k < s.len() && s[k] == i),
{
    let ghost rv = items.deep_view();
    let mut out: Vec<Vec<String>> = Vec::new();
    let mut i: usize = 0;
    while i < items.len()
        invariant
            rv == items.deep_view(),
            i <= items.len(),
            out.deep_view() == rows_of_user(rv.subrange(0, i as int), user@),
        decreases items.len() - i,
    {
        let ghost pre = rv.subrange(0, i as int);
        assert(rv.subrange(0, i + 1).drop_last() == pre);
        assert(rv.subrange(0, i + 1).last() == items@[i as int].deep_view());
        let row = &items[i];
        let keep = row.len() > 1 && row[1] == *user;
        if keep {
            let ghost before = out.deep_view();
            out.push(row.clone());
            assert(out.deep_view() =~= before.push(items@[i as int].deep_view()));
        }
        i = i + 1;
    }
    assert(rv.subrange(0, i as int) == rv);
    proof {
        let s = law_filter_keeps_exactly(rv, user@);
        assert(s.len() == out.len());
    }
    out
}

// ---------------------------------------------------------------------------
// Height of a table row
// ---------------------------------------------------------------------------

/// The largest number of line breaks in one cell of the row (0 for a row without cells).
pub open spec fn max_line_breaks(cells: Seq<Seq<char>>) -> nat
    decreases cells.len(),
{
    if cells.len() == 0 {
        0
    } else {
        let rest = max_line_breaks(cells.drop_last());
        let here = count_char(cells.last(), '\n');
        if here > rest {
            here
        } else {
            rest
        }
    }
}

/// The number of line breaks that sets a row's height is that of its tallest cell: no cell
/// has more, and some cell has that many (or the row has no line break at all).
pub proof fn law_line_breaks_of_tallest_cell(cells: Seq<Seq<char>>)
    ensures
        forall|i: int| 0 <= i < cells.len() ==> count_char(#[trigger] cells[i], '\n') <= max_line_breaks(cells),
        max_line_breaks(cells) == 0 || exists|i: int|
            0 <= i < cells.len() && count_char(#[trigger] cells[i], '\n') == max_line_breaks(cells),
    decreases cells.len(),
{
    if cells.len() > 0 {
        let rest = cells.drop_last();
        law_line_breaks_of_tallest_cell(rest);
        assert forall|i: int| 0 <= i < cells.len() implies count_char(#[trigger] cells[i], '\n')
            <= max_line_breaks(cells) by {
            if i < rest.len() {
                assert(rest[i] == cells[i]);
            }
        }
        if max_line_breaks(cells) != 0 {
            if max_line_breaks(cells) == max_line_breaks(rest) && max_line_breaks(cells) != count_char(
                cells.last(),
                '\n',
            ) {
                let i = choose|i: int|
                    0 <= i < rest.len() && count_char(#[trigger] rest[i], '\n') == max_line_breaks(rest);
                assert(rest[i] == cells[i]);
            } else {
                assert(cells[cells.len() - 1] == cells.last());
            }
        }
    }
}

/// The height of a row on screen: one more than the largest number of line breaks in a
/// cell, cut to 16 bits.
pub open spec fn row_height_view(cells: Seq<Seq<char>>) -> u16 {
    (max_line_breaks(cells) + 1) as u16
}

/// The height that the table gives a row.
pub fn row_height(item: &Vec<String>) -> (h: u16)
    requires
        forall|i: int| 0 <= i < item.len() ==> #[trigger] item@[i]@.len() < usize::MAX,
    ensures
        h == row_height_view(item.deep_view()),
{
    let ghost cv = item.deep_view();
    let mut m: usize = 0;
    let mut i: usize = 0;
    while i < item.len()
        invariant
            cv == item.deep_view(),
            forall|i: int| 0 <= i < item.len() ==> #[trigger] item@[i]@.len() < usize::MAX,
            i <= item.len(),
            m == max_line_breaks(cv.subrange(0, i as int)),
            m < usize::MAX,
        decreases item.len() - i,
    {
        assert(cv.subrange(0, i + 1).drop_last() == cv.subrange(0, i as int));
        assert(cv.subrange(0, i + 1).last() == item@[i as int]@);
        let k = count_char_in(item[i].as_str(), '\n');
        proof {
            lemma_count_char_le_len(item@[i as int]@, '\n');
        }
        if k > m {
            m = k;
        }
        i = i + 1;
    }
    assert(cv.subrange(0, i as int) == cv);
    let h = m + 1;
    h as u16
}

} // verus!
