use vstd::prelude::*;
use crate::walk::{
    children_of, lemma_children_members, law_table_walk_bound, lemma_walk_forest_finite_all, walk_finite, walk_forest_finite,
};

verus! {

// ---------------------------------------------------------------------------
// The process tree, as text
// ---------------------------------------------------------------------------

/// The rows as (PID, parent) entries: the first and the third column.
pub open spec fn row_links(items: Seq<Seq<Seq<char>>>) -> Seq<(Seq<char>, Option<Seq<char>>)> {
    items.map_values(|r: Seq<Seq<char>>| (r[0], Some(r[2])))
}

/// The PIDs (first column) of the rows whose parent column (the third) is `id`, in order.
pub open spec fn child_ids(items: Seq<Seq<Seq<char>>>, id: Seq<char>) -> Seq<Seq<char>> {
    children_of(row_links(items), id)
}

/// The command (twelfth column) of the first row whose PID is `id`; empty when there is
/// no such row or it has no twelfth column.
pub open spec fn name_of(items: Seq<Seq<Seq<char>>>, id: Seq<char>) -> Seq<char>
    decreases items.len(),
{
    if items.len() == 0 {
        Seq::empty()
    } else if items[0][0] == id {
        if items[0].len() > 11 {
            items[0][11]
        } else {
            Seq::empty()
        }
    } else {
        name_of(items.drop_first(), id)
    }
}

/// `depth` times two spaces.
pub open spec fn padding(depth: nat) -> Seq<char> {
    Seq::new(2 * depth, |i: int| ' ')
}

/// The line of one process: `name──(1)` for the process 1, `<padding>└──── name (id)`
/// for any other.
pub open spec fn tree_line(items: Seq<Seq<Seq<char>>>, id: Seq<char>, depth: nat) -> Seq<char> {
    let name = name_of(items, id);
    if id == seq!['1'] {
        name + seq!['\u{2500}', '\u{2500}', '('] + id + seq![')']
    } else {
        padding(depth) + seq!['\u{2514}', '\u{2500}', '\u{2500}', '\u{2500}', '\u{2500}', ' '] + name
            + seq![' ', '('] + id + seq![')']
    }
}

/// The lines of the tree below `id` (its own line, then those of each child, four levels
/// deeper), following at most `fuel` generations.
pub open spec fn tree_lines(
    items: Seq<Seq<Seq<char>>>,
    id: Seq<char>,
    depth: nat,
    fuel: nat,
) -> Seq<Seq<char>>
    decreases fuel, 0nat,
{
    if fuel == 0 {
        Seq::empty()
    } else {
        seq![tree_line(items, id, depth)] + forest_lines(
            items,
            child_ids(items, id),
            depth + 4,
            (fuel - 1) as nat,
        )
    }
}

/// The lines of the trees below each of `ids`, one after the other.
pub open spec fn forest_lines(
    items: Seq<Seq<Seq<char>>>,
    ids: Seq<Seq<char>>,
    depth: nat,
    fuel: nat,
) -> Seq<Seq<char>>
    decreases fuel, ids.len() + 1,
{
    if ids.len() == 0 {
        Seq::empty()
    } else {
        forest_lines(items, ids.drop_last(), depth, fuel) + tree_lines(items, ids.last(), depth, fuel)
    }
}

/// Every chain of children below `id` ends within `fuel` generations.
pub open spec fn tree_finite(items: Seq<Seq<Seq<char>>>, id: Seq<char>, fuel: nat) -> bool {
    walk_finite(row_links(items), id, fuel)
}

/// Every chain of children below each of `ids` ends within `fuel` generations.
pub open spec fn forest_finite(items: Seq<Seq<Seq<char>>>, ids: Seq<Seq<char>>, fuel: nat) -> bool {
    walk_forest_finite(row_links(items), ids, fuel)
}

/// Once the walk below `id` ends within `fuel` generations, allowing more generations
/// changes nothing: the tree is the same.
pub proof fn law_tree_fuel_enough(
    items: Seq<Seq<Seq<char>>>,
    id: Seq<char>,
    depth: nat,
    fuel: nat,
    more: nat,
)
    requires
        tree_finite(items, id, fuel),
        fuel <= more,
    ensures
        tree_finite(items, id, more),
        tree_lines(items, id, depth, more) == tree_lines(items, id, depth, fuel),
    decreases fuel, 0nat,
{
    lemma_forest_fuel_enough(
        items,
        child_ids(items, id),
        depth + 4,
        (fuel - 1) as nat,
        (more - 1) as nat,
    );
}

proof fn lemma_forest_fuel_enough(
    items: Seq<Seq<Seq<char>>>,
    ids: Seq<Seq<char>>,
    depth: nat,
    fuel: nat,
    more: nat,
)
    requires
        forest_finite(items, ids, fuel),
        fuel <= more,
    ensures
        forest_finite(items, ids, more),
        forest_lines(items, ids, depth, more) == forest_lines(items, ids, depth, fuel),
    decreases fuel, ids.len() + 1,
{
    if ids.len() > 0 {
        lemma_forest_fuel_enough(items, ids.drop_last(), depth, fuel, more);
        law_tree_fuel_enough(items, ids.last(), depth, fuel, more);
    }
}

/// A walk down the tree that ends at all ends within as many generations as there are
/// rows, plus one: when `process_tree_lines` answers `None`, no number of generations
/// would have been enough.
pub proof fn law_tree_walk_bound(items: Seq<Seq<Seq<char>>>, id: Seq<char>, fuel: nat)
    requires
        tree_finite(items, id, fuel),
    ensures
        tree_finite(items, id, (items.len() + 1) as nat),
{
    law_table_walk_bound(row_links(items), id, fuel);
}

/// `c` descends from `id` in `k` generations: a chain of `k` rows leads down from `id` to
/// `c`, the parent column (the third) of each naming the one before, and its PID column
/// (the first) naming the next.
pub open spec fn descends(items: Seq<Seq<Seq<char>>>, id: Seq<char>, c: Seq<char>, k: nat) -> bool
    decreases k,
{
    if k == 0 {
        c == id
    } else {
        exists|j: int|
            0 <= j < items.len() && (#[trigger] items[j])[2] == id && descends(
                items,
                items[j][0],
                c,
                (k - 1) as nat,
            )
    }
}

proof fn lemma_forest_holds_trees(
    items: Seq<Seq<Seq<char>>>,
    ids: Seq<Seq<char>>,
    depth: nat,
    fuel: nat,
    i: int,
    m: int,
)
    requires
        0 <= i < ids.len(),
        0 <= m < tree_lines(items, ids[i], depth, fuel).len(),
    ensures
        forest_lines(items, ids, depth, fuel).contains(tree_lines(items, ids[i], depth, fuel)[m]),
    decreases ids.len(),
{
    let d = ids.drop_last();
    let fd = forest_lines(items, d, depth, fuel);
    let tl = tree_lines(items, ids.last(), depth, fuel);
    let f = forest_lines(items, ids, depth, fuel);
    assert(f == fd + tl);
    let x = tree_lines(items, ids[i], depth, fuel)[m];
    if i < ids.len() - 1 {
        assert(d[i] == ids[i]);
        lemma_forest_holds_trees(items, d, depth, fuel, i, m);
        let w = choose|w: int| 0 <= w < fd.len() && fd[w] == x;
        assert(f[w] == x);
    } else {
        assert(f[fd.len() + m] == x);
    }
}

/// The tree below `id` lists every descendant of `id`, however deep: a process `k`
/// generations down has its line, indented four levels per generation, among the lines.
pub proof fn law_tree_lists_descendants(
    items: Seq<Seq<Seq<char>>>,
    id: Seq<char>,
    depth: nat,
    fuel: nat,
    c: Seq<char>,
    k: nat,
)
    requires
        tree_finite(items, id, fuel),
        descends(items, id, c, k),
    ensures
        k < fuel,
        tree_lines(items, id, depth, fuel).contains(tree_line(items, c, depth + 4 * k)),
    decreases k,
{
    let lines = tree_lines(items, id, depth, fuel);
    assert(fuel > 0);
    if k == 0 {
        assert(lines[0] == tree_line(items, id, depth));
    } else {
        let j = choose|j: int|
            0 <= j < items.len() && (#[trigger] items[j])[2] == id && descends(
                items,
                items[j][0],
                c,
                (k - 1) as nat,
            );
        let ch = items[j][0];
        let table = row_links(items);
        let ids = child_ids(items, id);
        lemma_children_members(table, id);
        assert(table.len() == items.len());
        assert(table[j] == (items[j][0], Some(items[j][2])));
        assert(table[j].1 == Some(id));
        assert(table[j].0 == ch);
        assert(ids.contains(ch));
        let ii = choose|ii: int| 0 <= ii < ids.len() && ids[ii] == ch;
        lemma_walk_forest_finite_all(table, ids, (fuel - 1) as nat);
        assert(tree_finite(items, ids[ii], (fuel - 1) as nat));
        law_tree_lists_descendants(items, ch, depth + 4, (fuel - 1) as nat, c, (k - 1) as nat);
        let target = tree_line(items, c, depth + 4 * k);
        assert(depth + 4 + 4 * ((k - 1) as nat) == depth + 4 * k);
        let sub = tree_lines(items, ch, depth + 4, (fuel - 1) as nat);
        let m = choose|m: int| 0 <= m < sub.len() && sub[m] == target;
        lemma_forest_holds_trees(items, ids, depth + 4, (fuel - 1) as nat, ii, m);
        let f = forest_lines(items, ids, depth + 4, (fuel - 1) as nat);
        let w = choose|w: int| 0 <= w < f.len() && f[w] == target;
        assert(lines == seq![tree_line(items, id, depth)] + f);
        assert(lines[w + 1] == target);
    }
}

proof fn lemma_tree_line_origin(
    items: Seq<Seq<Seq<char>>>,
    id: Seq<char>,
    depth: nat,
    fuel: nat,
    m: int,
) -> (ck: (Seq<char>, nat))
    requires
        0 <= m < tree_lines(items, id, depth, fuel).len(),
    ensures
        descends(items, id, ck.0, ck.1),
        tree_lines(items, id, depth, fuel)[m] == tree_line(items, ck.0, depth + 4 * ck.1),
    decreases fuel, 0nat,
{
    let ids = child_ids(items, id);
    let f = forest_lines(items, ids, depth + 4, (fuel - 1) as nat);
    let lines = tree_lines(items, id, depth, fuel);
    assert(lines == seq![tree_line(items, id, depth)] + f);
    if m == 0 {
        (id, 0nat)
    } else {
        assert(lines[m] == f[m - 1]);
        let r = lemma_forest_line_origin(items, ids, depth + 4, (fuel - 1) as nat, m - 1);
        let table = row_links(items);
        lemma_children_members(table, id);
        assert(crate::walk::is_child(table, id, ids[r.0]));
        let j = choose|j: int|
            0 <= j < table.len() && #[trigger] table[j].1 == Some(id) && table[j].0 == ids[r.0];
        assert(table[j] == (items[j][0], Some(items[j][2])));
        assert(items[j][2] == id && items[j][0] == ids[r.0]);
        assert(descends(items, id, r.1, r.2 + 1));
        assert(depth + 4 + 4 * r.2 == depth + 4 * (r.2 + 1));
        (r.1, r.2 + 1)
    }
}

proof fn lemma_forest_line_origin(
    items: Seq<Seq<Seq<char>>>,
    ids: Seq<Seq<char>>,
    depth: nat,
    fuel: nat,
    m: int,
) -> (r: (int, Seq<char>, nat))
    requires
        0 <= m < forest_lines(items, ids, depth, fuel).len(),
    ensures
        0 <= r.0 < ids.len(),
        descends(items, ids[r.0], r.1, r.2),
        forest_lines(items, ids, depth, fuel)[m] == tree_line(items, r.1, depth + 4 * r.2),
    decreases fuel, ids.len() + 1,
{
    let d = ids.drop_last();
    let fd = forest_lines(items, d, depth, fuel);
    let tl = tree_lines(items, ids.last(), depth, fuel);
    assert(forest_lines(items, ids, depth, fuel) == fd + tl);
    if m < fd.len() {
        let q = lemma_forest_line_origin(items, d, depth, fuel, m);
        assert(d[q.0] == ids[q.0]);
        q
    } else {
        let ck = lemma_tree_line_origin(items, ids.last(), depth, fuel, m - fd.len());
        (ids.len() - 1, ck.0, ck.1)
    }
}

/// The tree below `id` lists only descendants of `id`: each line is that of a process
/// some number of generations down from `id`, indented four levels per generation.
pub proof fn law_tree_lists_only_descendants(
    items: Seq<Seq<Seq<char>>>,
    id: Seq<char>,
    depth: nat,
    fuel: nat,
    m: int,
)
    requires
        0 <= m < tree_lines(items, id, depth, fuel).len(),
    ensures
        exists|c: Seq<char>, k: nat|
            #[trigger] descends(items, id, c, k) && tree_lines(items, id, depth, fuel)[m] == tree_line(
                items,
                c,
                depth + 4 * k,
            ),
{
    let ck = lemma_tree_line_origin(items, id, depth, fuel, m);
    assert(descends(items, id, ck.0, ck.1));
}

/// Every row has the columns that the tree reads: the PID and the parent.
pub open spec fn rows_have_ids(items: Seq<Seq<Seq<char>>>) -> bool {
    forall|i: int| 0 <= i < items.len() ==> #[trigger] items[i].len() >= 3
}

fn push_char_to(s: &mut Vec<char>, c: char)
    ensures
        final(s)@ == old(s)@.push(c),
{
    s.push(c);
}

fn append_chars(s: &mut Vec<char>, t: &Vec<char>)
    ensures
        final(s)@ == old(s)@ + t@,
{
    let mut i: usize = 0;
    let ghost s0 = s@;
    while i < t.len()
        invariant
            i <= t.len(),
            s@ == s0 + t@.subrange(0, i as int),
        decreases t.len() - i,
    {
        s.push(t[i]);
        i = i + 1;
    }
    assert(t@.subrange(0, i as int) == t@);
}

fn child_ids_of(items: &Vec<Vec<String>>, id: &String) -> (r: Vec<String>)
    requires
        rows_have_ids(items.deep_view()),
    ensures
        r.deep_view() == child_ids(items.deep_view(), id@),
{
    let ghost iv = items.deep_view();
    let mut r: Vec<String> = Vec::new();
    let mut i: usize = 0;
    while i < items.len()
        invariant
            iv == items.deep_view(),
            rows_have_ids(iv),
            i <= items.len(),
            r.deep_view() == child_ids(iv.subrange(0, i as int), id@),
        decreases items.len() - i,
    {
        let ghost pre = row_links(iv.subrange(0, i as int));
        let ghost next = row_links(iv.subrange(0, i + 1));
        assert(next.drop_last() =~= pre);
        assert(next.last() == (iv[i as int][0], Some(iv[i as int][2])));
        assert(iv[i as int] == items@[i as int].deep_view());
        assert(iv[i as int].len() >= 3);
        if items[i][2] == *id {
            let ghost before = r.deep_view();
            r.push(items[i][0].clone());
            assert(r.deep_view() =~= before.push(iv[i as int][0]));
        }
        i = i + 1;
    }
    assert(iv.subrange(0, i as int) == iv);
    r
}

fn name_of_exec(items: &Vec<Vec<String>>, id: &String) -> (r: Vec<char>)
    requires
        rows_have_ids(items.deep_view()),
    ensures
        r@ == name_of(items.deep_view(), id@),
{
    let ghost iv = items.deep_view();
    let mut i: usize = 0;
    assert(iv.subrange(0, iv.len() as int) == iv);
    while i < items.len()
        invariant
            iv == items.deep_view(),
            rows_have_ids(iv),
            i <= items.len(),
            name_of(iv, id@) == name_of(iv.subrange(i as int, iv.len() as int), id@),
        decreases items.len() - i,
    {
        let ghost rest = iv.subrange(i as int, iv.len() as int);
        assert(rest[0] == items@[i as int].deep_view());
        assert(iv[i as int].len() >= 3);
        if items[i][0] == *id {
            if items[i].len() > 11 {
                return crate::text::chars_of(items[i][11].as_str());
            } else {
                return Vec::new();
            }
        }
        assert(rest.drop_first() == iv.subrange(i + 1, iv.len() as int));
        i = i + 1;
    }
    Vec::new()
}

/// Writes the lines of the tree below `id` after `out`, following at most `fuel`
/// generations; false when a chain goes deeper.
fn tree_into(
    items: &Vec<Vec<String>>,
    id: &String,
    depth: usize,
    fuel: usize,
    out: &mut Vec<String>,
) -> (ok: bool)
    requires
        rows_have_ids(items.deep_view()),
        depth + 4 * fuel <= usize::MAX / 2,
    ensures
        ok == tree_finite(items.deep_view(), id@, fuel as nat),
        ok ==> final(out).deep_view() == old(out).deep_view() + tree_lines(
            items.deep_view(),
            id@,
            depth as nat,
            fuel as nat,
        ),
    decreases fuel, 0nat,
{
    let ghost iv = items.deep_view();
    if fuel == 0 {
        return false;
    }
    let line = tree_line_exec(items, id, depth);
    let ghost before = out.deep_view();
    out.push(line);
    assert(out.deep_view() =~= before + seq![tree_line(iv, id@, depth as nat)]);
    let children = child_ids_of(items, id);
    let ok = forest_into(items, &children, depth + 4, fuel - 1, out);
    proof {
        assert(before + seq![tree_line(iv, id@, depth as nat)] + forest_lines(
            iv,
            children.deep_view(),
            (depth + 4) as nat,
            (fuel - 1) as nat,
        ) =~= before + tree_lines(iv, id@, depth as nat, fuel as nat));
    }
    ok
}

/// Writes the lines of the trees below each of `ids`, in order, after `out`.
fn forest_into(
    items: &Vec<Vec<String>>,
    ids: &Vec<String>,
    depth: usize,
    fuel: usize,
    out: &mut Vec<String>,
) -> (ok: bool)
    requires
        rows_have_ids(items.deep_view()),
        depth + 4 * fuel <= usize::MAX / 2,
    ensures
        ok == forest_finite(items.deep_view(), ids.deep_view(), fuel as nat),
        ok ==> final(out).deep_view() == old(out).deep_view() + forest_lines(
            items.deep_view(),
            ids.deep_view(),
            depth as nat,
            fuel as nat,
        ),
    decreases fuel, 1nat,
{
    let ghost iv = items.deep_view();
    let ghost idv = ids.deep_view();
    let ghost start = out.deep_view();
    let mut i: usize = 0;
    while i < ids.len()
        invariant
            iv == items.deep_view(),
            idv == ids.deep_view(),
            rows_have_ids(iv),
            depth + 4 * fuel <= usize::MAX / 2,
            i <= ids.len(),
            forest_finite(iv, idv.subrange(0, i as int), fuel as nat),
            out.deep_view() == start + forest_lines(iv, idv.subrange(0, i as int), depth as nat, fuel as nat),
        decreases ids.len() - i,
    {
        let ghost pre = idv.subrange(0, i as int);
        let ghost next = idv.subrange(0, i + 1);
        assert(next.drop_last() == pre);
        assert(next.last() == ids@[i as int]@);
        let ok = tree_into(items, &ids[i], depth, fuel, out);
        if !ok {
            proof {
                lemma_walk_forest_finite_all(row_links(iv), idv, fuel as nat);
                assert(idv[i as int] == ids@[i as int]@);
            }
            return false;
        }
        assert(out.deep_view() =~= start + forest_lines(iv, next, depth as nat, fuel as nat));
        i = i + 1;
    }
    assert(idv.subrange(0, i as int) == idv);
    true
}

/// The text line of one process in the tree.
fn tree_line_exec(items: &Vec<Vec<String>>, id: &String, depth: usize) -> (line: String)
    requires
        rows_have_ids(items.deep_view()),
        depth <= usize::MAX / 2,
    ensures
        line@ == tree_line(items.deep_view(), id@, depth as nat),
{
    let name = name_of_exec(items, id);
    let idc = crate::text::chars_of(id.as_str());
    let mut cs: Vec<char> = Vec::new();
    let is_root = idc.len() == 1 && idc[0] == '1';
    assert(is_root == (id@ == seq!['1'])) by {
        if id@ == seq!['1'] {
            assert(idc@[0] == '1');
        }
        if is_root {
            assert(id@ =~= seq!['1']);
        }
    }
    if is_root {
        append_chars(&mut cs, &name);
        push_char_to(&mut cs, '\u{2500}');
        push_char_to(&mut cs, '\u{2500}');
        push_char_to(&mut cs, '(');
        append_chars(&mut cs, &idc);
        push_char_to(&mut cs, ')');
        assert(cs@ =~= tree_line(items.deep_view(), id@, depth as nat));
    } else {
        let mut k: usize = 0;
        while k < 2 * depth
            invariant
                depth <= usize::MAX / 2,
                k <= 2 * depth,
                cs@ == Seq::new(k as nat, |i: int| ' '),
            decreases 2 * depth - k,
        {
            push_char_to(&mut cs, ' ');
            assert(cs@ =~= Seq::new((k + 1) as nat, |i: int| ' '));
            k = k + 1;
        }
        push_char_to(&mut cs, '\u{2514}');
        push_char_to(&mut cs, '\u{2500}');
        push_char_to(&mut cs, '\u{2500}');
        push_char_to(&mut cs, '\u{2500}');
        push_char_to(&mut cs, '\u{2500}');
        push_char_to(&mut cs, ' ');
        append_chars(&mut cs, &name);
        push_char_to(&mut cs, ' ');
        push_char_to(&mut cs, '(');
        append_chars(&mut cs, &idc);
        push_char_to(&mut cs, ')');
        assert(cs@ =~= tree_line(items.deep_view(), id@, depth as nat));
    }
    crate::text::string_from_chars(&cs)
}

/// The lines that print the process tree below `id`, starting at `depth`: the line of
/// `id`, then the tree of each row whose parent column is `id`, in row order, four levels
/// deeper. `None` when the walk down the tree never ends, which is when a chain of
/// children is longer than there are rows.
pub fn process_tree_lines(items: &Vec<Vec<String>>, id: &String, depth: usize) -> (r: Option<
    Vec<String>,
>)
    requires
        rows_have_ids(items.deep_view()),
        depth + 4 * (items.len() + 1) <= usize::MAX / 2,
    ensures
        r is Some <==> tree_finite(items.deep_view(), id@, (items.len() + 1) as nat),
        r is None ==> forall|fuel: nat| !#[trigger] tree_finite(items.deep_view(), id@, fuel),
        r matches Some(lines) ==> lines.deep_view() == tree_lines(
            items.deep_view(),
            id@,
            depth as nat,
            (items.len() + 1) as nat,
        ),
        r matches Some(lines) ==> forall|c: Seq<char>, k: nat|
            #[trigger] descends(items.deep_view(), id@, c, k) ==> lines.deep_view().contains(
                tree_line(items.deep_view(), c, depth as nat + 4 * k),
            ),
{
    let mut out: Vec<String> = Vec::new();
    let ok = tree_into(items, id, depth, items.len() + 1, &mut out);
    if ok {
        assert(out.deep_view() =~= Seq::<Seq<char>>::empty() + tree_lines(
            items.deep_view(),
            id@,
            depth as nat,
            (items.len() + 1) as nat,
        ));
        assert forall|c: Seq<char>, k: nat| #[trigger] descends(items.deep_view(), id@, c, k) implies out.deep_view().contains(
            tree_line(items.deep_view(), c, depth as nat + 4 * k),
        ) by {
            law_tree_lists_descendants(items.deep_view(), id@, depth as nat, (items.len() + 1) as nat, c, k);
        }
        Some(out)
    } else {
        assert forall|fuel: nat| !#[trigger] tree_finite(items.deep_view(), id@, fuel) by {
            if tree_finite(items.deep_view(), id@, fuel) {
                law_tree_walk_bound(items.deep_view(), id@, fuel);
            }
        }
        None
    }
}


// ---------------------------------------------------------------------------
// The order in which a process and its descendants are stopped
// ---------------------------------------------------------------------------

/// The PIDs of the processes of `table` (pairs of a PID and its parent) whose parent is
/// `pid`, in table order.
pub open spec fn kill_children(table: Seq<(u32, Option<u32>)>, pid: u32) -> Seq<u32> {
    children_of(table, pid)
}

/// The descendants of `pid`, each child's subtree in table order and every process after
/// its own descendants, then `pid` itself; following at most `fuel` generations.
pub open spec fn kill_sequence(table: Seq<(u32, Option<u32>)>, pid: u32, fuel: nat) -> Seq<u32>
    decreases fuel, 0nat,
{
    if fuel == 0 {
        Seq::empty()
    } else {
        kill_forest(table, kill_children(table, pid), (fuel - 1) as nat).push(pid)
    }
}

pub open spec fn kill_forest(table: Seq<(u32, Option<u32>)>, pids: Seq<u32>, fuel: nat) -> Seq<u32>
    decreases fuel, pids.len() + 1,
{
    if pids.len() == 0 {
        Seq::empty()
    } else {
        kill_forest(table, pids.drop_last(), fuel) + kill_sequence(table, pids.last(), fuel)
    }
}

/// Every chain of children below `pid` ends within `fuel` generations.
pub open spec fn kill_tree_finite(table: Seq<(u32, Option<u32>)>, pid: u32, fuel: nat) -> bool {
    walk_finite(table, pid, fuel)
}

/// Every chain of children below each of `pids` ends within `fuel` generations.
pub open spec fn kill_forest_finite(table: Seq<(u32, Option<u32>)>, pids: Seq<u32>, fuel: nat) -> bool {
    walk_forest_finite(table, pids, fuel)
}

/// Once the walk below `pid` ends within `fuel` generations, allowing more generations
/// changes nothing: the stop order is the same.
pub proof fn law_kill_fuel_enough(table: Seq<(u32, Option<u32>)>, pid: u32, fuel: nat, more: nat)
    requires
        kill_tree_finite(table, pid, fuel),
        fuel <= more,
    ensures
        kill_tree_finite(table, pid, more),
        kill_sequence(table, pid, more) == kill_sequence(table, pid, fuel),
    decreases fuel, 0nat,
{
    lemma_kill_forest_fuel_enough(table, kill_children(table, pid), (fuel - 1) as nat, (more - 1) as nat);
}

proof fn lemma_kill_forest_fuel_enough(
    table: Seq<(u32, Option<u32>)>,
    pids: Seq<u32>,
    fuel: nat,
    more: nat,
)
    requires
        kill_forest_finite(table, pids, fuel),
        fuel <= more,
    ensures
        kill_forest_finite(table, pids, more),
        kill_forest(table, pids, more) == kill_forest(table, pids, fuel),
    decreases fuel, pids.len() + 1,
{
    if pids.len() > 0 {
        lemma_kill_forest_fuel_enough(table, pids.drop_last(), fuel, more);
        law_kill_fuel_enough(table, pids.last(), fuel, more);
    }
}

/// `c` descends from `pid` in `k` generations of `table`: a chain of `k` entries leads down
/// from `pid` to `c`, each entry's parent naming the one before.
pub open spec fn kill_descends(table: Seq<(u32, Option<u32>)>, pid: u32, c: u32, k: nat) -> bool
    decreases k,
{
    if k == 0 {
        c == pid
    } else {
        exists|j: int|
            0 <= j < table.len() && (#[trigger] table[j]).1 == Some(pid) && kill_descends(
                table,
                table[j].0,
                c,
                (k - 1) as nat,
            )
    }
}

proof fn lemma_kill_forest_holds(table: Seq<(u32, Option<u32>)>, pids: Seq<u32>, fuel: nat, i: int, m: int)
    requires
        0 <= i < pids.len(),
        0 <= m < kill_sequence(table, pids[i], fuel).len(),
    ensures
        kill_forest(table, pids, fuel).contains(kill_sequence(table, pids[i], fuel)[m]),
    decreases pids.len(),
{
    let d = pids.drop_last();
    let fd = kill_forest(table, d, fuel);
    let f = kill_forest(table, pids, fuel);
    assert(f == fd + kill_sequence(table, pids.last(), fuel));
    let x = kill_sequence(table, pids[i], fuel)[m];
    if i < pids.len() - 1 {
        assert(d[i] == pids[i]);
        lemma_kill_forest_holds(table, d, fuel, i, m);
        let w = choose|w: int| 0 <= w < fd.len() && fd[w] == x;
        assert(f[w] == x);
    } else {
        assert(f[fd.len() + m] == x);
    }
}

/// Every descendant of `pid`, however deep, is stopped: it is in the stop order.
pub proof fn law_kill_order_stops_descendants(
    table: Seq<(u32, Option<u32>)>,
    pid: u32,
    fuel: nat,
    c: u32,
    k: nat,
)
    requires
        kill_tree_finite(table, pid, fuel),
        kill_descends(table, pid, c, k),
    ensures
        k < fuel,
        kill_sequence(table, pid, fuel).contains(c),
    decreases k,
{
    let ids = kill_children(table, pid);
    let f = kill_forest(table, ids, (fuel - 1) as nat);
    let order = kill_sequence(table, pid, fuel);
    assert(order == f.push(pid));
    if k == 0 {
        assert(order[f.len() as int] == pid);
    } else {
        let j = choose|j: int|
            0 <= j < table.len() && (#[trigger] table[j]).1 == Some(pid) && kill_descends(
                table,
                table[j].0,
                c,
                (k - 1) as nat,
            );
        let ch = table[j].0;
        lemma_children_members(table, pid);
        assert(ids.contains(ch));
        let ii = choose|ii: int| 0 <= ii < ids.len() && ids[ii] == ch;
        lemma_walk_forest_finite_all(table, ids, (fuel - 1) as nat);
        assert(kill_tree_finite(table, ids[ii], (fuel - 1) as nat));
        law_kill_order_stops_descendants(table, ch, (fuel - 1) as nat, c, (k - 1) as nat);
        let sub = kill_sequence(table, ch, (fuel - 1) as nat);
        let m = choose|m: int| 0 <= m < sub.len() && sub[m] == c;
        lemma_kill_forest_holds(table, ids, (fuel - 1) as nat, ii, m);
        let w = choose|w: int| 0 <= w < f.len() && f[w] == c;
        assert(order[w] == c);
    }
}

fn kill_children_of(table: &Vec<(u32, Option<u32>)>, pid: u32) -> (r: Vec<u32>)
    ensures
        r@ == kill_children(table@, pid),
{
    let mut r: Vec<u32> = Vec::new();
    let mut i: usize = 0;
    while i < table.len()
        invariant
            i <= table.len(),
            r@ == kill_children(table@.subrange(0, i as int), pid),
        decreases table.len() - i,
    {
        assert(table@.subrange(0, i + 1).drop_last() == table@.subrange(0, i as int));
        assert(table@.subrange(0, i + 1).last() == table@[i as int]);
        let (child, parent) = table[i];
        if parent == Some(pid) {
            r.push(child);
        }
        i = i + 1;
    }
    assert(table@.subrange(0, i as int) == table@);
    r
}

fn kill_tree_into(table: &Vec<(u32, Option<u32>)>, pid: u32, fuel: usize, out: &mut Vec<u32>) -> (ok:
    bool)
    ensures
        ok == kill_tree_finite(table@, pid, fuel as nat),
        ok ==> final(out)@ == old(out)@ + kill_sequence(table@, pid, fuel as nat),
    decreases fuel, 0nat,
{
    if fuel == 0 {
        return false;
    }
    let children = kill_children_of(table, pid);
    let ghost before = out@;
    let ok = kill_forest_into(table, &children, fuel - 1, out);
    if ok {
        out.push(pid);
        assert(out@ =~= before + kill_sequence(table@, pid, fuel as nat));
    }
    ok
}

fn kill_forest_into(table: &Vec<(u32, Option<u32>)>, pids: &Vec<u32>, fuel: usize, out: &mut Vec<
    u32,
>) -> (ok: bool)
    ensures
        ok == kill_forest_finite(table@, pids@, fuel as nat),
        ok ==> final(out)@ == old(out)@ + kill_forest(table@, pids@, fuel as nat),
    decreases fuel, 1nat,
{
    let ghost start = out@;
    let mut i: usize = 0;
    while i < pids.len()
        invariant
            i <= pids.len(),
            kill_forest_finite(table@, pids@.subrange(0, i as int), fuel as nat),
            out@ == start + kill_forest(table@, pids@.subrange(0, i as int), fuel as nat),
        decreases pids.len() - i,
    {
        let ghost pre = pids@.subrange(0, i as int);
        let ghost next = pids@.subrange(0, i + 1);
        assert(next.drop_last() == pre);
        assert(next.last() == pids@[i as int]);
        let ok = kill_tree_into(table, pids[i], fuel, out);
        if !ok {
            proof {
                lemma_walk_forest_finite_all(table@, pids@, fuel as nat);
            }
            return false;
        }
        assert(out@ =~= start + kill_forest(table@, next, fuel as nat));
        i = i + 1;
    }
    assert(pids@.subrange(0, i as int) == pids@);
    true
}

/// A walk down the table that ends at all ends within as many generations as there are
/// entries, plus one: when `kill_order` answers `None`, no number of generations would
/// have been enough.
pub proof fn law_kill_walk_bound(table: Seq<(u32, Option<u32>)>, pid: u32, fuel: nat)
    requires
        kill_tree_finite(table, pid, fuel),
    ensures
        kill_tree_finite(table, pid, (table.len() + 1) as nat),
{
    law_table_walk_bound(table, pid, fuel);
}

/// The process itself is stopped last, after all its descendants; with no process in the
/// table whose parent it is, it is the only one stopped.
pub proof fn law_kill_order_ends_with_pid(table: Seq<(u32, Option<u32>)>, pid: u32, fuel: nat)
    requires
        fuel > 0,
    ensures
        kill_sequence(table, pid, fuel).len() > 0,
        kill_sequence(table, pid, fuel).last() == pid,
        kill_children(table, pid).len() == 0 ==> kill_sequence(table, pid, fuel) == seq![pid],
{
    if kill_children(table, pid).len() == 0 {
        assert(kill_sequence(table, pid, fuel) =~= seq![pid]);
    }
}

/// A process that is no row's parent takes one line of the tree, its own.
pub proof fn law_leaf_takes_one_line(items: Seq<Seq<Seq<char>>>, id: Seq<char>, depth: nat, fuel: nat)
    requires
        fuel > 0,
        child_ids(items, id).len() == 0,
    ensures
        tree_lines(items, id, depth, fuel) == seq![tree_line(items, id, depth)],
        tree_finite(items, id, fuel),
{
    assert(tree_lines(items, id, depth, fuel) =~= seq![tree_line(items, id, depth)]);
}

/// The order in which a process and its descendants are stopped, given a snapshot of the
/// process table as pairs of a PID and its parent: for each process whose parent is
/// `pid`, in table order, its own descendants and then itself, and `pid` last. `None` when
/// the walk down the table never ends, which is when a chain of children is longer than
/// the table.
pub fn kill_order(table: &Vec<(u32, Option<u32>)>, pid: u32) -> (r: Option<Vec<u32>>)
    requires
        table.len() < usize::MAX,
    ensures
        r is Some <==> kill_tree_finite(table@, pid, (table.len() + 1) as nat),
        r is None ==> forall|fuel: nat| !#[trigger] kill_tree_finite(table@, pid, fuel),
        r matches Some(order) ==> order@ == kill_sequence(table@, pid, (table.len() + 1) as nat),
        r matches Some(order) ==> forall|c: u32, k: nat|
            #[trigger] kill_descends(table@, pid, c, k) ==> order@.contains(c),
{
    let mut out: Vec<u32> = Vec::new();
    let ok = kill_tree_into(table, pid, table.len() + 1, &mut out);
    if ok {
        assert(out@ =~= Seq::<u32>::empty() + kill_sequence(table@, pid, (table.len() + 1) as nat));
        assert forall|c: u32, k: nat| #[trigger] kill_descends(table@, pid, c, k) implies out@.contains(c) by {
            law_kill_order_stops_descendants(table@, pid, (table.len() + 1) as nat, c, k);
        }
        Some(out)
    } else {
        assert forall|fuel: nat| !#[trigger] kill_tree_finite(table@, pid, fuel) by {
            if kill_tree_finite(table@, pid, fuel) {
                law_kill_walk_bound(table@, pid, fuel);
            }
        }
        None
    }
}

} // verus!
