use vstd::prelude::*;

verus! {

// ---------------------------------------------------------------------------
// Walks down a table of n entries end within n + 1 generations, or never
// ---------------------------------------------------------------------------

/// `fin(y, k)`: every chain of children below `y` ends within `k` generations, where the
/// children of `y` are the entries `j < n` with `child(j, y)`, and `id(j)` names entry `j`.
pub open spec fn is_walk<A>(
    fin: spec_fn(A, nat) -> bool,
    child: spec_fn(int, A) -> bool,
    id: spec_fn(int) -> A,
    n: nat,
) -> bool {
    &&& forall|y: A| !#[trigger] fin(y, 0)
    &&& forall|y: A, k: nat|
        #[trigger] fin(y, k + 1) == (forall|j: int| 0 <= j < n && #[trigger] child(j, y) ==> fin(id(j), k))
}

proof fn lemma_walk_monotone<A>(
    fin: spec_fn(A, nat) -> bool,
    child: spec_fn(int, A) -> bool,
    id: spec_fn(int) -> A,
    n: nat,
    k: nat,
)
    requires
        is_walk(fin, child, id, n),
    ensures
        forall|y: A| #[trigger] fin(y, k) ==> fin(y, k + 1),
    decreases k,
{
    if k > 0 {
        let k1 = (k - 1) as nat;
        lemma_walk_monotone(fin, child, id, n, k1);
        assert forall|y: A| #[trigger] fin(y, k) implies fin(y, k + 1) by {
            assert(fin(y, k1 + 1));
            assert forall|j: int| 0 <= j < n && #[trigger] child(j, y) implies fin(id(j), k) by {
                assert(fin(id(j), k1));
            }
        }
    }
}

proof fn lemma_walk_monotone_to<A>(
    fin: spec_fn(A, nat) -> bool,
    child: spec_fn(int, A) -> bool,
    id: spec_fn(int) -> A,
    n: nat,
    y: A,
    k: nat,
    m: nat,
)
    requires
        is_walk(fin, child, id, n),
        fin(y, k),
        k <= m,
    ensures
        fin(y, m),
    decreases m - k,
{
    if k < m {
        lemma_walk_monotone(fin, child, id, n, k);
        lemma_walk_monotone_to(fin, child, id, n, y, k + 1, m);
    }
}

/// The entries whose walks end within `k` generations.
pub open spec fn walk_done<A>(fin: spec_fn(A, nat) -> bool, id: spec_fn(int) -> A, n: nat, k: nat) -> Set<int> {
    Set::new(|j: int| 0 <= j < n && fin(id(j), k))
}

/// When one more generation adds no entry, no further generation does, for any start.
proof fn lemma_walk_stable<A>(
    fin: spec_fn(A, nat) -> bool,
    child: spec_fn(int, A) -> bool,
    id: spec_fn(int) -> A,
    n: nat,
    k: nat,
    m: nat,
)
    requires
        is_walk(fin, child, id, n),
        walk_done(fin, id, n, k) == walk_done(fin, id, n, k + 1),
        k <= m,
    ensures
        walk_done(fin, id, n, m) == walk_done(fin, id, n, m + 1),
        forall|y: A| #[trigger] fin(y, m + 1) == fin(y, k + 1),
    decreases m - k,
{
    if k < m {
        lemma_walk_stable(fin, child, id, n, k, (m - 1) as nat);
        let m1 = (m - 1) as nat;
        // fin(., m + 1) is decided by walk_done(m), which equals walk_done(m - 1).
        assert forall|y: A| #[trigger] fin(y, m + 1) == fin(y, m1 + 1) by {
            assert(fin(y, m + 1) == (forall|j: int| 0 <= j < n && #[trigger] child(j, y) ==> fin(id(j), m)));
            assert(fin(y, m1 + 1) == (forall|j: int| 0 <= j < n && #[trigger] child(j, y) ==> fin(id(j), m1)));
            assert forall|j: int| 0 <= j < n implies fin(#[trigger] id(j), m) == fin(id(j), m1) by {
                assert(walk_done(fin, id, n, m1).contains(j) == walk_done(fin, id, n, m1 + 1).contains(j));
            }
        }
        assert(walk_done(fin, id, n, m) =~= walk_done(fin, id, n, m + 1)) by {
            assert forall|j: int| 0 <= j < n implies fin(#[trigger] id(j), m) == fin(id(j), m + 1) by {
                assert(fin(id(j), m + 1) == fin(id(j), m1 + 1));
            }
        }
    }
}

/// Until the walk is stable, each generation adds an entry.
proof fn lemma_walk_grows<A>(
    fin: spec_fn(A, nat) -> bool,
    child: spec_fn(int, A) -> bool,
    id: spec_fn(int) -> A,
    n: nat,
    m: nat,
)
    requires
        is_walk(fin, child, id, n),
        forall|k: nat| k < m ==> walk_done(fin, id, n, k) != #[trigger] walk_done(fin, id, n, k + 1),
    ensures
        walk_done(fin, id, n, m).finite(),
        walk_done(fin, id, n, m).len() >= m,
    decreases m,
{
    let range = vstd::set_lib::set_int_range(0, n as int);
    vstd::set_lib::lemma_int_range(0, n as int);
    let g = walk_done(fin, id, n, m);
    assert(g.subset_of(range));
    vstd::set_lib::lemma_len_subset(g, range);
    if m > 0 {
        let m1 = (m - 1) as nat;
        lemma_walk_grows(fin, child, id, n, m1);
        let g1 = walk_done(fin, id, n, m1);
        lemma_walk_monotone(fin, child, id, n, m1);
        assert(g1.subset_of(g));
        assert(walk_done(fin, id, n, m1) != walk_done(fin, id, n, m1 + 1));
        assert(m1 + 1 == m);
        assert(g1 != g);
        let j = choose|j: int| g.contains(j) && !g1.contains(j);
        assert(exists|j: int| g.contains(j) && !g1.contains(j)) by {
            if !(exists|j: int| g.contains(j) && !g1.contains(j)) {
                assert(g1 =~= g);
            }
        }
        assert(g1.subset_of(g.remove(j)));
        vstd::set_lib::lemma_len_subset(g1, g.remove(j));
    }
}

/// A walk down a table of `n` entries that ends at all ends within `n + 1` generations:
/// a longer chain would pass an entry twice and go round for ever.
pub proof fn lemma_walk_bound<A>(
    fin: spec_fn(A, nat) -> bool,
    child: spec_fn(int, A) -> bool,
    id: spec_fn(int) -> A,
    n: nat,
    x: A,
    f: nat,
)
    requires
        is_walk(fin, child, id, n),
        fin(x, f),
    ensures
        fin(x, n + 1),
{
    if f <= n + 1 {
        lemma_walk_monotone_to(fin, child, id, n, x, f, n + 1);
    } else {
        // Some generation up to n adds no entry.
        if forall|k: nat| k < n + 1 ==> walk_done(fin, id, n, k) != #[trigger] walk_done(fin, id, n, k + 1) {
            lemma_walk_grows(fin, child, id, n, n + 1);
            let range = vstd::set_lib::set_int_range(0, n as int);
            vstd::set_lib::lemma_int_range(0, n as int);
            vstd::set_lib::lemma_len_subset(walk_done(fin, id, n, n + 1), range);
            assert(false);
        }
        let k = choose|k: nat| k < n + 1 && walk_done(fin, id, n, k) == #[trigger] walk_done(fin, id, n, k + 1);
        lemma_walk_stable(fin, child, id, n, k, (f - 1) as nat);
        assert(fin(x, ((f - 1) as nat) + 1));
        assert(fin(x, k + 1));
        lemma_walk_monotone_to(fin, child, id, n, x, k + 1, n + 1);
    }
}

// ---------------------------------------------------------------------------
// Walks down a table of (id, parent) entries
// ---------------------------------------------------------------------------

/// The ids of the entries whose parent is `x`, in table order.
pub open spec fn children_of<A>(table: Seq<(A, Option<A>)>, x: A) -> Seq<A>
    decreases table.len(),
{
    if table.len() == 0 {
        Seq::empty()
    } else {
        let rest = children_of(table.drop_last(), x);
        if table.last().1 == Some(x) {
            rest.push(table.last().0)
        } else {
            rest
        }
    }
}

/// Every chain of children below `x` ends within `fuel` generations.
pub open spec fn walk_finite<A>(table: Seq<(A, Option<A>)>, x: A, fuel: nat) -> bool
    decreases fuel, 0nat,
{
    fuel > 0 && walk_forest_finite(table, children_of(table, x), (fuel - 1) as nat)
}

/// Every chain of children below each of `xs` ends within `fuel` generations.
pub open spec fn walk_forest_finite<A>(table: Seq<(A, Option<A>)>, xs: Seq<A>, fuel: nat) -> bool
    decreases fuel, xs.len() + 1,
{
    xs.len() == 0 || (walk_forest_finite(table, xs.drop_last(), fuel) && walk_finite(
        table,
        xs.last(),
        fuel,
    ))
}

/// The walks below each of `xs` end exactly when each of them does.
pub proof fn lemma_walk_forest_finite_all<A>(table: Seq<(A, Option<A>)>, xs: Seq<A>, fuel: nat)
    ensures
        walk_forest_finite(table, xs, fuel) == (forall|i: int|
            0 <= i < xs.len() ==> walk_finite(table, #[trigger] xs[i], fuel)),
    decreases xs.len(),
{
    if xs.len() > 0 {
        let d = xs.drop_last();
        lemma_walk_forest_finite_all(table, d, fuel);
        if walk_forest_finite(table, xs, fuel) {
            assert forall|i: int| 0 <= i < xs.len() implies walk_finite(table, #[trigger] xs[i], fuel) by {
                if i < xs.len() - 1 {
                    assert(d[i] == xs[i]);
                }
            }
        }
        if forall|i: int| 0 <= i < xs.len() ==> walk_finite(table, #[trigger] xs[i], fuel) {
            assert forall|i: int| 0 <= i < d.len() implies walk_finite(table, #[trigger] d[i], fuel) by {
                assert(d[i] == xs[i]);
            }
            assert(walk_finite(table, xs[xs.len() - 1], fuel));
        }
    }
}

/// `c` is the id of an entry whose parent is `y`.
pub open spec fn is_child<A>(table: Seq<(A, Option<A>)>, y: A, c: A) -> bool {
    exists|j: int| 0 <= j < table.len() && #[trigger] table[j].1 == Some(y) && table[j].0 == c
}

pub proof fn lemma_children_members<A>(table: Seq<(A, Option<A>)>, y: A)
    ensures
        forall|i: int|
            0 <= i < children_of(table, y).len() ==> is_child(table, y, #[trigger] children_of(table, y)[i]),
        forall|j: int|
            0 <= j < table.len() && #[trigger] table[j].1 == Some(y) ==> children_of(table, y).contains(
                table[j].0,
            ),
    decreases table.len(),
{
    if table.len() > 0 {
        let rest = table.drop_last();
        lemma_children_members(rest, y);
        let c = children_of(table, y);
        let cr = children_of(rest, y);
        assert forall|i: int| 0 <= i < c.len() implies is_child(table, y, #[trigger] c[i]) by {
            if i < cr.len() {
                assert(c[i] == cr[i]);
                assert(is_child(rest, y, cr[i]));
                let j = choose|j: int|
                    0 <= j < rest.len() && #[trigger] rest[j].1 == Some(y) && rest[j].0 == cr[i];
                assert(rest[j] == table[j]);
                assert(table[j].1 == Some(y));
            } else {
                assert(table[table.len() - 1] == table.last());
                assert(table[table.len() - 1].1 == Some(y));
            }
        }
        assert forall|j: int| 0 <= j < table.len() && #[trigger] table[j].1 == Some(y) implies c.contains(
            table[j].0,
        ) by {
            if j < table.len() - 1 {
                assert(rest[j] == table[j]);
                assert(rest[j].1 == Some(y));
                assert(cr.contains(table[j].0));
                let i = choose|i: int| 0 <= i < cr.len() && cr[i] == table[j].0;
                assert(c[i] == cr[i]);
            } else {
                assert(c[c.len() - 1] == table[j].0);
            }
        }
    }
}

/// The walk down a table by the parent of each entry.
pub proof fn lemma_table_is_walk<A>(table: Seq<(A, Option<A>)>)
    ensures
        is_walk(
            |y: A, k: nat| walk_finite(table, y, k),
            |j: int, y: A| table[j].1 == Some(y),
            |j: int| table[j].0,
            table.len(),
        ),
{
    let fin = |y: A, k: nat| walk_finite(table, y, k);
    let child = |j: int, y: A| table[j].1 == Some(y);
    let id = |j: int| table[j].0;
    let n = table.len();
    assert forall|y: A, k: nat| #[trigger] fin(y, k + 1) == (forall|j: int|
        0 <= j < n && #[trigger] child(j, y) ==> fin(id(j), k)) by {
        let c = children_of(table, y);
        lemma_walk_forest_finite_all(table, c, k);
        lemma_children_members(table, y);
        if fin(y, k + 1) {
            assert forall|j: int| 0 <= j < n && #[trigger] child(j, y) implies fin(id(j), k) by {
                assert(table[j].1 == Some(y));
                assert(c.contains(table[j].0));
                let i = choose|i: int| 0 <= i < c.len() && c[i] == table[j].0;
                assert(walk_finite(table, c[i], k));
            }
        }
        if forall|j: int| 0 <= j < n && #[trigger] child(j, y) ==> fin(id(j), k) {
            assert forall|i: int| 0 <= i < c.len() implies walk_finite(table, #[trigger] c[i], k) by {
                assert(is_child(table, y, c[i]));
                let j = choose|j: int|
                    0 <= j < table.len() && #[trigger] table[j].1 == Some(y) && table[j].0 == c[i];
                assert(child(j, y));
            }
        }
    }
}

/// A walk down a table that ends at all ends within as many generations as there are
/// entries, plus one.
pub proof fn law_table_walk_bound<A>(table: Seq<(A, Option<A>)>, x: A, fuel: nat)
    requires
        walk_finite(table, x, fuel),
    ensures
        walk_finite(table, x, (table.len() + 1) as nat),
{
    lemma_table_is_walk(table);
    lemma_walk_bound(
        |y: A, k: nat| walk_finite(table, y, k),
        |j: int, y: A| table[j].1 == Some(y),
        |j: int| table[j].0,
        table.len(),
        x,
        fuel,
    );
}

} // verus!
