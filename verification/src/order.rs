use vstd::prelude::*;

verus! {

// ---------------------------------------------------------------------------
// Sort keys: sequences of integers in lexicographic order
// ---------------------------------------------------------------------------

/// `a` comes strictly before `b` in lexicographic order (a proper prefix comes first).
pub open spec fn key_lt(a: Seq<i64>, b: Seq<i64>) -> bool
    decreases a.len(),
{
    if b.len() == 0 {
        false
    } else if a.len() == 0 {
        true
    } else if a[0] < b[0] {
        true
    } else if a[0] > b[0] {
        false
    } else {
        key_lt(a.drop_first(), b.drop_first())
    }
}

/// `a` comes before `b` or is equal to it.
pub open spec fn key_le(a: Seq<i64>, b: Seq<i64>) -> bool {
    !key_lt(b, a)
}

pub proof fn lemma_key_lt_irreflexive(a: Seq<i64>)
    ensures
        !key_lt(a, a),
    decreases a.len(),
{
    if a.len() > 0 {
        lemma_key_lt_irreflexive(a.drop_first());
    }
}

pub proof fn lemma_key_lt_asymmetric(a: Seq<i64>, b: Seq<i64>)
    ensures
        key_lt(a, b) ==> !key_lt(b, a),
    decreases a.len(),
{
    if a.len() > 0 && b.len() > 0 && a[0] == b[0] {
        lemma_key_lt_asymmetric(a.drop_first(), b.drop_first());
    }
}

pub proof fn lemma_key_lt_transitive(a: Seq<i64>, b: Seq<i64>, c: Seq<i64>)
    requires
        key_lt(a, b),
        key_lt(b, c),
    ensures
        key_lt(a, c),
    decreases a.len(),
{
    if a.len() > 0 && b.len() > 0 && c.len() > 0 && a[0] == b[0] && b[0] == c[0] {
        lemma_key_lt_transitive(a.drop_first(), b.drop_first(), c.drop_first());
    }
}

/// Two keys that are not equal are ordered one way or the other.
pub proof fn lemma_key_lt_total(a: Seq<i64>, b: Seq<i64>)
    ensures
        a == b || key_lt(a, b) || key_lt(b, a),
    decreases a.len(),
{
    if a.len() > 0 && b.len() > 0 && a[0] == b[0] {
        lemma_key_lt_total(a.drop_first(), b.drop_first());
        if a.drop_first() == b.drop_first() {
            assert(a =~= seq![a[0]] + a.drop_first());
            assert(b =~= seq![b[0]] + b.drop_first());
        }
    } else if a.len() == 0 && b.len() == 0 {
        assert(a =~= b);
    }
}

pub proof fn lemma_key_le_transitive(a: Seq<i64>, b: Seq<i64>, c: Seq<i64>)
    requires
        key_le(a, b),
        key_le(b, c),
    ensures
        key_le(a, c),
{
    lemma_key_lt_total(a, b);
    lemma_key_lt_total(b, c);
    if key_lt(c, a) {
        if a == b {
            assert(key_lt(c, b));
        } else if b == c {
            assert(key_lt(b, a));
        } else {
            lemma_key_lt_transitive(a, b, c);
            lemma_key_lt_asymmetric(a, c);
        }
    }
}

/// Whether `a` comes strictly before `b`.
pub fn key_less(a: &Vec<i64>, b: &Vec<i64>) -> (r: bool)
    ensures
        r == key_lt(a@, b@),
{
    let mut i: usize = 0;
    assert(a@.skip(0) =~= a@);
    assert(b@.skip(0) =~= b@);
    while i < a.len() && i < b.len() && a[i] == b[i]
        invariant
            i <= a.len(),
            i <= b.len(),
            key_lt(a@, b@) == key_lt(a@.skip(i as int), b@.skip(i as int)),
        decreases a.len() - i,
    {
        assert(a@.skip(i as int).drop_first() =~= a@.skip(i + 1));
        assert(b@.skip(i as int).drop_first() =~= b@.skip(i + 1));
        i = i + 1;
    }
    if i == b.len() {
        false
    } else if i == a.len() {
        true
    } else {
        a[i] < b[i]
    }
}

// ---------------------------------------------------------------------------
// Stable orderings
// ---------------------------------------------------------------------------

/// `p` lists each index below `n` exactly once.
pub open spec fn is_permutation(p: Seq<usize>, n: nat) -> bool {
    &&& p.len() == n
    &&& forall|i: int| 0 <= i < n ==> #[trigger] p[i] < n
    &&& forall|i: int, j: int| 0 <= i < n && 0 <= j < n && i != j ==> p[i] != p[j]
}

/// Taking `keys` in the order `p` lists them gives non-decreasing keys, and items with
/// equal keys keep the order they had: what a stable sort by key produces.
pub open spec fn is_stable_order(keys: Seq<Seq<i64>>, p: Seq<usize>) -> bool {
    &&& is_permutation(p, keys.len())
    &&& forall|i: int, j: int|
        0 <= i < j < p.len() ==> key_le(#[trigger] keys[p[i] as int], #[trigger] keys[p[j] as int])
    &&& forall|i: int, j: int|
        0 <= i < j < p.len() && #[trigger] keys[p[i] as int] == #[trigger] keys[p[j] as int]
            ==> p[i] < p[j]
}

/// A permutation of the indices below `n` lists each of them somewhere.
pub proof fn lemma_permutation_onto(p: Seq<usize>, n: nat, v: int)
    requires
        is_permutation(p, n),
        0 <= v < n,
    ensures
        exists|j: int| 0 <= j < n && p[j] == v,
{
    let s = p.map_values(|x: usize| x as int);
    assert(s.no_duplicates()) by {
        assert forall|i: int, j: int| 0 <= i < s.len() && 0 <= j < s.len() && i != j implies s[i]
            != s[j] by {
            assert(p[i] != p[j]);
        }
    }
    s.unique_seq_to_set();
    let range = vstd::set_lib::set_int_range(0, n as int);
    vstd::set_lib::lemma_int_range(0, n as int);
    assert(s.to_set().subset_of(range)) by {
        assert forall|x: int| s.to_set().contains(x) implies range.contains(x) by {
            assert(s.contains(x));
            let j = choose|j: int| 0 <= j < s.len() && s[j] == x;
            assert(p[j] < n);
        }
    }
    vstd::seq_lib::seq_to_set_is_finite(s);
    assert(s.to_set().finite());
    vstd::set_lib::lemma_subset_equality(s.to_set(), range);
    assert(range.contains(v));
    assert(s.to_set().contains(v));
    assert(s.contains(v));
    let j = choose|j: int| 0 <= j < s.len() && s[j] == v;
    assert(p[j] == v);
}

proof fn lemma_stable_orders_agree_below(keys: Seq<Seq<i64>>, p: Seq<usize>, q: Seq<usize>, i: int)
    requires
        is_stable_order(keys, p),
        is_stable_order(keys, q),
        0 <= i <= p.len(),
    ensures
        forall|j: int| 0 <= j < i ==> p[j] == q[j],
    decreases i,
{
    if i > 0 {
        let k = i - 1;
        lemma_stable_orders_agree_below(keys, p, q, k);
        let n = keys.len();
        let a = p[k];
        let b = q[k];
        if a != b {
            lemma_permutation_onto(p, n, b as int);
            let jb = choose|j: int| 0 <= j < n && p[j] == b as int;
            lemma_permutation_onto(q, n, a as int);
            let ja = choose|j: int| 0 <= j < n && q[j] == a as int;
            if jb < k {
                assert(q[jb] == b);
                assert(false);
            }
            if ja < k {
                assert(p[ja] == a);
                assert(false);
            }
            assert(jb > k && ja > k);
            let ka = keys[a as int];
            let kb = keys[b as int];
            assert(key_le(ka, kb));
            assert(key_le(kb, ka));
            lemma_key_lt_total(ka, kb);
            assert(ka == kb);
            assert(a < b);
            assert(b < a);
        }
    }
}

/// A stable order is unique: two stable orders of the same keys are the same. So the
/// result of a stable sort is fully determined by the input and the keys.
pub proof fn law_stable_order_unique(keys: Seq<Seq<i64>>, p: Seq<usize>, q: Seq<usize>)
    requires
        is_stable_order(keys, p),
        is_stable_order(keys, q),
    ensures
        p == q,
{
    lemma_stable_orders_agree_below(keys, p, q, p.len() as int);
    assert(p =~= q);
}

/// The stable order of the given keys, by insertion.
pub fn stable_order(keys: &Vec<Vec<i64>>) -> (p: Vec<usize>)
    ensures
        is_stable_order(keys.deep_view(), p@),
{
    let n = keys.len();
    let ghost ks = keys.deep_view();
    assert(forall|i: int| 0 <= i < n ==> #[trigger] ks[i] == keys@[i]@);
    let mut p: Vec<usize> = Vec::new();
    let mut i: usize = 0;
    while i < n
        invariant
            i <= n,
            p@.len() == i,
            forall|l: int| 0 <= l < i ==> p@[l] == l,
        decreases n - i,
    {
        p.push(i);
        i = i + 1;
    }
    let mut j: usize = 0;
    while j < n
        invariant
            n == keys.len(),
            ks == keys.deep_view(),
            forall|i: int| 0 <= i < n ==> #[trigger] ks[i] == keys@[i]@,
            j <= n,
            p@.len() == n,
            forall|l: int| j <= l < n ==> #[trigger] p@[l] == l,
            forall|l: int| 0 <= l < j ==> #[trigger] p@[l] < j,
            forall|a: int, b: int| 0 <= a < n && 0 <= b < n && a != b ==> p@[a] != p@[b],
            forall|a: int, b: int|
                0 <= a < b < j ==> key_le(#[trigger] ks[p@[a] as int], #[trigger] ks[p@[b] as int]),
            forall|a: int, b: int|
                0 <= a < b < j && #[trigger] ks[p@[a] as int] == #[trigger] ks[p@[b] as int] ==> p@[a]
                    < p@[b],
        decreases n - j,
    {
        let mut k = j;
        let ghost kj = ks[j as int];
        assert(p@[j as int] == j);
        while k > 0 && key_less(&keys[j], &keys[p[k - 1]])
            invariant
                n == keys.len(),
                ks == keys.deep_view(),
                forall|i: int| 0 <= i < n ==> #[trigger] ks[i] == keys@[i]@,
                j < n,
                k <= j,
                kj == ks[j as int],
                p@.len() == n,
                p@[k as int] == j,
                forall|l: int| j < l < n ==> #[trigger] p@[l] == l,
                forall|l: int| 0 <= l <= j && l != k ==> #[trigger] p@[l] < j,
                forall|a: int, b: int| 0 <= a < n && 0 <= b < n && a != b ==> p@[a] != p@[b],
                forall|a: int, b: int|
                    0 <= a < b <= j && a != k && b != k ==> key_le(
                        #[trigger] ks[p@[a] as int],
                        #[trigger] ks[p@[b] as int],
                    ),
                forall|a: int, b: int|
                    0 <= a < b <= j && a != k && b != k && #[trigger] ks[p@[a] as int]
                        == #[trigger] ks[p@[b] as int] ==> p@[a] < p@[b],
                forall|b: int| k < b <= j ==> key_lt(kj, #[trigger] ks[p@[b] as int]),
            decreases k,
        {
            let ghost old_p = p@;
            let y = p[k - 1];
            p.set(k - 1, j);
            p.set(k, y);
            assert(forall|l: int| 0 <= l < n && l != k - 1 && l != k ==> p@[l] == old_p[l]);
            assert forall|a: int, b: int| 0 <= a < n && 0 <= b < n && a != b implies p@[a] != p@[b] by {
                let oa = if a == k - 1 { k as int } else if a == k { k - 1 } else { a };
                let ob = if b == k - 1 { k as int } else if b == k { k - 1 } else { b };
                assert(p@[a] == old_p[oa]);
                assert(p@[b] == old_p[ob]);
            }
            assert forall|a: int, b: int|
                0 <= a < b <= j && a != k - 1 && b != k - 1 implies key_le(
                #[trigger] ks[p@[a] as int],
                #[trigger] ks[p@[b] as int],
            ) by {
                let oa = if a == k { k - 1 } else { a };
                let ob = if b == k { k - 1 } else { b };
                assert(p@[a] == old_p[oa]);
                assert(p@[b] == old_p[ob]);
            }
            assert forall|a: int, b: int|
                0 <= a < b <= j && a != k - 1 && b != k - 1 && #[trigger] ks[p@[a] as int]
                    == #[trigger] ks[p@[b] as int] implies p@[a] < p@[b] by {
                let oa = if a == k { k - 1 } else { a };
                let ob = if b == k { k - 1 } else { b };
                assert(p@[a] == old_p[oa]);
                assert(p@[b] == old_p[ob]);
            }
            k = k - 1;
        }
        proof {
            assert forall|a: int, b: int|
                0 <= a < b <= j implies key_le(
                #[trigger] ks[p@[a] as int],
                #[trigger] ks[p@[b] as int],
            ) by {
                if b == k {
                    if a < k - 1 {
                        lemma_key_le_transitive(ks[p@[a] as int], ks[p@[k - 1] as int], kj);
                    }
                } else if a == k {
                    lemma_key_lt_asymmetric(kj, ks[p@[b] as int]);
                }
            }
            assert forall|a: int, b: int|
                0 <= a < b <= j && #[trigger] ks[p@[a] as int] == #[trigger] ks[p@[b] as int]
                    implies p@[a] < p@[b] by {
                if a == k {
                    lemma_key_lt_irreflexive(kj);
                }
            }
        }
        j = j + 1;
    }
    p
}

} // verus!
