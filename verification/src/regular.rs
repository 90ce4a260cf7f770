use vstd::prelude::*;
use indexmap::IndexMap;
use indexmap::IndexSet;
use crate::collections::{
    count_map_entries, count_map_get, count_map_insert, count_map_new, count_map_to_vec,
    edge_set_contains, edge_set_insert, edge_set_items, edge_set_to_vec, edge_set_with_capacity,
    keys_unique,
};
use crate::degrees::{
    count_in, degree_in, lemma_count_in_multiset, lemma_count_push, lemma_degree_push,
    lemma_degree_sum_uniform, lemma_handshake, ordered, push_repeated, simple_edges,
};
use crate::error::InvalidInputError;

verus! {

// ---------------------------------------------------------------------------
// Counting maps, as sequences of (node, count) entries
// ---------------------------------------------------------------------------

/// The total count that the entries give to node `x`.
pub open spec fn pending(p: Seq<(usize, usize)>, x: usize) -> nat
    decreases p.len(),
{
    if p.len() == 0 {
        0
    } else {
        pending(p.drop_last(), x) + (if p.last().0 == x {
            p.last().1 as nat
        } else {
            0nat
        })
    }
}

/// The sum of all counts.
pub open spec fn pending_total(p: Seq<(usize, usize)>) -> nat
    decreases p.len(),
{
    if p.len() == 0 {
        0
    } else {
        pending_total(p.drop_last()) + p.last().1 as nat
    }
}

/// The position of the first entry for `k`, or `-1` when there is none.
pub open spec fn key_index(p: Seq<(usize, usize)>, k: usize) -> int
    decreases p.len(),
{
    if p.len() == 0 {
        -1
    } else if key_index(p.drop_last(), k) >= 0 {
        key_index(p.drop_last(), k)
    } else if p.last().0 == k {
        p.len() - 1
    } else {
        -1
    }
}

/// One more for `k`: its entry is incremented in place, or a new entry
/// `(k, 1)` is appended.
pub open spec fn bumped(p: Seq<(usize, usize)>, k: usize) -> Seq<(usize, usize)> {
    let i = key_index(p, k);
    if i >= 0 {
        p.update(i, (k, (p[i].1 + 1) as usize))
    } else {
        p.push((k, 1))
    }
}

proof fn lemma_key_index(p: Seq<(usize, usize)>, k: usize)
    ensures
        key_index(p, k) == -1 <==> forall|j: int| 0 <= j < p.len() ==> #[trigger] p[j].0 != k,
        key_index(p, k) != -1 ==> 0 <= key_index(p, k) < p.len() && p[key_index(p, k)].0 == k,
        keys_unique(p) ==> forall|j: int|
            0 <= j < p.len() && #[trigger] p[j].0 == k ==> j == key_index(p, k),
    decreases p.len(),
{
    if p.len() > 0 {
        let q = p.drop_last();
        lemma_key_index(q, k);
        assert forall|j: int| 0 <= j < q.len() implies #[trigger] q[j] == p[j] by {}
        if key_index(p, k) == -1 {
            assert forall|j: int| 0 <= j < p.len() implies #[trigger] p[j].0 != k by {
                if j < q.len() {
                    assert(q[j].0 != k);
                }
            }
        }
        if forall|j: int| 0 <= j < p.len() ==> #[trigger] p[j].0 != k {
            assert forall|j: int| 0 <= j < q.len() implies #[trigger] q[j].0 != k by {
                assert(p[j].0 != k);
            }
            assert(p[p.len() - 1].0 != k);
        }
        if keys_unique(p) {
            assert(keys_unique(q)) by {
                assert forall|a: int, b: int| 0 <= a < b < q.len() implies #[trigger] q[a].0
                    != #[trigger] q[b].0 by {
                    assert(p[a].0 != p[b].0);
                }
            }
            assert forall|j: int| 0 <= j < p.len() && #[trigger] p[j].0 == k implies j == key_index(
                p,
                k,
            ) by {
                if j < q.len() {
                    assert(q[j].0 == k);
                } else {
                    if key_index(q, k) != -1 {
                        let i = key_index(q, k);
                        assert(p[i].0 == k);
                        assert(p[i].0 != p[j].0);
                    }
                }
            }
        }
    }
}

/// Each key repeated as many times as its count, entry after entry.
pub open spec fn expand(p: Seq<(usize, usize)>) -> Seq<usize>
    decreases p.len(),
{
    if p.len() == 0 {
        Seq::empty()
    } else {
        expand(p.drop_last()) + Seq::new(p.last().1 as nat, |_i: int| p.last().0)
    }
}

proof fn lemma_pending_update(p: Seq<(usize, usize)>, i: int, k: usize, c: usize, x: usize)
    requires
        0 <= i < p.len(),
        p[i] == (k, c),
        c < usize::MAX,
    ensures
        pending(p.update(i, (k, (c + 1) as usize)), x) == pending(p, x) + (if k == x {
            1nat
        } else {
            0nat
        }),
        pending_total(p.update(i, (k, (c + 1) as usize))) == pending_total(p) + 1,
    decreases p.len(),
{
    let q = p.update(i, (k, (c + 1) as usize));
    if i == p.len() - 1 {
        assert(q.drop_last() =~= p.drop_last());
    } else {
        assert(q.drop_last() =~= p.drop_last().update(i, (k, (c + 1) as usize)));
        lemma_pending_update(p.drop_last(), i, k, c, x);
    }
}

proof fn lemma_pending_push(p: Seq<(usize, usize)>, e: (usize, usize), x: usize)
    ensures
        pending(p.push(e), x) == pending(p, x) + (if e.0 == x {
            e.1 as nat
        } else {
            0nat
        }),
        pending_total(p.push(e)) == pending_total(p) + e.1 as nat,
{
    assert(p.push(e).drop_last() =~= p);
}

/// What one increment does: the count of `k` grows by one, keys stay
/// distinct and below `n`, and no count exceeds `bound + 1`.
proof fn lemma_bumped(p: Seq<(usize, usize)>, k: usize, bound: nat, n: nat)
    requires
        bound < usize::MAX,
        forall|j: int| 0 <= j < p.len() ==> #[trigger] p[j].1 <= bound,
    ensures
        forall|x: usize| #[trigger]
            pending(bumped(p, k), x) == pending(p, x) + (if k == x {
                1nat
            } else {
                0nat
            }),
        pending_total(bumped(p, k)) == pending_total(p) + 1,
        forall|j: int| 0 <= j < bumped(p, k).len() ==> #[trigger] bumped(p, k)[j].1 <= bound + 1,
        keys_unique(p) ==> keys_unique(bumped(p, k)),
        (k < n && forall|j: int| 0 <= j < p.len() ==> #[trigger] p[j].0 < n) ==> forall|j: int|
            0 <= j < bumped(p, k).len() ==> #[trigger] bumped(p, k)[j].0 < n,
{
    lemma_key_index(p, k);
    let i = key_index(p, k);
    if i >= 0 {
        let c = p[i].1;
        assert(c <= bound);
        assert(p[i] == (k, c));
        assert forall|x: usize| #[trigger]
            pending(bumped(p, k), x) == pending(p, x) + (if k == x {
                1nat
            } else {
                0nat
            }) by {
            lemma_pending_update(p, i, k, c, x);
        }
        lemma_pending_update(p, i, k, c, k);
    } else {
        assert forall|x: usize| #[trigger]
            pending(bumped(p, k), x) == pending(p, x) + (if k == x {
                1nat
            } else {
                0nat
            }) by {
            lemma_pending_push(p, (k, 1), x);
        }
        lemma_pending_push(p, (k, 1), k);
    }
}

proof fn lemma_count_concat(a: Seq<usize>, b: Seq<usize>, x: usize)
    ensures
        count_in(a + b, x) == count_in(a, x) + count_in(b, x),
    decreases b.len(),
{
    if b.len() == 0 {
        assert(a + b =~= a);
    } else {
        lemma_count_concat(a, b.drop_last(), x);
        assert((a + b).drop_last() =~= a + b.drop_last());
    }
}

proof fn lemma_count_repeat(c: nat, k: usize, x: usize)
    ensures
        count_in(Seq::new(c, |_i: int| k), x) == (if k == x {
            c
        } else {
            0nat
        }),
    decreases c,
{
    if c > 0 {
        lemma_count_repeat((c - 1) as nat, k, x);
        assert(Seq::new(c, |_i: int| k).drop_last() =~= Seq::new((c - 1) as nat, |_i: int| k));
    }
}

/// Expanding the entries gives every key as often as its total count, and
/// nothing else.
proof fn lemma_expand(p: Seq<(usize, usize)>, n: nat)
    ensures
        forall|x: usize| #[trigger] count_in(expand(p), x) == pending(p, x),
        expand(p).len() == pending_total(p),
        (forall|j: int| 0 <= j < p.len() ==> #[trigger] p[j].0 < n) ==> forall|j: int|
            0 <= j < expand(p).len() ==> #[trigger] expand(p)[j] < n,
    decreases p.len(),
{
    if p.len() > 0 {
        let q = p.drop_last();
        let e = p.last();
        lemma_expand(q, n);
        assert forall|x: usize| #[trigger] count_in(expand(p), x) == pending(p, x) by {
            lemma_count_concat(expand(q), Seq::new(e.1 as nat, |_i: int| e.0), x);
            lemma_count_repeat(e.1 as nat, e.0, x);
        }
        if forall|j: int| 0 <= j < p.len() ==> #[trigger] p[j].0 < n {
            assert forall|j: int| 0 <= j < q.len() implies #[trigger] q[j].0 < n by {
                assert(q[j] == p[j]);
            }
            assert forall|j: int| 0 <= j < expand(p).len() implies #[trigger] expand(p)[j] < n by {
                if j >= expand(q).len() {
                    assert(p[p.len() - 1].0 < n);
                }
            }
        }
    }
}

// ---------------------------------------------------------------------------
// Pairing the stubs of one round
// ---------------------------------------------------------------------------

/// The state after the first `k` pairs `(stubs[2i], stubs[2i + 1])` were
/// offered: a pair of distinct nodes that is not yet an edge becomes one,
/// any other pair puts both its ends back among the pending stubs.
pub open spec fn paired(edges: Seq<(usize, usize)>, stubs: Seq<usize>, k: int) -> (
    Seq<(usize, usize)>,
    Seq<(usize, usize)>,
)
    decreases k,
{
    if k <= 0 {
        (edges, Seq::empty())
    } else {
        let prev = paired(edges, stubs, k - 1);
        let e = ordered(stubs[2 * (k - 1)], stubs[2 * (k - 1) + 1]);
        if e.0 != e.1 && !prev.0.contains(e) {
            (prev.0.push(e), prev.1)
        } else {
            (prev.0, bumped(bumped(prev.1, e.0), e.1))
        }
    }
}

/// The pairing keeps every node's degree plus pending count equal to its
/// degree before plus its occurrences among the stubs offered so far.
proof fn lemma_paired_counts(edges: Seq<(usize, usize)>, stubs: Seq<usize>, k: int)
    requires
        0 <= k,
        2 * k <= stubs.len() <= usize::MAX,
    ensures
        forall|x: usize| #[trigger]
            degree_in(paired(edges, stubs, k).0, x) + pending(paired(edges, stubs, k).1, x)
                == degree_in(edges, x) + count_in(stubs.take(2 * k), x),
        forall|j: int|
            0 <= j < paired(edges, stubs, k).1.len() ==> #[trigger] paired(edges, stubs, k).1[j].1
                <= 2 * k,
        keys_unique(paired(edges, stubs, k).1),
        paired(edges, stubs, k).0.len() >= edges.len(),
        pending_total(paired(edges, stubs, k).1) + 2 * (paired(edges, stubs, k).0.len()
            - edges.len()) == 2 * k,
        paired(edges, stubs, k).0.take(edges.len() as int) == edges,
    decreases k,
{
    if k == 0 {
        assert(stubs.take(0) =~= Seq::<usize>::empty());
        assert(edges.take(edges.len() as int) =~= edges);
    } else {
        let km = k - 1;
        lemma_paired_counts(edges, stubs, km);
        let prev = paired(edges, stubs, km);
        let s1 = stubs[2 * km];
        let s2 = stubs[2 * km + 1];
        let e = ordered(s1, s2);
        assert(stubs.take(2 * k) =~= stubs.take(2 * km).push(s1).push(s2));
        assert forall|x: usize|
            #[trigger] count_in(stubs.take(2 * k), x) == count_in(stubs.take(2 * km), x) + (if s1 == x {
                1nat
            } else {
                0nat
            }) + (if s2 == x {
                1nat
            } else {
                0nat
            }) by {
            lemma_count_push(stubs.take(2 * km).push(s1), s2, x);
            lemma_count_push(stubs.take(2 * km), s1, x);
        }
        if e.0 != e.1 && !prev.0.contains(e) {
            assert forall|x: usize| #[trigger]
                degree_in(paired(edges, stubs, k).0, x) + pending(paired(edges, stubs, k).1, x)
                    == degree_in(edges, x) + count_in(stubs.take(2 * k), x) by {
                lemma_degree_push(prev.0, e, x);
            }
            assert(prev.0.push(e).take(edges.len() as int) =~= prev.0.take(edges.len() as int));
        } else {
            lemma_bumped(prev.1, e.0, (2 * km) as nat, 0);
            let p1 = bumped(prev.1, e.0);
            lemma_bumped(p1, e.1, (2 * km + 1) as nat, 0);
        }
    }
}

/// The pairing only adds simple edges between nodes below `n` and keeps its
/// pending keys below `n`.
proof fn lemma_paired_simple(edges: Seq<(usize, usize)>, stubs: Seq<usize>, k: int, n: nat)
    requires
        0 <= k,
        2 * k <= stubs.len() <= usize::MAX,
        simple_edges(edges, n),
        forall|i: int| 0 <= i < stubs.len() ==> #[trigger] stubs[i] < n,
    ensures
        simple_edges(paired(edges, stubs, k).0, n),
        forall|j: int|
            0 <= j < paired(edges, stubs, k).1.len() ==> #[trigger] paired(edges, stubs, k).1[j].0
                < n,
    decreases k,
{
    if k > 0 {
        let km = k - 1;
        lemma_paired_simple(edges, stubs, km, n);
        lemma_paired_counts(edges, stubs, km);
        let prev = paired(edges, stubs, km);
        let s1 = stubs[2 * km];
        let s2 = stubs[2 * km + 1];
        let e = ordered(s1, s2);
        if e.0 != e.1 && !prev.0.contains(e) {
            let q = prev.0.push(e);
            assert(s1 < n && s2 < n);
            assert(e.0 < e.1 < n);
            assert forall|i: int| 0 <= i < q.len() implies #[trigger] q[i].0 < q[i].1 < n by {
                if i < prev.0.len() {
                    assert(q[i] == prev.0[i]);
                } else {
                    assert(q[i] == e);
                }
            }
            assert(q.no_duplicates()) by {
                assert forall|i: int, j: int| 0 <= i < q.len() && 0 <= j < q.len() && i != j implies q[i]
                    != q[j] by {
                    if i == prev.0.len() as int {
                        assert(prev.0[j] == q[j]);
                    } else if j == prev.0.len() as int {
                        assert(prev.0[i] == q[i]);
                    }
                }
            }
        } else {
            lemma_bumped(prev.1, e.0, (2 * km) as nat, n);
            let p1 = bumped(prev.1, e.0);
            lemma_bumped(p1, e.1, (2 * km + 1) as nat, n);
        }
    }
}

/// Whether another round can still make progress: there are no pending
/// stubs, or two different pending nodes (the later one listed against an
/// earlier one) are not joined yet.
pub open spec fn suitable_spec(edges: Seq<(usize, usize)>, p: Seq<(usize, usize)>) -> bool {
    p.len() == 0 || exists|i: int, j: int|
        0 <= j < i < p.len() && !edges.contains(#[trigger] ordered(p[i].0, p[j].0))
}

/// The node pair `(a, b)` with the smaller node first.
pub fn ordered_pair(a: usize, b: usize) -> (e: (usize, usize))
    ensures
        e == ordered(a, b),
{
    if a > b {
        (b, a)
    } else {
        (a, b)
    }
}

/// One more pending stub for `k` in the counting map.
fn bump(pot: &mut IndexMap<usize, usize>, k: usize)
    requires
        keys_unique(count_map_entries(*old(pot))),
        forall|j: int|
            0 <= j < count_map_entries(*old(pot)).len() ==> #[trigger] count_map_entries(
                *old(pot),
            )[j].1 < usize::MAX,
    ensures
        count_map_entries(*final(pot)) == bumped(count_map_entries(*old(pot)), k),
{
    let ghost p = count_map_entries(*pot);
    match count_map_get(pot, k) {
        Some(c) => {
            proof {
                lemma_key_index(p, k);
            }
            let ghost i = choose|i: int| 0 <= i < p.len() && #[trigger] p[i] == (k, c);
            assert(p[i].0 == k);
            assert(i == key_index(p, k));
            count_map_insert(pot, k, c + 1);
        },
        None => {
            proof {
                lemma_key_index(p, k);
            }
            count_map_insert(pot, k, 1);
        },
    }
}

/// Offers the stubs pairwise, `(stubs[0], stubs[1])`, `(stubs[2], stubs[3])`,
/// and so on: a pair of distinct nodes not yet joined becomes an edge, any
/// other pair is counted back into the returned map of pending stubs, which
/// has one entry per node.
pub fn pair_stubs(edges: &mut IndexSet<(usize, usize)>, stubs: &Vec<usize>) -> (pot: IndexMap<
    usize,
    usize,
>)
    ensures
        (edge_set_items(*final(edges)), count_map_entries(pot)) == paired(
            edge_set_items(*old(edges)),
            stubs@,
            (stubs@.len() / 2) as int,
        ),
        keys_unique(count_map_entries(pot)),
{
    let ghost e0 = edge_set_items(*edges);
    let mut pot = count_map_new();
    let mut i: usize = 0;
    assert(paired(e0, stubs@, 0) == (e0, Seq::<(usize, usize)>::empty()));
    while i + 1 < stubs.len()
        invariant
            i % 2 == 0,
            i <= stubs.len(),
            (edge_set_items(*edges), count_map_entries(pot)) == paired(e0, stubs@, (i / 2) as int),
        decreases stubs.len() - i,
    {
        proof {
            lemma_paired_counts(e0, stubs@, (i / 2) as int);
        }
        let s1 = stubs[i];
        let s2 = stubs[i + 1];
        let (u, v) = ordered_pair(s1, s2);
        if u != v && !edge_set_contains(edges, (u, v)) {
            edge_set_insert(edges, (u, v));
        } else {
            bump(&mut pot, u);
            proof {
                lemma_bumped(paired(e0, stubs@, (i / 2) as int).1, u, i as nat, 0);
            }
            bump(&mut pot, v);
        }
        i = i + 2;
        assert((i / 2) as int - 1 == ((i - 2) / 2) as nat);
    }
    assert(i / 2 == stubs@.len() / 2);
    proof {
        lemma_paired_counts(e0, stubs@, (i / 2) as int);
    }
    pot
}

/// Decides `suitable_spec` for the current edges and pending counts.
pub fn suitable(edges: &IndexSet<(usize, usize)>, pot: &IndexMap<usize, usize>) -> (r: bool)
    requires
        keys_unique(count_map_entries(*pot)),
    ensures
        r == suitable_spec(edge_set_items(*edges), count_map_entries(*pot)),
{
    let entries = count_map_to_vec(pot);
    let ghost es = edge_set_items(*edges);
    if entries.len() == 0 {
        return true;
    }
    let mut i: usize = 0;
    while i < entries.len()
        invariant
            i <= entries.len(),
            entries@ == count_map_entries(*pot),
            es == edge_set_items(*edges),
            forall|a: int, b: int|
                0 <= b < a < i ==> es.contains(#[trigger] ordered(entries@[a].0, entries@[b].0)),
        decreases entries.len() - i,
    {
        let mut j: usize = 0;
        while j < i
            invariant
                j <= i < entries.len(),
                entries@ == count_map_entries(*pot),
                es == edge_set_items(*edges),
                forall|a: int, b: int|
                    0 <= b < a < i ==> es.contains(#[trigger] ordered(entries@[a].0, entries@[b].0)),
                forall|b: int|
                    0 <= b < j ==> es.contains(#[trigger] ordered(entries@[i as int].0, entries@[b].0)),
            decreases i - j,
        {
            let e = ordered_pair(entries[i].0, entries[j].0);
            if !edge_set_contains(edges, e) {
                assert(!es.contains(ordered(entries@[i as int].0, entries@[j as int].0)));
                return true;
            }
            j = j + 1;
        }
        i = i + 1;
    }
    false
}

/// The pending stubs listed again: every node as often as its count, in the
/// order of the map.
pub fn stubs_from_counts(pot: &IndexMap<usize, usize>) -> (stubs: Vec<usize>)
    ensures
        stubs@ == expand(count_map_entries(*pot)),
{
    let entries = count_map_to_vec(pot);
    let mut stubs: Vec<usize> = Vec::new();
    let mut idx: usize = 0;
    assert(entries@.take(0) =~= Seq::<(usize, usize)>::empty());
    while idx < entries.len()
        invariant
            idx <= entries.len(),
            entries@ == count_map_entries(*pot),
            stubs@ == expand(entries@.take(idx as int)),
        decreases entries.len() - idx,
    {
        let (key, value) = entries[idx];
        push_repeated(&mut stubs, key, value);
        assert(entries@.take(idx + 1).drop_last() =~= entries@.take(idx as int));
        idx = idx + 1;
    }
    assert(entries@.take(entries.len() as int) =~= entries@);
    stubs
}

// ---------------------------------------------------------------------------
// The initial stubs
// ---------------------------------------------------------------------------

/// Nodes `0, 1, ..., n - 1`, each repeated `d` times.
pub open spec fn repeated_nodes(n: nat, d: nat) -> Seq<usize>
    decreases n,
{
    if n == 0 {
        Seq::empty()
    } else {
        repeated_nodes((n - 1) as nat, d) + Seq::new(d, |_i: int| (n - 1) as usize)
    }
}

proof fn lemma_repeated_nodes(n: nat, d: nat)
    requires
        n <= usize::MAX,
    ensures
        forall|x: usize| #[trigger] count_in(repeated_nodes(n, d), x) == if x < n {
            d
        } else {
            0nat
        },
        repeated_nodes(n, d).len() == n * d,
        forall|i: int|
            0 <= i < repeated_nodes(n, d).len() ==> #[trigger] repeated_nodes(n, d)[i] < n,
    decreases n,
{
    if n > 0 {
        let m = (n - 1) as nat;
        lemma_repeated_nodes(m, d);
        assert forall|x: usize| #[trigger] count_in(repeated_nodes(n, d), x) == if x < n {
            d
        } else {
            0nat
        } by {
            lemma_count_concat(repeated_nodes(m, d), Seq::new(d, |_i: int| m as usize), x);
            lemma_count_repeat(d, m as usize, x);
        }
        assert(m * d + d == n * d) by (nonlinear_arith)
            requires
                m + 1 == n,
        ;
    }
}

// ---------------------------------------------------------------------------
// One attempt at a random regular graph
// ---------------------------------------------------------------------------

/// The state of one attempt at a random `degree`-regular graph on
/// `num_nodes` nodes: the edges made so far and the stubs (node ends) that
/// still wait for a partner.
pub struct RegularGraphAttempt {
    num_nodes: usize,
    degree: usize,
    edges: IndexSet<(usize, usize)>,
    stubs: Vec<usize>,
}

/// One round as a function of the edges, the stubs and the generator: the
/// stubs are shuffled (`shuffle_outcome`) and paired; the result is the new
/// edges, the stubs left (the pending ones when the round progressed, the
/// shuffled ones when it did not), whether it progressed, and the generator
/// afterwards.
pub open spec fn round_step(edges: Seq<(usize, usize)>, stubs: Seq<usize>, g: rand_pcg::Lcg128Xsl64) -> (
    Seq<(usize, usize)>,
    Seq<usize>,
    bool,
    rand_pcg::Lcg128Xsl64,
) {
    let sh = crate::rng::shuffle_outcome(stubs, g);
    let p = paired(edges, sh.0, (sh.0.len() / 2) as int);
    let ok = suitable_spec(p.0, p.1);
    (
        p.0,
        if ok {
            expand(p.1)
        } else {
            sh.0
        },
        ok,
        sh.1,
    )
}

/// The state (edges, stubs, generator) after at most `k` rounds of the
/// random regular graph procedure: rounds stop once no stub waits, and an
/// attempt that cannot progress is replaced by a fresh one.
pub open spec fn regular_rounds(
    n: nat,
    d: nat,
    edges: Seq<(usize, usize)>,
    stubs: Seq<usize>,
    g: rand_pcg::Lcg128Xsl64,
    k: nat,
) -> (Seq<(usize, usize)>, Seq<usize>, rand_pcg::Lcg128Xsl64)
    decreases k,
{
    if k == 0 || stubs.len() == 0 {
        (edges, stubs, g)
    } else {
        let r = round_step(edges, stubs, g);
        if r.2 {
            regular_rounds(n, d, r.0, r.1, r.3, (k - 1) as nat)
        } else {
            regular_rounds(n, d, Seq::empty(), repeated_nodes(n, d), r.3, (k - 1) as nat)
        }
    }
}

/// The state after at most `k` rounds of a run seeded with `seed`.
pub open spec fn regular_run(n: nat, d: nat, seed: u64, k: nat) -> (
    Seq<(usize, usize)>,
    Seq<usize>,
    rand_pcg::Lcg128Xsl64,
) {
    regular_rounds(n, d, Seq::empty(), repeated_nodes(n, d), crate::rng::seeded_pcg64(seed), k)
}

/// Reproducibility with a seed: two runs of the random regular graph
/// procedure from the same seed are in the same state after the same number
/// of rounds, so they finish after the same round with the same edge list.
pub proof fn lemma_regular_run_reproducible(n: nat, d: nat, s1: u64, s2: u64, k: nat)
    requires
        s1 == s2,
    ensures
        regular_run(n, d, s1, k) == regular_run(n, d, s2, k),
{
}

impl RegularGraphAttempt {
    pub closed spec fn node_count(&self) -> nat {
        self.num_nodes as nat
    }

    pub closed spec fn node_degree(&self) -> nat {
        self.degree as nat
    }

    pub closed spec fn edge_list(&self) -> Seq<(usize, usize)> {
        edge_set_items(self.edges)
    }

    pub closed spec fn stub_list(&self) -> Seq<usize> {
        self.stubs@
    }

    /// Every node's degree plus its waiting stubs is `degree`; the edges are
    /// simple; the stubs are nodes of the graph and pair up.
    pub open spec fn wf(&self) -> bool {
        &&& forall|x: usize| #[trigger]
            degree_in(self.edge_list(), x) + count_in(self.stub_list(), x) == if x
                < self.node_count() {
                self.node_degree()
            } else {
                0nat
            }
        &&& simple_edges(self.edge_list(), self.node_count())
        &&& forall|i: int|
            0 <= i < self.stub_list().len() ==> #[trigger] self.stub_list()[i] < self.node_count()
        &&& self.stub_list().len() % 2 == 0
    }

    /// A fresh attempt: no edges, and every node `degree` times among the
    /// stubs, nodes in increasing order.
    pub fn new(num_nodes: usize, degree: usize) -> (a: Self)
        requires
            num_nodes * degree <= usize::MAX,
            (num_nodes * degree) % 2 == 0,
        ensures
            a.wf(),
            a.node_count() == num_nodes,
            a.node_degree() == degree,
            a.edge_list() == Seq::<(usize, usize)>::empty(),
            a.stub_list() == repeated_nodes(num_nodes as nat, degree as nat),
    {
        let edges = edge_set_with_capacity(num_nodes);
        let mut stubs: Vec<usize> = Vec::new();
        let mut x: usize = 0;
        while x < num_nodes
            invariant
                x <= num_nodes,
                stubs@ == repeated_nodes(x as nat, degree as nat),
            decreases num_nodes - x,
        {
            push_repeated(&mut stubs, x, degree);
            x = x + 1;
        }
        let a = RegularGraphAttempt { num_nodes, degree, edges, stubs };
        proof {
            lemma_repeated_nodes(num_nodes as nat, degree as nat);
            assert forall|x: usize| #[trigger] degree_in(a.edge_list(), x) == 0 by {}
        }
        a
    }

    /// Whether every stub has found a partner.
    pub fn is_finished(&self) -> (r: bool)
        ensures
            r == (self.stub_list().len() == 0),
    {
        self.stubs.len() == 0
    }

    /// One round: the stubs are shuffled by the generator (`shuffle_outcome`)
    /// and offered pairwise (see `pair_stubs`). Returns `false` when the pending stubs can no longer be
    /// matched (`suitable_spec` fails) and the attempt should be abandoned;
    /// otherwise the pending stubs become the stubs of the next round.
    pub fn round(&mut self, rng: &mut rand_pcg::Lcg128Xsl64) -> (progressed: bool)
        requires
            old(self).wf(),
        ensures
            final(self).node_count() == old(self).node_count(),
            final(self).node_degree() == old(self).node_degree(),
            crate::rng::shuffle_outcome(old(self).stub_list(), *old(rng)).0.to_multiset()
                == old(self).stub_list().to_multiset(),
            (final(self).edge_list(), final(self).stub_list(), progressed, *final(rng)) == round_step(
                old(self).edge_list(),
                old(self).stub_list(),
                *old(rng),
            ),
            progressed ==> final(self).wf(),
    {
        let ghost e0 = self.edge_list();
        let ghost s0 = self.stubs@;
        let ghost n = self.num_nodes as nat;
        crate::rng::shuffle_usize(&mut self.stubs, rng);
        let len = self.stubs.len();
        let ghost s = self.stubs@;
        assert(s.len() == len);
        proof {
            broadcast use vstd::seq_lib::group_to_multiset_ensures;

            assert(s.to_multiset().len() == s0.to_multiset().len());
            assert(s.len() == s0.len());
            assert forall|i: int| 0 <= i < s.len() implies #[trigger] s[i] < n by {
                assert(s.contains(s[i]));
                assert(s.to_multiset().count(s[i]) > 0);
                assert(s0.contains(s[i]));
            }
            assert forall|x: usize| #[trigger] count_in(s, x) == count_in(s0, x) by {
                lemma_count_in_multiset(s, x);
                lemma_count_in_multiset(s0, x);
            }
            lemma_paired_counts(e0, s, (s.len() / 2) as int);
            lemma_paired_simple(e0, s, (s.len() / 2) as int, n);
            assert(s.take(2 * ((s.len() / 2) as int) as int) =~= s);
        }
        let pot = pair_stubs(&mut self.edges, &self.stubs);
        if !suitable(&self.edges, &pot) {
            return false;
        }
        self.stubs = stubs_from_counts(&pot);
        proof {
            let p = paired(e0, s, (s.len() / 2) as int);
            lemma_expand(p.1, n);
            assert forall|x: usize| #[trigger]
                degree_in(self.edge_list(), x) + count_in(self.stub_list(), x) == if x < n {
                    self.node_degree()
                } else {
                    0nat
                } by {
                assert(count_in(s0, x) + degree_in(e0, x) == if x < n {
                    self.node_degree()
                } else {
                    0nat
                });
            }
        }
        true
    }

    /// The edges made so far, in the order in which they were made. Once the
    /// attempt is finished, every node below `num_nodes` has exactly
    /// `degree` incident edges, no other node has any, and there are
    /// `num_nodes * degree / 2` edges.
    pub fn edges(&self) -> (v: Vec<(usize, usize)>)
        requires
            self.wf(),
        ensures
            v@ == self.edge_list(),
            simple_edges(v@, self.node_count()),
            self.stub_list().len() == 0 ==> forall|x: usize| #[trigger]
                degree_in(v@, x) == if x < self.node_count() {
                    self.node_degree()
                } else {
                    0nat
                },
            self.stub_list().len() == 0 ==> 2 * v@.len() == self.node_count() * self.node_degree(),
    {
        let v = edge_set_to_vec(&self.edges);
        proof {
            if self.stub_list().len() == 0 {
                lemma_finished_attempt_is_regular(*self);
            }
        }
        v
    }
}

/// A finished attempt is a regular graph: when no stub waits any more,
/// every node below `num_nodes` has exactly `degree` incident edges, no other
/// node has any, no edge is a loop or repeated, and there are
/// `num_nodes * degree / 2` edges.
pub proof fn lemma_finished_attempt_is_regular(a: RegularGraphAttempt)
    requires
        a.wf(),
        a.stub_list().len() == 0,
    ensures
        forall|x: usize| #[trigger]
            degree_in(a.edge_list(), x) == if x < a.node_count() {
                a.node_degree()
            } else {
                0nat
            },
        simple_edges(a.edge_list(), a.node_count()),
        2 * a.edge_list().len() == a.node_count() * a.node_degree(),
{
    let n = a.node_count();
    let e = a.edge_list();
    assert forall|x: usize| #[trigger]
        degree_in(e, x) == if x < n {
            a.node_degree()
        } else {
            0nat
        } by {
        assert(count_in(a.stub_list(), x) == 0);
    }
    assert forall|x: usize| x < n implies #[trigger] degree_in(e, x) == a.node_degree() by {}
    assert forall|i: int| 0 <= i < e.len() implies #[trigger] e[i].0 < n && e[i].1 < n by {}
    assert(n <= usize::MAX + 1);
    lemma_handshake(e, n);
    lemma_degree_sum_uniform(e, n, a.node_degree());
}

/// The checks that come before any edge is drawn: a regular graph needs at
/// least one node, an even number of stubs, and a degree below the number
/// of nodes.
pub fn check_regular_input(num_nodes: usize, degree: usize) -> (r: Result<(), InvalidInputError>)
    requires
        num_nodes * degree <= usize::MAX,
    ensures
        r is Ok <==> (num_nodes > 0 && (num_nodes * degree) % 2 == 0 && degree < num_nodes),
{
    if num_nodes == 0 {
        return Err(InvalidInputError);
    }
    if (num_nodes * degree) % 2 != 0 {
        return Err(InvalidInputError);
    }
    if degree >= num_nodes {
        return Err(InvalidInputError);
    }
    Ok(())
}

} // verus!
