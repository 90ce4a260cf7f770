use vstd::prelude::*;
use crate::pairs::{is_candidate, pair_lt};
use crate::skipwalk::tri;

verus! {

/// An edge as a pair of integers.
pub open spec fn as_pair(e: (usize, usize)) -> (int, int) {
    (e.0 as int, e.1 as int)
}

/// The number of edges in the first `u` rows of the complete graph on `n`
/// nodes: `n - 1` per row when directed, `n - 1 - v` in row `v` otherwise.
pub open spec fn rows_total(n: int, directed: bool, u: int) -> int {
    if directed {
        u * (n - 1)
    } else {
        u * (n - 1) - tri(u)
    }
}

/// The first target of row `u`: `0` when directed, `u + 1` otherwise.
pub open spec fn row_start(directed: bool, u: int) -> int {
    if directed {
        0
    } else {
        u + 1
    }
}

/// Row `u` of the complete graph up to (not including) target `v`: the
/// edges `(u, w)` for `w` from the row's start below `v`, without `w == u`.
pub open spec fn row_upto(directed: bool, u: int, v: int) -> Seq<(usize, usize)>
    decreases v,
{
    if v <= row_start(directed, u) || v <= 0 {
        Seq::empty()
    } else {
        row_upto(directed, u, v - 1) + if !directed || u != v - 1 {
            seq![(u as usize, (v - 1) as usize)]
        } else {
            Seq::empty()
        }
    }
}

/// The first `u` rows of the complete graph on `n` nodes.
pub open spec fn rows_upto(n: int, directed: bool, u: int) -> Seq<(usize, usize)>
    decreases u,
{
    if u <= 0 {
        Seq::empty()
    } else {
        rows_upto(n, directed, u - 1) + row_upto(directed, u - 1, n)
    }
}

/// The edges of the complete graph on `n` nodes, row after row.
pub open spec fn complete_pairs(n: int, directed: bool) -> Seq<(usize, usize)> {
    rows_upto(n, directed, n)
}

proof fn lemma_tri_closed(k: int)
    requires
        0 <= k,
    ensures
        2 * tri(k) == k * (k - 1),
    decreases k,
{
    if k > 0 {
        lemma_tri_closed(k - 1);
        assert(tri(k) == tri(k - 1) + (k - 1));
        assert((k - 1) * (k - 2) + 2 * (k - 1) == k * (k - 1)) by (nonlinear_arith);
    } else {
        assert(k * (k - 1) == 0) by (nonlinear_arith)
            requires
                k == 0,
        ;
    }
}

/// Every edge of the complete graph on `num_nodes` nodes without loops, in
/// lexicographic order: `n (n - 1)` edges when directed, `n (n - 1) / 2`
/// (smaller node first) when undirected.
pub fn complete_edges(num_nodes: usize, directed: bool) -> (edges: Vec<(usize, usize)>)
    ensures
        forall|k: int|
            0 <= k < edges@.len() ==> is_candidate(
                num_nodes as int,
                directed,
                false,
                #[trigger] as_pair(edges@[k]),
            ),
        forall|a: int, b: int|
            0 <= a < b < edges@.len() ==> pair_lt(
                #[trigger] as_pair(edges@[a]),
                #[trigger] as_pair(edges@[b]),
            ),
        forall|p: (int, int)|
            is_candidate(num_nodes as int, directed, false, p) ==> exists|k: int|
                0 <= k < edges@.len() && #[trigger] as_pair(edges@[k]) == p,
        edges@.len() == if directed {
            num_nodes * (num_nodes - 1)
        } else {
            num_nodes * (num_nodes - 1) / 2
        },
        edges@ == complete_pairs(num_nodes as int, directed),
{
    let ghost n = num_nodes as int;
    let mut edges: Vec<(usize, usize)> = Vec::new();
    let mut u: usize = 0;
    while u < num_nodes
        invariant
            u <= num_nodes,
            n == num_nodes,
            edges@.len() == rows_total(n, directed, u as int),
            edges@ == rows_upto(n, directed, u as int),
            forall|k: int|
                0 <= k < edges@.len() ==> is_candidate(n, directed, false, #[trigger] as_pair(edges@[k]))
                    && as_pair(edges@[k]).0 < u,
            forall|a: int, b: int|
                0 <= a < b < edges@.len() ==> pair_lt(
                    #[trigger] as_pair(edges@[a]),
                    #[trigger] as_pair(edges@[b]),
                ),
            forall|p: (int, int)|
                is_candidate(n, directed, false, p) && p.0 < u ==> exists|k: int|
                    0 <= k < edges@.len() && #[trigger] as_pair(edges@[k]) == p,
        decreases num_nodes - u,
    {
        let start: usize = if directed {
            0
        } else {
            u + 1
        };
        let mut v: usize = start;
        let ghost before = edges@.len();
        while v < num_nodes
            invariant
                u < num_nodes,
                n == num_nodes,
                start <= v <= num_nodes,
                start == if directed {
                    0
                } else {
                    u + 1
                },
                before == rows_total(n, directed, u as int),
                edges@ == rows_upto(n, directed, u as int) + row_upto(directed, u as int, v as int),
                edges@.len() == before + (v - start) - (if directed && u < v {
                    1int
                } else {
                    0int
                }),
                forall|k: int|
                    0 <= k < edges@.len() ==> is_candidate(
                        n,
                        directed,
                        false,
                        #[trigger] as_pair(edges@[k]),
                    ) && pair_lt(as_pair(edges@[k]), (u as int, v as int)),
                forall|a: int, b: int|
                    0 <= a < b < edges@.len() ==> pair_lt(
                        #[trigger] as_pair(edges@[a]),
                        #[trigger] as_pair(edges@[b]),
                    ),
                forall|p: (int, int)|
                    is_candidate(n, directed, false, p) && (p.0 < u || (p.0 == u && p.1 < v))
                        ==> exists|k: int|
                        0 <= k < edges@.len() && #[trigger] as_pair(edges@[k]) == p,
            decreases num_nodes - v,
        {
            assert(row_upto(directed, u as int, v + 1) == row_upto(directed, u as int, v as int) + if !directed
                || u != v {
                seq![(u, v)]
            } else {
                Seq::<(usize, usize)>::empty()
            });
            if !directed || u != v {
                let ghost old_edges = edges@;
                edges.push((u, v));
                assert(edges@ =~= rows_upto(n, directed, u as int) + row_upto(
                    directed,
                    u as int,
                    v + 1,
                ));
                proof {
                    let last = edges@.len() - 1;
                    assert(as_pair(edges@[last]) == (u as int, v as int));
                    assert forall|k: int| 0 <= k < old_edges.len() implies #[trigger] edges@[k]
                        == old_edges[k] by {}
                    assert forall|p: (int, int)|
                        is_candidate(n, directed, false, p) && (p.0 < u || (p.0 == u && p.1 < v
                            + 1)) implies exists|k: int|
                        0 <= k < edges@.len() && #[trigger] as_pair(edges@[k]) == p by {
                        if p.0 == u && p.1 == v {
                            assert(as_pair(edges@[last]) == p);
                        } else {
                            let k = choose|k: int|
                                0 <= k < old_edges.len() && #[trigger] as_pair(old_edges[k]) == p;
                            assert(as_pair(edges@[k]) == p);
                        }
                    }
                }
            }
            else {
                assert(edges@ =~= rows_upto(n, directed, u as int) + row_upto(
                    directed,
                    u as int,
                    v + 1,
                ));
            }
            v = v + 1;
        }
        assert(edges@ =~= rows_upto(n, directed, u + 1));
        proof {
            assert forall|k: int| 0 <= k < edges@.len() implies is_candidate(
                n,
                directed,
                false,
                #[trigger] as_pair(edges@[k]),
            ) && as_pair(edges@[k]).0 < u + 1 by {
                assert(pair_lt(as_pair(edges@[k]), (u as int, v as int)));
                assert(as_pair(edges@[k]).0 <= u);
            }
            if directed {
                assert((u + 1) * (n - 1) == u * (n - 1) + (n - 1)) by (nonlinear_arith);
            } else {
                assert((u + 1) * (n - 1) == u * (n - 1) + (n - 1)) by (nonlinear_arith);
                assert(tri(u + 1) == tri(u as int) + u);
            }
        }
        u = u + 1;
    }
    proof {
        lemma_tri_closed(n);
        if !directed {
            assert(n * (n - 1) - tri(n) == n * (n - 1) / 2);
        }
    }
    edges
}

} // verus!
