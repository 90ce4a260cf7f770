use vstd::prelude::*;

verus! {

/// The pair `(a, b)` written with the smaller node first.
pub open spec fn ordered(a: usize, b: usize) -> (usize, usize) {
    if a > b {
        (b, a)
    } else {
        (a, b)
    }
}

/// Appends `key` to the vector `count` times.
pub fn push_repeated(v: &mut Vec<usize>, key: usize, count: usize)
    ensures
        final(v)@ == old(v)@ + Seq::new(count as nat, |_i: int| key),
{
    let ghost before = v@;
    let mut r: usize = 0;
    while r < count
        invariant
            r <= count,
            v@ == before + Seq::new(r as nat, |_i: int| key),
        decreases count - r,
    {
        v.push(key);
        r = r + 1;
        assert(v@ =~= before + Seq::new(r as nat, |_i: int| key));
    }
}

/// The degree of `x` in an undirected edge list: one for every end of an
/// edge that is `x`.
pub open spec fn degree_in(edges: Seq<(usize, usize)>, x: usize) -> nat
    decreases edges.len(),
{
    if edges.len() == 0 {
        0
    } else {
        degree_in(edges.drop_last(), x) + (if edges.last().0 == x {
            1nat
        } else {
            0nat
        }) + (if edges.last().1 == x {
            1nat
        } else {
            0nat
        })
    }
}

/// How many times `x` occurs in `s`.
pub open spec fn count_in(s: Seq<usize>, x: usize) -> nat
    decreases s.len(),
{
    if s.len() == 0 {
        0
    } else {
        count_in(s.drop_last(), x) + (if s.last() == x {
            1nat
        } else {
            0nat
        })
    }
}

/// Every edge joins two distinct nodes below `n`, smaller node first, and no
/// edge occurs twice.
pub open spec fn simple_edges(edges: Seq<(usize, usize)>, n: nat) -> bool {
    &&& edges.no_duplicates()
    &&& forall|i: int| 0 <= i < edges.len() ==> #[trigger] edges[i].0 < edges[i].1 < n
}

pub proof fn lemma_degree_push(edges: Seq<(usize, usize)>, e: (usize, usize), x: usize)
    ensures
        degree_in(edges.push(e), x) == degree_in(edges, x) + (if e.0 == x {
            1nat
        } else {
            0nat
        }) + (if e.1 == x {
            1nat
        } else {
            0nat
        }),
{
    assert(edges.push(e).drop_last() =~= edges);
}

pub proof fn lemma_count_push(s: Seq<usize>, a: usize, x: usize)
    ensures
        count_in(s.push(a), x) == count_in(s, x) + (if a == x {
            1nat
        } else {
            0nat
        }),
{
    assert(s.push(a).drop_last() =~= s);
}

/// The degrees of the nodes below `n`, summed.
pub open spec fn degree_sum(edges: Seq<(usize, usize)>, n: nat) -> nat
    decreases n,
{
    if n == 0 {
        0
    } else {
        degree_sum(edges, (n - 1) as nat) + degree_in(edges, (n - 1) as usize)
    }
}

proof fn lemma_degree_sum_push(edges: Seq<(usize, usize)>, e: (usize, usize), n: nat)
    requires
        n <= usize::MAX + 1,
    ensures
        degree_sum(edges.push(e), n) == degree_sum(edges, n) + (if e.0 < n {
            1nat
        } else {
            0nat
        }) + (if e.1 < n {
            1nat
        } else {
            0nat
        }),
    decreases n,
{
    if n > 0 {
        lemma_degree_sum_push(edges, e, (n - 1) as nat);
        lemma_degree_push(edges, e, (n - 1) as usize);
    }
}

/// Handshake: when every edge joins nodes below `n`, the degrees of those
/// nodes add up to twice the number of edges.
pub proof fn lemma_handshake(edges: Seq<(usize, usize)>, n: nat)
    requires
        n <= usize::MAX + 1,
        forall|i: int| 0 <= i < edges.len() ==> #[trigger] edges[i].0 < n && edges[i].1 < n,
    ensures
        degree_sum(edges, n) == 2 * edges.len(),
    decreases edges.len(),
{
    if edges.len() == 0 {
        lemma_degree_sum_empty(edges, n);
    } else {
        let rest = edges.drop_last();
        assert forall|i: int| 0 <= i < rest.len() implies #[trigger] rest[i].0 < n && rest[i].1
            < n by {
            assert(rest[i] == edges[i]);
        }
        lemma_handshake(rest, n);
        assert(rest.push(edges.last()) =~= edges);
        lemma_degree_sum_push(rest, edges.last(), n);
    }
}

proof fn lemma_degree_sum_empty(edges: Seq<(usize, usize)>, n: nat)
    requires
        edges.len() == 0,
    ensures
        degree_sum(edges, n) == 0,
    decreases n,
{
    if n > 0 {
        lemma_degree_sum_empty(edges, (n - 1) as nat);
    }
}

/// When every node below `n` has degree `d`, the degrees sum to `n * d`.
pub proof fn lemma_degree_sum_uniform(edges: Seq<(usize, usize)>, n: nat, d: nat)
    requires
        n <= usize::MAX + 1,
        forall|x: usize| x < n ==> #[trigger] degree_in(edges, x) == d,
    ensures
        degree_sum(edges, n) == n * d,
    decreases n,
{
    if n > 0 {
        lemma_degree_sum_uniform(edges, (n - 1) as nat, d);
        assert(degree_in(edges, (n - 1) as usize) == d);
        let m = (n - 1) as nat;
        assert(m * d + d == n * d) by (nonlinear_arith)
            requires
                m + 1 == n,
        ;
    } else {
        assert(n * d == 0) by (nonlinear_arith)
            requires
                n == 0,
        ;
    }
}

/// `count_in` is the multiplicity in the multiset of the sequence.
pub proof fn lemma_count_in_multiset(s: Seq<usize>, x: usize)
    ensures
        count_in(s, x) == s.to_multiset().count(x),
    decreases s.len(),
{
    broadcast use vstd::seq_lib::group_to_multiset_ensures;

    if s.len() == 0 {
        assert(!s.contains(x));
    } else {
        let t = s.drop_last();
        lemma_count_in_multiset(t, x);
        assert(t.push(s.last()) =~= s);
        vstd::seq_lib::to_multiset_build(t, s.last());
    }
}

} // verus!
