use vstd::prelude::*;
use crate::complete::complete_pairs;
use crate::rng::{random_below, seeded_pcg64, uniform_outcome};

verus! {

/// Whether the edge list holds the edge from `source` to `target`, read as
/// stored (the pair `(target, source)` does not count).
pub fn find_edge(edges: &Vec<(usize, usize)>, source: usize, target: usize) -> (found: bool)
    ensures
        found == edges@.contains((source, target)),
{
    let mut i: usize = 0;
    while i < edges.len()
        invariant
            i <= edges.len(),
            forall|j: int| 0 <= j < i ==> #[trigger] edges@[j] != (source, target),
        decreases edges.len() - i,
    {
        if edges[i].0 == source && edges[i].1 == target {
            assert(edges@[i as int] == (source, target));
            return true;
        }
        i = i + 1;
    }
    false
}

/// Whether the edge list already joins `u` to `v`: as stored, or, in an
/// undirected graph, also the other way round.
pub open spec fn joined(edges: Seq<(usize, usize)>, u: usize, v: usize, directed: bool) -> bool {
    edges.contains((u, v)) || (!directed && edges.contains((v, u)))
}

/// No edge is a loop, every end is a node below `n`, and no two edges join
/// the same ordered pair (directed) or the same unordered pair (undirected).
pub open spec fn distinct_pairs(edges: Seq<(usize, usize)>, n: nat, directed: bool) -> bool {
    &&& edges.no_duplicates()
    &&& forall|i: int|
        0 <= i < edges.len() ==> #[trigger] edges[i].0 != edges[i].1 && edges[i].0 < n
            && edges[i].1 < n
    &&& !directed ==> forall|i: int, j: int|
        0 <= i < edges.len() && 0 <= j < edges.len() ==> #[trigger] edges[i] != (
            #[trigger] edges[j].1,
            edges[j].0,
        )
}

/// The G(n, m) generator below its edge limit: node pairs are drawn until
/// `num_edges` of them were kept, a pair being kept when its ends differ and
/// the graph does not join them yet.
pub struct GnmSampler {
    num_nodes: usize,
    num_edges: usize,
    directed: bool,
    edges: Vec<(usize, usize)>,
}

/// The edge list after the pair `(u, v)` was offered.
pub open spec fn offered(edges: Seq<(usize, usize)>, u: usize, v: usize, directed: bool) -> Seq<
    (usize, usize),
> {
    if u != v && !joined(edges, u, v, directed) {
        edges.push((u, v))
    } else {
        edges
    }
}

/// One draw as a function of the edges and the generator: a source and a
/// target, each from `uniform_outcome` over the `n` nodes, are offered as a
/// pair; the result is the edges and the generator afterwards.
pub open spec fn draw_step(
    edges: Seq<(usize, usize)>,
    n: usize,
    directed: bool,
    g: rand_pcg::Lcg128Xsl64,
) -> (Seq<(usize, usize)>, rand_pcg::Lcg128Xsl64) {
    let a = uniform_outcome(n, g);
    let b = uniform_outcome(n, a.1);
    (offered(edges, a.0, b.0, directed), b.1)
}

/// A draw takes its source and its target alike: each is one uniform draw
/// over all `n` nodes (`Uniform::new(0, n)`), the target drawn from the
/// generator state that the source draw leaves, and the pair `(source,
/// target)` is what is offered.
pub proof fn lemma_draw_is_two_uniform_draws(
    edges: Seq<(usize, usize)>,
    n: usize,
    directed: bool,
    g: rand_pcg::Lcg128Xsl64,
)
    ensures
        ({
            let source = uniform_outcome(n, g);
            let target = uniform_outcome(n, source.1);
            draw_step(edges, n, directed, g) == (
                offered(edges, source.0, target.0, directed),
                target.1,
            )
        }),
{
}

/// The target of one draw is the node that a draw would take as its source
/// from the generator state left after this draw's source: two draws, one
/// from `g` and one from that later state, agree on that node whenever both
/// offer an edge to an empty directed graph.
pub proof fn lemma_draw_target_is_next_source(n: usize, g: rand_pcg::Lcg128Xsl64)
    ensures
        ({
            let later = uniform_outcome(n, g).1;
            let p = draw_step(Seq::empty(), n, true, g).0;
            let q = draw_step(Seq::empty(), n, true, later).0;
            (p.len() == 1 && q.len() == 1) ==> p[0].1 == q[0].0
        }),
{
    let later = uniform_outcome(n, g).1;
    let s = uniform_outcome(n, g).0;
    let t = uniform_outcome(n, later).0;
    let p = draw_step(Seq::empty(), n, true, g).0;
    if p.len() == 1 {
        assert(s != t);
        assert(p == Seq::<(usize, usize)>::empty().push((s, t)));
    }
    let q = draw_step(Seq::empty(), n, true, later).0;
    if q.len() == 1 {
        let t2 = uniform_outcome(n, uniform_outcome(n, later).1).0;
        assert(t != t2);
        assert(q == Seq::<(usize, usize)>::empty().push((t, t2)));
    }
}

/// The edges and the generator after at most `k` draws; draws stop once
/// `m` edges are kept.
pub open spec fn gnm_draws(
    edges: Seq<(usize, usize)>,
    n: usize,
    m: nat,
    directed: bool,
    g: rand_pcg::Lcg128Xsl64,
    k: nat,
) -> (Seq<(usize, usize)>, rand_pcg::Lcg128Xsl64)
    decreases k,
{
    if k == 0 || edges.len() >= m {
        (edges, g)
    } else {
        let r = draw_step(edges, n, directed, g);
        gnm_draws(r.0, n, m, directed, r.1, (k - 1) as nat)
    }
}

/// The most edges a G(n, m) graph can have: `n (n - 1)` directed, half of
/// that undirected.
pub open spec fn gnm_limit(n: nat, directed: bool) -> int {
    n * (n - 1) / if directed {
        1int
    } else {
        2int
    }
}

/// The edges of a G(n, m) graph drawn with generator `g`, after at most `k`
/// draws: the complete graph when `m` reaches the limit, the kept pairs
/// otherwise.
pub open spec fn gnm_run(n: usize, m: usize, directed: bool, g: rand_pcg::Lcg128Xsl64, k: nat) -> Seq<
    (usize, usize),
> {
    if m >= gnm_limit(n as nat, directed) {
        complete_pairs(n as int, directed)
    } else {
        gnm_draws(Seq::empty(), n, m as nat, directed, g, k).0
    }
}

/// Reproducibility with a seed: two G(n, m) runs from the same seed keep
/// the same edges, in the same order, after the same number of draws.
pub proof fn lemma_gnm_run_reproducible(
    n: usize,
    m: usize,
    directed: bool,
    s1: u64,
    s2: u64,
    k: nat,
)
    requires
        s1 == s2,
    ensures
        gnm_run(n, m, directed, seeded_pcg64(s1), k) == gnm_run(
            n,
            m,
            directed,
            seeded_pcg64(s2),
            k,
        ),
{
}

/// With no edge asked for, or with the limit reached, the generator makes no
/// difference: every generator (any seed, or none) gives the same edges.
pub proof fn lemma_gnm_run_seed_free(
    n: usize,
    m: usize,
    directed: bool,
    g1: rand_pcg::Lcg128Xsl64,
    g2: rand_pcg::Lcg128Xsl64,
    k: nat,
)
    requires
        m == 0 || m >= gnm_limit(n as nat, directed),
    ensures
        gnm_run(n, m, directed, g1, k) == gnm_run(n, m, directed, g2, k),
        m == 0 && m < gnm_limit(n as nat, directed) ==> gnm_run(n, m, directed, g1, k)
            == Seq::<(usize, usize)>::empty(),
{
}

impl GnmSampler {
    pub closed spec fn edge_list(&self) -> Seq<(usize, usize)> {
        self.edges@
    }

    pub closed spec fn nodes(&self) -> nat {
        self.num_nodes as nat
    }

    pub closed spec fn node_bound(&self) -> usize {
        self.num_nodes
    }

    pub closed spec fn wanted(&self) -> nat {
        self.num_edges as nat
    }

    pub closed spec fn is_directed(&self) -> bool {
        self.directed
    }

    pub closed spec fn wf(&self) -> bool {
        &&& distinct_pairs(self.edges@, self.num_nodes as nat, self.directed)
        &&& self.edges@.len() <= self.num_edges
    }

    /// A sampler with no edges yet, for a directed or an undirected graph.
    pub fn new(num_nodes: usize, num_edges: usize, directed: bool) -> (s: Self)
        ensures
            s.wf(),
            s.nodes() == num_nodes,
            s.node_bound() == num_nodes,
            s.wanted() == num_edges,
            s.is_directed() == directed,
            s.edge_list() == Seq::<(usize, usize)>::empty(),
    {
        GnmSampler { num_nodes, num_edges, directed, edges: Vec::new() }
    }

    /// Whether `num_edges` edges were kept.
    pub fn is_done(&self) -> (r: bool)
        ensures
            r == (self.edge_list().len() >= self.wanted()),
    {
        self.edges.len() >= self.num_edges
    }

    /// Offers the pair `(u, v)`: it is kept when `u != v` and the graph does
    /// not join `u` to `v` yet (in either direction when undirected).
    /// Returns whether it was kept.
    pub fn offer(&mut self, u: usize, v: usize) -> (kept: bool)
        requires
            old(self).wf(),
            old(self).edge_list().len() < old(self).wanted(),
            u < old(self).nodes(),
            v < old(self).nodes(),
        ensures
            final(self).wf(),
            final(self).nodes() == old(self).nodes(),
            final(self).node_bound() == old(self).node_bound(),
            final(self).wanted() == old(self).wanted(),
            final(self).is_directed() == old(self).is_directed(),
            final(self).edge_list() == offered(old(self).edge_list(), u, v, old(self).is_directed()),
            kept == (final(self).edge_list().len() == old(self).edge_list().len() + 1),
    {
        let present = find_edge(&self.edges, u, v) || (!self.directed && find_edge(
            &self.edges,
            v,
            u,
        ));
        if u != v && !present {
            let ghost before = self.edges@;
            self.edges.push((u, v));
            proof {
                assert forall|i: int, j: int|
                    0 <= i < self.edges@.len() && 0 <= j < self.edges@.len() && i != j implies self.edges@[i]
                    != self.edges@[j] by {
                    if i == before.len() {
                        assert(before[j] == self.edges@[j]);
                    } else if j == before.len() {
                        assert(before[i] == self.edges@[i]);
                    }
                }
                assert forall|i: int| 0 <= i < self.edges@.len() implies #[trigger] self.edges@[i].0
                    != self.edges@[i].1 && self.edges@[i].0 < self.num_nodes && self.edges@[i].1
                    < self.num_nodes by {
                    if i < before.len() {
                        assert(before[i] == self.edges@[i]);
                    }
                }
                if !self.directed {
                    assert forall|i: int, j: int|
                        0 <= i < self.edges@.len() && 0 <= j < self.edges@.len() implies #[trigger] self.edges@[i]
                        != (#[trigger] self.edges@[j].1, self.edges@[j].0) by {
                        if i < before.len() && j < before.len() {
                            assert(before[i] == self.edges@[i]);
                            assert(before[j] == self.edges@[j]);
                        } else if i < before.len() {
                            assert(before[i] == self.edges@[i]);
                            assert(!before.contains((v, u)));
                        } else if j < before.len() {
                            assert(before[j] == self.edges@[j]);
                            if self.edges@[i] == (self.edges@[j].1, self.edges@[j].0) {
                                assert(before[j] == (v, u));
                            }
                        }
                    }
                }
            }
            true
        } else {
            false
        }
    }

    /// One draw: a source and then a target, each uniform over the nodes
    /// (`uniform_outcome`), are offered as a pair.
    pub fn draw(&mut self, rng: &mut rand_pcg::Lcg128Xsl64) -> (kept: bool)
        requires
            old(self).wf(),
            old(self).edge_list().len() < old(self).wanted(),
            old(self).nodes() > 0,
        ensures
            final(self).wf(),
            final(self).nodes() == old(self).nodes(),
            final(self).node_bound() == old(self).node_bound(),
            final(self).wanted() == old(self).wanted(),
            final(self).is_directed() == old(self).is_directed(),
            (final(self).edge_list(), *final(rng)) == draw_step(
                old(self).edge_list(),
                old(self).node_bound(),
                old(self).is_directed(),
                *old(rng),
            ),
            ({
                let first = uniform_outcome(old(self).node_bound(), *old(rng));
                let second = uniform_outcome(old(self).node_bound(), first.1);
                &&& first.0 < old(self).nodes()
                &&& second.0 < old(self).nodes()
                &&& final(self).edge_list() == offered(
                    old(self).edge_list(),
                    first.0,
                    second.0,
                    old(self).is_directed(),
                )
                &&& *final(rng) == second.1
            }),
            kept == (final(self).edge_list().len() == old(self).edge_list().len() + 1),
    {
        let u = random_below(self.num_nodes, rng);
        let v = random_below(self.num_nodes, rng);
        self.offer(u, v)
    }

    /// The kept edges, in the order they were kept: no loops, no two joining
    /// the same pair, exactly `num_edges` of them once the sampler is done.
    pub fn into_edges(self) -> (v: Vec<(usize, usize)>)
        requires
            self.wf(),
        ensures
            v@ == self.edge_list(),
            distinct_pairs(v@, self.nodes(), self.is_directed()),
            v@.len() <= self.wanted(),
            self.edge_list().len() >= self.wanted() ==> v@.len() == self.wanted(),
    {
        self.edges
    }
}

} // verus!
