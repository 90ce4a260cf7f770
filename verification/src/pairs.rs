use vstd::prelude::*;

verus! {

/// Lexicographic order on node pairs.
pub open spec fn pair_lt(a: (int, int), b: (int, int)) -> bool {
    a.0 < b.0 || (a.0 == b.0 && a.1 < b.1)
}

/// The pairs `(v, w)` of nodes below `n` that a generator considers: in an
/// undirected graph only `v <= w`, and `v == w` only where loops are allowed.
pub open spec fn is_candidate(n: int, directed: bool, loops: bool, p: (int, int)) -> bool {
    &&& 0 <= p.0 < n
    &&& 0 <= p.1 < n
    &&& directed || p.0 <= p.1
    &&& loops || p.0 != p.1
}

/// Walks the candidate pairs of a graph on `num_nodes` nodes in
/// lexicographic order: `v` from `0` up, and for each `v` the targets `w`
/// from `0` (directed) or from `v` (undirected) up, leaving out `w == v`
/// unless loops are allowed.
pub struct PairCursor {
    num_nodes: usize,
    directed: bool,
    loops: bool,
    v: usize,
    w: usize,
}

impl PairCursor {
    /// The pair that the cursor examines next.
    pub closed spec fn position(&self) -> (int, int) {
        (self.v as int, self.w as int)
    }

    pub closed spec fn nodes(&self) -> int {
        self.num_nodes as int
    }

    pub closed spec fn is_directed(&self) -> bool {
        self.directed
    }

    pub closed spec fn allows_loops(&self) -> bool {
        self.loops
    }

    pub closed spec fn wf(&self) -> bool {
        &&& self.v <= self.num_nodes
        &&& self.w <= self.num_nodes
        &&& self.v < self.num_nodes ==> (self.directed || self.v <= self.w)
    }

    /// A cursor before the first pair.
    pub fn new(num_nodes: usize, directed: bool, loops: bool) -> (c: Self)
        ensures
            c.wf(),
            c.nodes() == num_nodes,
            c.is_directed() == directed,
            c.allows_loops() == loops,
            c.position() == (0int, 0int),
    {
        PairCursor { num_nodes, directed, loops, v: 0, w: 0 }
    }

    /// The next candidate pair in lexicographic order, or `None` once all
    /// were given.
    pub fn next(&mut self) -> (r: Option<(usize, usize)>)
        requires
            old(self).wf(),
        ensures
            final(self).wf(),
            final(self).nodes() == old(self).nodes(),
            final(self).is_directed() == old(self).is_directed(),
            final(self).allows_loops() == old(self).allows_loops(),
            match r {
                Some(e) => {
                    &&& is_candidate(
                        old(self).nodes(),
                        old(self).is_directed(),
                        old(self).allows_loops(),
                        (e.0 as int, e.1 as int),
                    )
                    &&& !pair_lt((e.0 as int, e.1 as int), old(self).position())
                    &&& forall|p: (int, int)|
                        is_candidate(
                            old(self).nodes(),
                            old(self).is_directed(),
                            old(self).allows_loops(),
                            p,
                        ) && !pair_lt(p, old(self).position()) ==> !#[trigger] pair_lt(
                            p,
                            (e.0 as int, e.1 as int),
                        )
                    &&& final(self).position() == (e.0 as int, e.1 + 1)
                },
                None => forall|p: (int, int)|
                    is_candidate(old(self).nodes(), old(self).is_directed(), old(self).allows_loops(), p)
                        ==> #[trigger] pair_lt(p, old(self).position()),
            },
    {
        let ghost start = self.position();
        let ghost n = self.nodes();
        let ghost d = self.directed;
        let ghost l = self.loops;
        assert(n == old(self).nodes() && d == old(self).is_directed() && l == old(self).allows_loops());
        loop
            invariant
                self.wf(),
                n == old(self).nodes(),
                d == old(self).is_directed(),
                l == old(self).allows_loops(),
                start == old(self).position(),
                self.nodes() == n,
                self.is_directed() == d,
                self.allows_loops() == l,
                !pair_lt(self.position(), start),
                forall|p: (int, int)|
                    is_candidate(n, d, l, p) && !pair_lt(p, start) ==> !#[trigger] pair_lt(
                        p,
                        self.position(),
                    ),
            decreases self.num_nodes - self.v, self.num_nodes - self.w,
        {
            if self.v >= self.num_nodes {
                assert forall|p: (int, int)| is_candidate(n, d, l, p) implies #[trigger] pair_lt(
                    p,
                    start,
                ) by {
                    if !pair_lt(p, start) {
                        assert(!pair_lt(p, self.position()));
                    }
                }
                return None;
            }
            let ghost before = self.position();
            if self.w >= self.num_nodes {
                self.v = self.v + 1;
                self.w = if self.directed {
                    0
                } else {
                    self.v
                };
                assert forall|p: (int, int)|
                    is_candidate(n, d, l, p) && !pair_lt(p, start) implies !#[trigger] pair_lt(
                    p,
                    self.position(),
                ) by {
                    assert(!pair_lt(p, before));
                }
            } else {
                let v = self.v;
                let w = self.w;
                self.w = self.w + 1;
                if w != v || self.loops {
                    return Some((v, w));
                }
                assert forall|p: (int, int)|
                    is_candidate(n, d, l, p) && !pair_lt(p, start) implies !#[trigger] pair_lt(
                    p,
                    self.position(),
                ) by {
                    assert(!pair_lt(p, before));
                }
            }
        }
    }
}

/// Walks the pairs `(v, num_l + w)` of a bipartite graph, `v` below
/// `num_l` and `w` below `num_r`, in lexicographic order.
pub struct BipartiteCursor {
    num_l: usize,
    num_r: usize,
    v: usize,
    w: usize,
}

/// The pairs of a bipartite graph with `l` left and `r` right nodes.
pub open spec fn is_bipartite_pair(l: int, r: int, p: (int, int)) -> bool {
    0 <= p.0 < l && l <= p.1 < l + r
}

impl BipartiteCursor {
    pub closed spec fn position(&self) -> (int, int) {
        (self.v as int, self.num_l + self.w)
    }

    pub closed spec fn left(&self) -> int {
        self.num_l as int
    }

    pub closed spec fn right(&self) -> int {
        self.num_r as int
    }

    pub closed spec fn wf(&self) -> bool {
        &&& self.v <= self.num_l
        &&& self.w <= self.num_r
        &&& self.num_l + self.num_r <= usize::MAX
    }

    /// A cursor before the first pair.
    pub fn new(num_l: usize, num_r: usize) -> (c: Self)
        requires
            num_l + num_r <= usize::MAX,
        ensures
            c.wf(),
            c.left() == num_l,
            c.right() == num_r,
            c.position() == (0int, num_l as int),
    {
        BipartiteCursor { num_l, num_r, v: 0, w: 0 }
    }

    /// The next pair in lexicographic order, or `None` once all were given.
    pub fn next(&mut self) -> (r: Option<(usize, usize)>)
        requires
            old(self).wf(),
        ensures
            final(self).wf(),
            final(self).left() == old(self).left(),
            final(self).right() == old(self).right(),
            match r {
                Some(e) => {
                    &&& is_bipartite_pair(old(self).left(), old(self).right(), (e.0 as int, e.1 as int))
                    &&& !pair_lt((e.0 as int, e.1 as int), old(self).position())
                    &&& forall|p: (int, int)|
                        is_bipartite_pair(old(self).left(), old(self).right(), p) && !pair_lt(
                            p,
                            old(self).position(),
                        ) ==> !#[trigger] pair_lt(p, (e.0 as int, e.1 as int))
                    &&& final(self).position() == (e.0 as int, e.1 + 1)
                },
                None => forall|p: (int, int)|
                    is_bipartite_pair(old(self).left(), old(self).right(), p) ==> #[trigger] pair_lt(
                        p,
                        old(self).position(),
                    ),
            },
    {
        if self.v >= self.num_l || self.num_r == 0 {
            self.v = self.num_l;
            self.w = self.num_r;
            return None;
        }
        if self.w >= self.num_r {
            self.v = self.v + 1;
            self.w = 0;
        }
        if self.v >= self.num_l {
            self.v = self.num_l;
            self.w = self.num_r;
            return None;
        }
        let e = (self.v, self.num_l + self.w);
        self.w = self.w + 1;
        Some(e)
    }
}

} // verus!
