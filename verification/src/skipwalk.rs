use vstd::prelude::*;

verus! {

/// The number of pairs `(v, w)` with `0 <= w < v < k`.
pub open spec fn tri(k: int) -> int
    decreases k,
{
    if k <= 0 {
        0
    } else {
        tri(k - 1) + (k - 1)
    }
}

/// Where the pair `(v, w)`, `w < v`, stands when the pairs are listed by
/// `v`, then by `w`: `(1, 0), (2, 0), (2, 1), (3, 0), ...` are at
/// `0, 1, 2, 3, ...`.
pub open spec fn walk_pos(v: int, w: int) -> int {
    tri(v) + w
}

/// Carries an overshooting `w` into the following rows: while `w` is not
/// below `v` (and `v` is a node), `w` loses `v` and `v` moves on.
pub open spec fn settle(n: int, v: int, w: int) -> (int, int)
    decreases n - v,
{
    if w >= v && v < n {
        settle(n, v + 1, w - v)
    } else {
        (v, w)
    }
}

proof fn lemma_settle(n: int, v: int, w: int)
    requires
        0 <= v,
        0 <= w,
    ensures
        walk_pos(settle(n, v, w).0, settle(n, v, w).1) == walk_pos(v, w),
        settle(n, v, w).0 >= v,
        0 <= settle(n, v, w).1,
        settle(n, v, w).0 < n ==> settle(n, v, w).1 < settle(n, v, w).0,
        v <= n ==> settle(n, v, w).0 <= n,
    decreases n - v,
{
    if w >= v && v < n {
        lemma_settle(n, v + 1, w - v);
    }
}

proof fn lemma_tri_bounds(v: int)
    requires
        0 <= v,
    ensures
        tri(v + 1) == tri(v) + v,
        tri(v) >= 0,
    decreases v,
{
    if v > 0 {
        lemma_tri_bounds(v - 1);
    }
}

proof fn lemma_tri_monotone(a: int, b: int)
    requires
        0 <= a <= b,
    ensures
        tri(a) <= tri(b),
    decreases b - a,
{
    if a < b {
        lemma_tri_monotone(a + 1, b);
        lemma_tri_bounds(a);
    }
}

/// A position of the walk names exactly one pair: two pairs below the
/// diagonal at the same position are the same pair, so a walk whose
/// position only grows never gives a pair twice.
pub proof fn lemma_walk_pos_unique(v1: int, w1: int, v2: int, w2: int)
    requires
        0 <= w1 < v1,
        0 <= w2 < v2,
        walk_pos(v1, w1) == walk_pos(v2, w2),
    ensures
        v1 == v2,
        w1 == w2,
{
    if v1 < v2 {
        lemma_tri_monotone(v1 + 1, v2);
        lemma_tri_bounds(v1);
    } else if v2 < v1 {
        lemma_tri_monotone(v2 + 1, v1);
        lemma_tri_bounds(v2);
    }
}

/// The skipping walk of the G(n, p) generator over the pairs `(v, w)` with
/// `w < v < n`. Each draw moves the walk `skip + 1` pairs ahead; the pair it
/// lands on becomes an edge `(v, w)` (outward) or `(w, v)` (inward).
pub struct SkipWalk {
    num_nodes: isize,
    v: isize,
    w: isize,
    inward: bool,
}

impl SkipWalk {
    pub closed spec fn row(&self) -> int {
        self.v as int
    }

    pub closed spec fn col(&self) -> int {
        self.w as int
    }

    pub closed spec fn nodes(&self) -> int {
        self.num_nodes as int
    }

    pub closed spec fn is_inward(&self) -> bool {
        self.inward
    }

    pub closed spec fn wf(&self) -> bool {
        &&& 0 <= self.v
        &&& -1 <= self.w
        &&& self.v < self.num_nodes ==> self.w < self.v
        &&& 0 <= self.num_nodes
    }

    /// The walk over edges `(v, w)`, `w < v`, that every graph gets; it starts
    /// before the pair `(1, 0)`.
    pub fn outward(num_nodes: isize) -> (s: Self)
        requires
            0 <= num_nodes,
        ensures
            s.wf(),
            s.nodes() == num_nodes,
            !s.is_inward(),
            s.row() == 1,
            s.col() == -1,
    {
        SkipWalk { num_nodes, v: 1, w: -1, inward: false }
    }

    /// The walk over edges `(w, v)`, `w < v`, that a directed graph gets in
    /// addition; it starts at row `0`, before any pair.
    pub fn inward(num_nodes: isize) -> (s: Self)
        requires
            0 <= num_nodes,
        ensures
            s.wf(),
            s.nodes() == num_nodes,
            s.is_inward(),
            s.row() == 0,
            s.col() == -1,
    {
        SkipWalk { num_nodes, v: 0, w: -1, inward: true }
    }

    /// The column the walk stands at; a draw of `skip` moves it to
    /// `col + 1 + skip` before carrying into the following rows.
    pub fn current_col(&self) -> (r: isize)
        ensures
            r == self.col(),
    {
        self.w
    }

    /// Whether the walk has left the last row.
    pub fn is_done(&self) -> (r: bool)
        ensures
            r == (self.row() >= self.nodes()),
    {
        self.v >= self.num_nodes
    }

    /// One draw: `skip` pairs are passed over and the walk lands on the
    /// next one, which is returned as an edge while it is a pair of nodes.
    pub fn advance(&mut self, skip: isize) -> (r: Option<(usize, usize)>)
        requires
            old(self).wf(),
            old(self).row() < old(self).nodes(),
            0 <= skip,
            old(self).col() + 1 + skip <= isize::MAX,
            old(self).is_inward() ==> old(self).nodes() < isize::MAX,
        ensures
            final(self).wf(),
            final(self).nodes() == old(self).nodes(),
            final(self).is_inward() == old(self).is_inward(),
            ({
                let s = settle(old(self).nodes(), old(self).row(), old(self).col() + 1 + skip);
                &&& s.0 < old(self).nodes() ==> final(self).row() == s.0 && final(self).col() == s.1
                &&& s.0 >= old(self).nodes() ==> final(self).row() >= old(self).nodes()
                &&& r is Some <==> s.0 < old(self).nodes()
            }),
            final(self).row() < final(self).nodes() ==> walk_pos(final(self).row(), final(self).col())
                == walk_pos(old(self).row(), old(self).col()) + skip + 1,
            r matches Some(e) ==> if old(self).is_inward() {
                e.0 == final(self).col() && e.1 == final(self).row()
            } else {
                e.0 == final(self).row() && e.1 == final(self).col()
            },
            r matches Some(e) ==> e.0 < old(self).nodes() && e.1 < old(self).nodes() && e.0 != e.1,
    {
        let ghost n = self.num_nodes as int;
        let ghost target = settle(n, self.v as int, self.w + 1 + skip);
        let ghost pos0 = walk_pos(self.v as int, self.w as int);
        proof {
            lemma_settle(n, self.v as int, self.w + 1 + skip);
            lemma_tri_bounds(self.v as int);
        }
        self.w = self.w + 1 + skip;
        assert(walk_pos(self.v as int, self.w as int) == pos0 + skip + 1);
        while self.w >= self.v && self.v < self.num_nodes
            invariant
                0 <= self.v <= n,
                0 <= self.w,
                self.num_nodes == n,
                settle(n, self.v as int, self.w as int) == target,
                walk_pos(self.v as int, self.w as int) == pos0 + skip + 1,
                self.inward == old(self).inward,
            decreases self.num_nodes - self.v,
        {
            proof {
                lemma_tri_bounds(self.v as int);
            }
            self.w = self.w - self.v;
            self.v = self.v + 1;
        }
        let ghost settled = (self.v as int, self.w as int);
        if self.inward && self.v == self.w {
            self.w = self.w - self.v;
            self.v = self.v + 1;
        }
        if self.v < self.num_nodes {
            assert(settled == (self.v as int, self.w as int));
            if self.inward {
                Some((self.w as usize, self.v as usize))
            } else {
                Some((self.v as usize, self.w as usize))
            }
        } else {
            None
        }
    }
}

} // verus!
