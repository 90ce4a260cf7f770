use vstd::prelude::*;
use crate::degrees::push_repeated;
use crate::rng::{choose_item, choose_outcome, random_below, uniform_outcome};
use crate::targets::{target_set_items, TargetSet};

verus! {

/// The edges of a star on `num_nodes` nodes with centre `0`, leaves in
/// increasing order: `(0, 1), (0, 2), ..., (0, num_nodes - 1)`.
pub fn star_edges(num_nodes: usize) -> (edges: Vec<(usize, usize)>)
    ensures
        edges@ == Seq::new(
            if num_nodes > 0 {
                (num_nodes - 1) as nat
            } else {
                0nat
            },
            |i: int| (0usize, (i + 1) as usize),
        ),
{
    let mut edges: Vec<(usize, usize)> = Vec::new();
    if num_nodes == 0 {
        assert(edges@ =~= Seq::new(0nat, |i: int| (0usize, (i + 1) as usize)));
        return edges;
    }
    let mut a: usize = 1;
    while a < num_nodes
        invariant
            1 <= a <= num_nodes,
            edges@ == Seq::new((a - 1) as nat, |i: int| (0usize, (i + 1) as usize)),
        decreases num_nodes - a,
    {
        edges.push((0, a));
        a = a + 1;
        assert(edges@ =~= Seq::new((a - 1) as nat, |i: int| (0usize, (i + 1) as usize)));
    }
    assert(edges@ =~= Seq::new(
        if num_nodes > 0 {
            (num_nodes - 1) as nat
        } else {
            0nat
        },
        |i: int| (0usize, (i + 1) as usize),
    ));
    edges
}

/// Node `x` repeated `degrees[x]` times, nodes in increasing order.
pub open spec fn repeated_by(degrees: Seq<usize>) -> Seq<usize>
    decreases degrees.len(),
{
    if degrees.len() == 0 {
        Seq::empty()
    } else {
        repeated_by(degrees.drop_last()) + Seq::new(
            degrees.last() as nat,
            |_i: int| (degrees.len() - 1) as usize,
        )
    }
}

proof fn lemma_repeated_by_bound(degrees: Seq<usize>)
    requires
        degrees.len() <= usize::MAX,
    ensures
        forall|i: int|
            0 <= i < repeated_by(degrees).len() ==> #[trigger] repeated_by(degrees)[i]
                < degrees.len(),
    decreases degrees.len(),
{
    if degrees.len() > 0 {
        let d = degrees.drop_last();
        lemma_repeated_by_bound(d);
        assert forall|i: int|
            0 <= i < repeated_by(degrees).len() implies #[trigger] repeated_by(degrees)[i]
            < degrees.len() by {
            if i < repeated_by(d).len() {
                assert(repeated_by(degrees)[i] == repeated_by(d)[i]);
            }
        }
    }
}

/// The state of preferential attachment: how many nodes the graph has, and
/// every node listed once per edge end it has, so that a uniform pick from
/// the list favours nodes of high degree.
pub struct Attachment {
    m: usize,
    node_count: usize,
    repeated: Vec<usize>,
}

/// The targets that the next new node has picked so far.
pub struct TargetPick {
    set: TargetSet,
}

impl TargetPick {
    pub closed spec fn items(&self) -> Set<usize> {
        target_set_items(self.set)
    }

    /// No target yet.
    pub fn new(m: usize) -> (t: Self)
        ensures
            t.items() == Set::<usize>::empty(),
    {
        TargetPick { set: TargetSet::with_capacity(m) }
    }

    /// How many distinct targets were picked.
    pub fn count(&self) -> (r: usize)
        requires
            self.items().finite(),
        ensures
            r == self.items().len(),
    {
        self.set.len()
    }
}

impl Attachment {
    pub closed spec fn edges_per_node(&self) -> nat {
        self.m as nat
    }

    pub closed spec fn nodes(&self) -> nat {
        self.node_count as nat
    }

    pub closed spec fn node_bound(&self) -> usize {
        self.node_count
    }

    pub closed spec fn pool(&self) -> Seq<usize> {
        self.repeated@
    }

    pub closed spec fn wf(&self) -> bool {
        forall|i: int| 0 <= i < self.repeated@.len() ==> #[trigger] self.repeated@[i] < self.node_count
    }

    /// The state for a starting graph whose node `x` has `degrees[x]` edge
    /// ends; new nodes attach `m` edges each.
    pub fn new(m: usize, degrees: &Vec<usize>) -> (a: Self)
        ensures
            a.wf(),
            a.edges_per_node() == m,
            a.nodes() == degrees@.len(),
            a.pool() == repeated_by(degrees@),
    {
        let mut repeated: Vec<usize> = Vec::new();
        let mut x: usize = 0;
        assert(degrees@.take(0) =~= Seq::<usize>::empty());
        while x < degrees.len()
            invariant
                x <= degrees.len(),
                repeated@ == repeated_by(degrees@.take(x as int)),
            decreases degrees.len() - x,
        {
            push_repeated(&mut repeated, x, degrees[x]);
            assert(degrees@.take(x + 1).drop_last() =~= degrees@.take(x as int));
            x = x + 1;
        }
        assert(degrees@.take(degrees.len() as int) =~= degrees@);
        proof {
            lemma_repeated_by_bound(degrees@);
        }
        Attachment { m, node_count: degrees.len(), repeated }
    }

    /// Whether there is any edge end to pick from.
    pub fn can_pick(&self) -> (r: bool)
        ensures
            r == (self.pool().len() > 0),
    {
        self.repeated.len() > 0
    }

    /// One pick: a uniform entry of the pool (`choose_outcome`) joins the
    /// targets. While the pool is empty, as it is when the starting graph
    /// has no edge, every node counts alike and a uniform node
    /// (`uniform_outcome`) joins them.
    pub fn pick(&self, targets: &mut TargetPick, rng: &mut rand_pcg::Lcg128Xsl64)
        requires
            self.wf(),
            self.nodes() > 0,
            old(targets).items().finite(),
            forall|t: usize| old(targets).items().contains(t) ==> t < self.nodes(),
        ensures
            final(targets).items().finite(),
            forall|t: usize| final(targets).items().contains(t) ==> t < self.nodes(),
            ({
                let c = if self.pool().len() > 0 {
                    choose_outcome(self.pool(), *old(rng))
                } else {
                    uniform_outcome(self.node_bound(), *old(rng))
                };
                &&& final(targets).items() == old(targets).items().insert(c.0)
                &&& *final(rng) == c.1
                &&& c.0 < self.nodes()
                &&& self.pool().len() > 0 ==> self.pool().contains(c.0)
            }),
    {
        let x = if self.repeated.len() > 0 {
            let x = choose_item(&self.repeated, rng);
            proof {
                let i = choose|i: int| 0 <= i < self.repeated@.len() && self.repeated@[i] == x;
                assert(self.repeated@[i] < self.node_count);
            }
            x
        } else {
            random_below(self.node_count, rng)
        };
        targets.set.insert(x);
    }

    /// Adds the next node, joined to every picked target: returns its edges
    /// `(new node, target)`, one per target, and lists the targets once more
    /// and the new node `m` times in the pool.
    pub fn attach(&mut self, targets: &TargetPick) -> (edges: Vec<(usize, usize)>)
        requires
            old(self).wf(),
            old(self).nodes() < usize::MAX,
            forall|t: usize| targets.items().contains(t) ==> t < old(self).nodes(),
        ensures
            final(self).wf(),
            final(self).edges_per_node() == old(self).edges_per_node(),
            final(self).nodes() == old(self).nodes() + 1,
            exists|order: Seq<usize>|
                #![trigger order.to_set()]
                {
                    &&& order.no_duplicates()
                    &&& order.to_set() == targets.items()
                    &&& edges@ == Seq::new(
                        order.len(),
                        |i: int| (old(self).nodes() as usize, order[i]),
                    )
                    &&& final(self).pool() == old(self).pool() + order + Seq::new(
                        old(self).edges_per_node(),
                        |_i: int| old(self).nodes() as usize,
                    )
                },
            edges@.no_duplicates(),
            edges@.len() == targets.items().len(),
            forall|i: int|
                0 <= i < edges@.len() ==> (#[trigger] edges@[i]).0 == old(self).nodes()
                    && edges@[i].1 < old(self).nodes(),
    {
        let source = self.node_count;
        assert(source == old(self).nodes());
        let ghost m0 = self.m;
        let order = targets.set.to_vec();
        let ghost pool0 = self.repeated@;
        let mut edges: Vec<(usize, usize)> = Vec::new();
        let mut i: usize = 0;
        while i < order.len()
            invariant
                i <= order.len(),
                source == self.node_count,
                self.m == m0,
                self.repeated@ == pool0 + order@.take(i as int),
                edges@ == Seq::new(i as nat, |k: int| (source, order@[k])),
                order@.no_duplicates(),
                order@.to_set() == targets.items(),
                forall|t: usize| targets.items().contains(t) ==> t < source,
                forall|k: int| 0 <= k < pool0.len() ==> #[trigger] pool0[k] < source,
            decreases order.len() - i,
        {
            let t = order[i];
            assert(order@.to_set().contains(t));
            edges.push((source, t));
            self.repeated.push(t);
            i = i + 1;
            assert(edges@ =~= Seq::new(i as nat, |k: int| (source, order@[k])));
            assert(self.repeated@ =~= pool0 + order@.take(i as int));
        }
        assert(order@.take(order.len() as int) =~= order@);
        let ghost mid = self.repeated@;
        let m = self.m;
        push_repeated(&mut self.repeated, source, m);
        self.node_count = source + 1;
        proof {
            assert forall|k: int| 0 <= k < self.repeated@.len() implies #[trigger] self.repeated@[k]
                < self.node_count by {
                if k < pool0.len() {
                } else if k < mid.len() {
                    let t = order@[k - pool0.len()];
                    assert(order@.to_set().contains(t));
                } else {
                }
            }
            assert forall|a: int, b: int| 0 <= a < edges@.len() && 0 <= b < edges@.len() && a != b implies edges@[a]
                != edges@[b] by {
                assert(order@[a] != order@[b]);
            }
            assert forall|k: int| 0 <= k < edges@.len() implies (#[trigger] edges@[k]).0 == old(
                self,
            ).nodes() && edges@[k].1 < old(self).nodes() by {
                assert(order@.to_set().contains(order@[k]));
            }
            let o = order@;
            o.unique_seq_to_set();
            assert(o.no_duplicates() && o.to_set() == targets.items() && edges@ == Seq::new(
                o.len(),
                |i: int| (source, o[i]),
            ) && self.repeated@ == pool0 + o + Seq::new(m0 as nat, |_i: int| source));
        }
        edges
    }
}

} // verus!
