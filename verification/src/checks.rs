use vstd::prelude::*;
use crate::error::InvalidInputError;

verus! {

/// Every generator but the bipartite and the preferential-attachment ones
/// needs at least one node.
pub fn require_nodes(num_nodes: usize) -> (r: Result<(), InvalidInputError>)
    ensures
        r is Ok <==> num_nodes > 0,
{
    if num_nodes == 0 {
        Err(InvalidInputError)
    } else {
        Ok(())
    }
}

/// The node count as an `isize`, which the skipping walk of the G(n, p)
/// generator counts in; a count that does not fit is refused.
pub fn isize_node_count(num_nodes: usize) -> (r: Result<isize, InvalidInputError>)
    ensures
        r is Ok <==> num_nodes <= isize::MAX,
        r matches Ok(n) ==> n == num_nodes,
{
    if num_nodes <= isize::MAX as usize {
        Ok(num_nodes as isize)
    } else {
        Err(InvalidInputError)
    }
}

/// The most edges that a simple graph on `num_nodes` nodes can have without
/// loops: `n (n - 1)` directed, half of that undirected.
pub fn edge_limit(num_nodes: usize, directed: bool) -> (r: usize)
    requires
        num_nodes >= 1,
        num_nodes * (num_nodes - 1) <= usize::MAX,
    ensures
        r == num_nodes * (num_nodes - 1) / (if directed {
            2int - 1
        } else {
            2int
        }),
        r == crate::gnm::gnm_limit(num_nodes as nat, directed),
{
    let div_by: usize = if directed {
        1
    } else {
        2
    };
    num_nodes * (num_nodes - 1) / div_by
}

/// The given positions must be one per node.
pub fn check_positions(num_nodes: usize, num_positions: usize) -> (r: Result<(), InvalidInputError>)
    ensures
        r is Ok <==> num_nodes == num_positions,
{
    if num_nodes != num_positions {
        Err(InvalidInputError)
    } else {
        Ok(())
    }
}

/// A bipartite graph needs a node on at least one side.
pub fn check_bipartite_sides(num_l_nodes: usize, num_r_nodes: usize) -> (r: Result<
    (),
    InvalidInputError,
>)
    ensures
        r is Ok <==> !(num_l_nodes == 0 && num_r_nodes == 0),
{
    if num_l_nodes == 0 && num_r_nodes == 0 {
        Err(InvalidInputError)
    } else {
        Ok(())
    }
}

/// The shape checks of the hyperbolic generator: at least one node, at
/// least two coordinates per node, the same number for every node, and an
/// undirected graph.
pub fn check_hyperbolic_shape(dims: &Vec<usize>, directed: bool) -> (r: Result<
    (),
    InvalidInputError,
>)
    ensures
        r is Ok <==> (dims@.len() > 0 && dims@[0] >= 2 && (forall|i: int|
            0 <= i < dims@.len() ==> #[trigger] dims@[i] == dims@[0]) && !directed),
{
    if dims.len() == 0 {
        return Err(InvalidInputError);
    }
    let dim = dims[0];
    if dim < 2 {
        return Err(InvalidInputError);
    }
    let mut i: usize = 0;
    while i < dims.len()
        invariant
            i <= dims.len(),
            dim == dims@[0],
            forall|j: int| 0 <= j < i ==> #[trigger] dims@[j] == dim,
        decreases dims.len() - i,
    {
        if dims[i] != dim {
            return Err(InvalidInputError);
        }
        i = i + 1;
    }
    if directed {
        return Err(InvalidInputError);
    }
    Ok(())
}

/// The checks of the preferential-attachment generator on its sizes:
/// `1 <= m < n`.
pub fn check_attachment_sizes(n: usize, m: usize) -> (r: Result<(), InvalidInputError>)
    ensures
        r is Ok <==> (1 <= m && m < n),
{
    if m < 1 || m >= n {
        Err(InvalidInputError)
    } else {
        Ok(())
    }
}

/// The starting graph must have between `m` and `n` nodes.
pub fn check_initial_size(node_count: usize, n: usize, m: usize) -> (r: Result<
    (),
    InvalidInputError,
>)
    ensures
        r is Ok <==> (m <= node_count && node_count <= n),
{
    if node_count < m || node_count > n {
        Err(InvalidInputError)
    } else {
        Ok(())
    }
}

} // verus!
