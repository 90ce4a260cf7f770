use vstd::prelude::*;
use crate::error::InvalidInputError;

verus! {

/// The number of nodes in the first `b` blocks.
pub open spec fn prefix_total(sizes: Seq<usize>, b: int) -> int
    decreases b,
{
    if b <= 0 {
        0
    } else {
        prefix_total(sizes, b - 1) + sizes[b - 1]
    }
}

proof fn lemma_prefix_monotone(sizes: Seq<usize>, a: int, b: int)
    requires
        0 <= a <= b,
    ensures
        prefix_total(sizes, a) <= prefix_total(sizes, b),
    decreases b - a,
{
    if a < b {
        lemma_prefix_monotone(sizes, a, b - 1);
    }
}

/// The number of nodes over all blocks, or `None` when it does not fit in
/// a `usize`.
pub fn checked_total(sizes: &[usize]) -> (r: Option<usize>)
    ensures
        r is Some <==> prefix_total(sizes@, sizes@.len() as int) <= usize::MAX,
        r matches Some(t) ==> t == prefix_total(sizes@, sizes@.len() as int),
{
    let mut total: usize = 0;
    let mut i: usize = 0;
    while i < sizes.len()
        invariant
            i <= sizes.len(),
            total == prefix_total(sizes@, i as int),
        decreases sizes.len() - i,
    {
        match total.checked_add(sizes[i]) {
            Some(t) => {
                total = t;
            },
            None => {
                proof {
                    lemma_prefix_monotone(sizes@, i + 1, sizes@.len() as int);
                }
                return None;
            },
        }
        i = i + 1;
    }
    Some(total)
}

/// The shape checks of the block model: at least one node, and a square
/// matrix of probabilities with one row and one column per block.
pub fn check_block_shape(num_nodes: usize, num_blocks: usize, nrows: usize, ncols: usize) -> (r:
    Result<(), InvalidInputError>)
    ensures
        r is Ok <==> (num_nodes > 0 && nrows == num_blocks && ncols == num_blocks),
{
    if num_nodes == 0 {
        return Err(InvalidInputError);
    }
    if nrows != num_blocks || ncols != num_blocks {
        return Err(InvalidInputError);
    }
    Ok(())
}

/// The block of every node: the first `sizes[0]` nodes are in block 0, the
/// next `sizes[1]` in block 1, and so on.
pub fn assign_blocks(sizes: &[usize], num_nodes: usize) -> (blocks: Vec<usize>)
    requires
        num_nodes == prefix_total(sizes@, sizes@.len() as int),
    ensures
        blocks@.len() == num_nodes,
        forall|i: int|
            0 <= i < num_nodes ==> #[trigger] blocks@[i] < sizes@.len() && prefix_total(
                sizes@,
                blocks@[i] as int,
            ) <= i < prefix_total(sizes@, blocks@[i] + 1),
{
    let mut blocks: Vec<usize> = Vec::new();
    if num_nodes == 0 {
        return blocks;
    }
    if sizes.len() == 0 {
        assert(false);
        return blocks;
    }
    let mut block: usize = 0;
    let mut vertices_left: usize = sizes[0];
    let mut i: usize = 0;
    assert(prefix_total(sizes@, 0) == 0);
    assert(prefix_total(sizes@, 1) == sizes@[0]);
    while i < num_nodes
        invariant
            0 < num_nodes == prefix_total(sizes@, sizes@.len() as int),
            i <= num_nodes,
            block < sizes@.len(),
            vertices_left == prefix_total(sizes@, block + 1) - i,
            prefix_total(sizes@, block as int) <= i,
            blocks@.len() == i,
            forall|j: int|
                0 <= j < i ==> #[trigger] blocks@[j] < sizes@.len() && prefix_total(
                    sizes@,
                    blocks@[j] as int,
                ) <= j < prefix_total(sizes@, blocks@[j] + 1),
        decreases num_nodes - i,
    {
        while vertices_left == 0
            invariant
                0 < num_nodes == prefix_total(sizes@, sizes@.len() as int),
                i < num_nodes,
                block < sizes@.len(),
                vertices_left == prefix_total(sizes@, block + 1) - i,
                prefix_total(sizes@, block as int) <= i,
            decreases sizes@.len() - block,
        {
            if block >= sizes.len() - 1 {
                assert(block + 1 == sizes@.len());
                assert(false);
            }
            block = block + 1;
            vertices_left = sizes[block];
        }
        blocks.push(block);
        vertices_left = vertices_left - 1;
        i = i + 1;
    }
    blocks
}

} // verus!
