//! The scenarios of the generators, run through the library's parts with the
//! floating-point decisions made here, as the application layer makes them.

use rand_distr::{Distribution, Uniform};
use rand_pcg::Pcg64;
use random_graphs::attachment::{star_edges, Attachment, TargetPick};
use random_graphs::blocks::{assign_blocks, check_block_shape, checked_total};
use random_graphs::checks::{
    check_attachment_sizes, check_bipartite_sides, check_hyperbolic_shape, check_initial_size,
    check_positions, edge_limit, isize_node_count, require_nodes,
};
use random_graphs::complete::complete_edges;
use random_graphs::gnm::GnmSampler;
use random_graphs::pairs::{BipartiteCursor, PairCursor};
use random_graphs::regular::{check_regular_input, RegularGraphAttempt};
use random_graphs::rng::make_rng;
use random_graphs::skipwalk::SkipWalk;
use random_graphs::InvalidInputError;

type Generated = Result<(usize, Vec<(usize, usize)>), InvalidInputError>;

fn regular(num_nodes: usize, degree: usize, seed: Option<u64>) -> Generated {
    require_nodes(num_nodes)?;
    let mut rng = make_rng(seed);
    if num_nodes.checked_mul(degree).is_none() {
        panic!("attempt to multiply with overflow");
    }
    check_regular_input(num_nodes, degree)?;
    if degree == 0 {
        return Ok((num_nodes, vec![]));
    }
    loop {
        let mut attempt = RegularGraphAttempt::new(num_nodes, degree);
        let mut alive = true;
        while alive && !attempt.is_finished() {
            alive = attempt.round(&mut rng);
        }
        if alive {
            return Ok((num_nodes, attempt.edges()));
        }
    }
}

fn walk_edges(walk: &mut SkipWalk, lp: f64, rng: &mut Pcg64, edges: &mut Vec<(usize, usize)>) {
    let between = Uniform::new(0.0, 1.0).unwrap();
    while !walk.is_done() {
        let random: f64 = between.sample(rng);
        let lr: f64 = (1.0 - random).ln();
        let skip = (lr / lp) as isize;
        if walk.current_col().checked_add(1).and_then(|w| w.checked_add(skip)).is_none() {
            panic!("attempt to add with overflow");
        }
        if skip < 0 {
            panic!("the walk cannot move back: node index out of bounds");
        }
        if let Some(e) = walk.advance(skip) {
            edges.push(e);
        }
    }
}

fn gnp(num_nodes: usize, probability: f64, seed: Option<u64>, directed: bool) -> Generated {
    require_nodes(num_nodes)?;
    let mut rng = make_rng(seed);
    if !(0.0..=1.0).contains(&probability) {
        return Err(InvalidInputError);
    }
    let mut edges = vec![];
    if probability > 0.0 {
        if (probability - 1.0).abs() < f64::EPSILON {
            edges = complete_edges(num_nodes, directed);
        } else {
            let n = isize_node_count(num_nodes)?;
            let lp: f64 = (1.0 - probability).ln();
            if directed {
                if n == isize::MAX {
                    panic!("attempt to add with overflow");
                }
                walk_edges(&mut SkipWalk::inward(n), lp, &mut rng, &mut edges);
            }
            walk_edges(&mut SkipWalk::outward(n), lp, &mut rng, &mut edges);
        }
    }
    Ok((num_nodes, edges))
}

fn gnm(num_nodes: usize, num_edges: usize, seed: Option<u64>, directed: bool) -> Generated {
    require_nodes(num_nodes)?;
    let mut rng = make_rng(seed);
    if num_nodes.checked_mul(num_nodes - 1).is_none() {
        panic!("attempt to multiply with overflow");
    }
    if num_edges >= edge_limit(num_nodes, directed) {
        return Ok((num_nodes, complete_edges(num_nodes, directed)));
    }
    let mut sampler = GnmSampler::new(num_nodes, num_edges, directed);
    while !sampler.is_done() {
        sampler.draw(&mut rng);
    }
    Ok((num_nodes, sampler.into_edges()))
}

fn sbm(
    sizes: &[usize],
    probabilities: &[Vec<f64>],
    ncols: usize,
    loops: bool,
    seed: Option<u64>,
    directed: bool,
) -> Generated {
    let num_nodes = match checked_total(sizes) {
        Some(n) => n,
        None => panic!("attempt to add with overflow"),
    };
    check_block_shape(num_nodes, sizes.len(), probabilities.len(), ncols)?;
    if probabilities.iter().any(|row| row.iter().any(|&x| !(0. ..=1.).contains(&x))) {
        return Err(InvalidInputError);
    }
    if !directed {
        for i in 0..probabilities.len() {
            for j in (i + 1)..probabilities.len() {
                if probabilities[i][j] != probabilities[j][i] {
                    return Err(InvalidInputError);
                }
            }
        }
    }
    let mut rng = make_rng(seed);
    let blocks = assign_blocks(sizes, num_nodes);
    let between = Uniform::new(0.0, 1.0).unwrap();
    let mut cursor = PairCursor::new(num_nodes, directed, loops);
    let mut edges = vec![];
    while let Some((v, w)) = cursor.next() {
        if between.sample(&mut rng) < probabilities[blocks[v]][blocks[w]] {
            edges.push((v, w));
        }
    }
    Ok((num_nodes, edges))
}

fn pnorm(x: f64, p: f64) -> f64 {
    if p == 1.0 || p == f64::INFINITY {
        x.abs()
    } else if p == 2.0 {
        x * x
    } else {
        x.abs().powf(p)
    }
}

fn distance(x: &[f64], y: &[f64], p: f64) -> f64 {
    let it = x.iter().zip(y.iter()).map(|(xi, yi)| pnorm(xi - yi, p));
    if p == f64::INFINITY {
        it.fold(-1.0, |max, x| if x > max { x } else { max })
    } else {
        it.sum()
    }
}

fn geometric(
    num_nodes: usize,
    radius: f64,
    dim: usize,
    pos: Option<Vec<Vec<f64>>>,
    p: f64,
    seed: Option<u64>,
) -> Generated {
    require_nodes(num_nodes)?;
    let mut rng = make_rng(seed);
    let radius_p = pnorm(radius, p);
    let dist = Uniform::new(0.0, 1.0).unwrap();
    let pos = pos.unwrap_or_else(|| {
        (0..num_nodes)
            .map(|_| (0..dim).map(|_| dist.sample(&mut rng)).collect())
            .collect()
    });
    check_positions(num_nodes, pos.len())?;
    let mut cursor = PairCursor::new(num_nodes, false, false);
    let mut edges = vec![];
    while let Some((u, v)) = cursor.next() {
        if distance(&pos[u], &pos[v], p) <= radius_p {
            edges.push((u, v));
        }
    }
    Ok((num_nodes, edges))
}

fn barabasi(n: usize, m: usize, seed: Option<u64>, initial: Option<(usize, Vec<(usize, usize)>)>) -> Generated {
    check_attachment_sizes(n, m)?;
    let mut rng = make_rng(seed);
    let (count, mut edges) = match initial {
        Some(g) => g,
        None => (m, star_edges(m)),
    };
    check_initial_size(count, n, m)?;
    let mut degrees = vec![0usize; count];
    for &(a, b) in edges.iter() {
        degrees[a] += 1;
        degrees[b] += 1;
    }
    let mut attachment = Attachment::new(m, &degrees);
    for _ in count..n {
        let mut pick = TargetPick::new(m);
        while pick.count() < m {
            attachment.pick(&mut pick, &mut rng);
        }
        edges.extend(attachment.attach(&pick));
    }
    Ok((n, edges))
}

fn bipartite(num_l: usize, num_r: usize, probability: f64, seed: Option<u64>) -> Generated {
    check_bipartite_sides(num_l, num_r)?;
    if !(0.0..=1.0).contains(&probability) {
        return Err(InvalidInputError);
    }
    let mut rng = make_rng(seed);
    let between = Uniform::new(0.0, 1.0).unwrap();
    if num_l.checked_add(num_r).is_none() {
        panic!("attempt to add with overflow");
    }
    let mut cursor = BipartiteCursor::new(num_l, num_r);
    let mut edges = vec![];
    while let Some(e) = cursor.next() {
        let random: f64 = between.sample(&mut rng);
        if random < probability {
            edges.push(e);
        }
    }
    Ok((num_l + num_r, edges))
}

fn hyperbolic_distance(x: &[f64], y: &[f64]) -> f64 {
    let mut sum_squared_x = 0.;
    let mut sum_squared_y = 0.;
    let mut inner_product = 0.;
    for (x_i, y_i) in x.iter().zip(y.iter()) {
        if x_i.is_infinite() || y_i.is_infinite() || x_i.is_nan() || y_i.is_nan() {
            return f64::NAN;
        }
        sum_squared_x = x_i.mul_add(*x_i, sum_squared_x);
        sum_squared_y = y_i.mul_add(*y_i, sum_squared_y);
        inner_product = x_i.mul_add(*y_i, inner_product);
    }
    let arg = (1. + sum_squared_x).sqrt() * (1. + sum_squared_y).sqrt() - inner_product;
    if arg < 1. {
        0.
    } else {
        arg.acosh()
    }
}

fn hyperbolic(pos: &[Vec<f64>], r: f64, beta: Option<f64>, seed: Option<u64>, directed: bool) -> Generated {
    let num_nodes = pos.len();
    require_nodes(num_nodes)?;
    if pos.iter().any(|xs| xs.iter().any(|x| x.is_nan() || x.is_infinite())) {
        return Err(InvalidInputError);
    }
    let dims: Vec<usize> = pos.iter().map(|x| x.len()).collect();
    if beta.is_some_and(|b| b < 0. || b.is_nan()) || r < 0. || r.is_nan() {
        return Err(InvalidInputError);
    }
    check_hyperbolic_shape(&dims, directed)?;
    let mut rng = make_rng(seed);
    let between = Uniform::new(0.0, 1.0).unwrap();
    let mut cursor = PairCursor::new(num_nodes, false, false);
    let mut edges = vec![];
    while let Some((v, w)) = cursor.next() {
        let dist = hyperbolic_distance(&pos[v], &pos[w]);
        let is_edge = match beta {
            Some(b) => {
                let prob_inverse = (b / 2. * (dist - r)).exp() + 1.;
                let u: f64 = between.sample(&mut rng);
                prob_inverse * u < 1.
            }
            None => dist < r,
        };
        if is_edge {
            edges.push((v, w));
        }
    }
    Ok((num_nodes, edges))
}

fn path(n: usize) -> (usize, Vec<(usize, usize)>) {
    (n, (1..n).map(|i| (i - 1, i)).collect())
}

fn has(edges: &[(usize, usize)], u: usize, v: usize, directed: bool) -> bool {
    edges.iter().any(|&(a, b)| (a, b) == (u, v) || (!directed && (a, b) == (v, u)))
}

// G(n, p)

#[test]
fn test_gnp_random_graph_directed() {
    let (n, e) = gnp(20, 0.5, Some(10), true).unwrap();
    assert_eq!(n, 20);
    assert_eq!(e.len(), 189);
}

#[test]
fn test_gnp_random_graph_directed_empty() {
    let (n, e) = gnp(20, 0.0, None, true).unwrap();
    assert_eq!(n, 20);
    assert_eq!(e.len(), 0);
}

#[test]
fn test_gnp_random_graph_directed_complete() {
    let (n, e) = gnp(20, 1.0, None, true).unwrap();
    assert_eq!(n, 20);
    assert_eq!(e.len(), 20 * (20 - 1));
}

#[test]
fn test_gnp_random_graph_undirected() {
    let (n, e) = gnp(20, 0.5, Some(10), false).unwrap();
    assert_eq!(n, 20);
    assert_eq!(e.len(), 105);
}

#[test]
fn test_gnp_random_graph_undirected_empty() {
    let (n, e) = gnp(20, 0.0, None, false).unwrap();
    assert_eq!(n, 20);
    assert_eq!(e.len(), 0);
}

#[test]
fn test_gnp_random_graph_undirected_complete() {
    let (n, e) = gnp(20, 1.0, None, false).unwrap();
    assert_eq!(n, 20);
    assert_eq!(e.len(), 20 * (20 - 1) / 2);
}

#[test]
fn test_gnp_random_graph_error() {
    match gnp(0, 3.0, None, true) {
        Ok(_) => panic!("Returned a non-error"),
        Err(e) => assert_eq!(e, InvalidInputError),
    };
}

// random regular

#[test]
fn test_random_regular_graph() {
    let (n, e) = regular(4, 2, Some(10)).unwrap();
    assert_eq!(n, 4);
    assert_eq!(e.len(), 4);
    for node in 0..n {
        assert_eq!(e.iter().filter(|&&(a, b)| a == node || b == node).count(), 2)
    }
}

// G(n, m)

#[test]
fn test_gnm_random_graph_directed() {
    let (n, e) = gnm(20, 100, None, true).unwrap();
    assert_eq!(n, 20);
    assert_eq!(e.len(), 100);
}

#[test]
fn test_gnm_random_graph_directed_empty() {
    let (n, e) = gnm(20, 0, None, true).unwrap();
    assert_eq!(n, 20);
    assert_eq!(e.len(), 0);
}

#[test]
fn test_gnm_random_graph_directed_complete() {
    let (n, e) = gnm(20, 20 * (20 - 1), None, true).unwrap();
    assert_eq!(n, 20);
    assert_eq!(e.len(), 20 * (20 - 1));
}

#[test]
fn test_gnm_random_graph_directed_max_edges() {
    let n = 20;
    let max_m = n * (n - 1);
    let (nodes, e) = gnm(n, max_m, None, true).unwrap();
    assert_eq!(nodes, n);
    assert_eq!(e.len(), max_m);
    let (nodes, e) = gnm(n, max_m + 1, None, true).unwrap();
    assert_eq!(nodes, n);
    assert_eq!(e.len(), max_m);
    let (nodes, e) = gnm(n, max_m, Some(55), true).unwrap();
    assert_eq!(nodes, n);
    assert_eq!(e.len(), max_m);
}

#[test]
fn test_gnm_random_graph_error() {
    match gnm(0, 0, None, true) {
        Ok(_) => panic!("Returned a non-error"),
        Err(e) => assert_eq!(e, InvalidInputError),
    };
}

// stochastic block model

#[test]
fn test_sbm_directed_complete_blocks_loops() {
    let (n, e) = sbm(&[1, 2], &[vec![0., 1.], vec![0., 1.]], 2, true, Some(10), true).unwrap();
    assert_eq!(n, 3);
    assert_eq!(e.len(), 6);
    for (u, v) in [(1, 1), (1, 2), (2, 1), (2, 2), (0, 1), (0, 2)] {
        assert!(has(&e, u, v, true));
    }
    assert!(!has(&e, 1, 0, true));
    assert!(!has(&e, 2, 0, true));
}

#[test]
fn test_sbm_undirected_complete_blocks_loops() {
    let (n, e) = sbm(&[1, 2], &[vec![0., 1.], vec![1., 1.]], 2, true, Some(10), false).unwrap();
    assert_eq!(n, 3);
    assert_eq!(e.len(), 5);
    for (u, v) in [(1, 1), (1, 2), (2, 2), (0, 1), (0, 2)] {
        assert!(has(&e, u, v, false));
    }
    assert!(!has(&e, 0, 0, false));
}

#[test]
fn test_sbm_directed_complete_blocks_noloops() {
    let (n, e) = sbm(&[1, 2], &[vec![0., 1.], vec![0., 1.]], 2, false, Some(10), true).unwrap();
    assert_eq!(n, 3);
    assert_eq!(e.len(), 4);
    for (u, v) in [(1, 2), (2, 1), (0, 1), (0, 2)] {
        assert!(has(&e, u, v, true));
    }
    assert!(!has(&e, 1, 0, true));
    assert!(!has(&e, 2, 0, true));
    for u in 0..2 {
        assert!(!has(&e, u, u, true));
    }
}

#[test]
fn test_sbm_undirected_complete_blocks_noloops() {
    let (n, e) = sbm(&[1, 2], &[vec![0., 1.], vec![1., 1.]], 2, false, Some(10), false).unwrap();
    assert_eq!(n, 3);
    assert_eq!(e.len(), 3);
    for (u, v) in [(1, 2), (0, 1), (0, 2)] {
        assert!(has(&e, u, v, false));
    }
    for u in 0..2 {
        assert!(!has(&e, u, u, false));
    }
}

#[test]
fn test_sbm_bad_array_rows_error() {
    match sbm(&[1, 2], &[vec![0., 1.], vec![1., 1.], vec![1., 1.]], 2, true, Some(10), true) {
        Ok(_) => panic!("Returned a non-error"),
        Err(e) => assert_eq!(e, InvalidInputError),
    };
}

#[test]
fn test_sbm_bad_array_cols_error() {
    match sbm(&[1, 2], &[vec![0., 1., 1.], vec![1., 1., 1.]], 3, true, Some(10), true) {
        Ok(_) => panic!("Returned a non-error"),
        Err(e) => assert_eq!(e, InvalidInputError),
    };
}

#[test]
fn test_sbm_asymmetric_array_error() {
    match sbm(&[1, 2], &[vec![0., 1.], vec![0., 1.]], 2, true, Some(10), false) {
        Ok(_) => panic!("Returned a non-error"),
        Err(e) => assert_eq!(e, InvalidInputError),
    };
}

#[test]
fn test_sbm_invalid_probability_error() {
    match sbm(&[1, 2], &[vec![0., 1.], vec![0., -1.]], 2, true, Some(10), false) {
        Ok(_) => panic!("Returned a non-error"),
        Err(e) => assert_eq!(e, InvalidInputError),
    };
}

#[test]
fn test_sbm_empty_error() {
    match sbm(&[], &[vec![]], 0, true, Some(10), true) {
        Ok(_) => panic!("Returned a non-error"),
        Err(e) => assert_eq!(e, InvalidInputError),
    };
}

// random geometric

#[test]
fn test_random_geometric_empty() {
    let (n, e) = geometric(20, 0.0, 2, None, 2.0, None).unwrap();
    assert_eq!(n, 20);
    assert_eq!(e.len(), 0);
}

#[test]
fn test_random_geometric_complete() {
    let (n, e) = geometric(10, 1.42, 2, None, 2.0, None).unwrap();
    assert_eq!(n, 10);
    assert_eq!(e.len(), 45);
}

#[test]
fn random_geometric_other_norms() {
    let pos = vec![vec![0.0, 0.0], vec![0.3, 0.4], vec![1.0, 1.0]];
    let (_, e) = geometric(3, 0.7, 2, Some(pos.clone()), 1.0, None).unwrap();
    assert_eq!(e, vec![(0, 1)]);
    let (_, e) = geometric(3, 0.4, 2, Some(pos.clone()), f64::INFINITY, None).unwrap();
    assert_eq!(e, vec![(0, 1)]);
    let (_, e) = geometric(3, 0.5, 2, Some(pos), 2.0, None).unwrap();
    assert_eq!(e, vec![(0, 1)]);
}

#[test]
fn test_random_geometric_bad_num_nodes() {
    match geometric(0, 1.0, 2, None, 2.0, None) {
        Ok(_) => panic!("Returned a non-error"),
        Err(e) => assert_eq!(e, InvalidInputError),
    };
}

#[test]
fn test_random_geometric_bad_pos() {
    match geometric(3, 0.15, 3, Some(vec![vec![0.5, 0.5]]), 2.0, None) {
        Ok(_) => panic!("Returned a non-error"),
        Err(e) => assert_eq!(e, InvalidInputError),
    };
}

// preferential attachment

#[test]
fn test_barabasi_albert_graph_starting_graph() {
    let (n, e) = barabasi(500, 40, None, Some(path(40))).unwrap();
    assert_eq!(n, 500);
    assert_eq!(e.len(), 18439);
}

#[test]
fn barabasi_albert_graph_from_a_single_node() {
    let (n, e) = barabasi(2, 1, Some(0), None).unwrap();
    assert_eq!(n, 2);
    assert_eq!(e, vec![(1, 0)]);
    let (n, e) = barabasi(10, 1, Some(3), None).unwrap();
    assert_eq!(n, 10);
    assert_eq!(e.len(), 9);
}

#[test]
fn gnm_random_graph_undirected_is_not_a_multigraph() {
    for seed in 0..20 {
        let (_, e) = gnm(6, 14, Some(seed), false).unwrap();
        assert_eq!(e.len(), 14);
        for (i, &(a, b)) in e.iter().enumerate() {
            assert!(a != b);
            assert!(!e[..i].contains(&(a, b)) && !e[..i].contains(&(b, a)));
        }
    }
}

#[test]
fn gnm_random_graph_repeats_with_a_seed() {
    assert_eq!(gnm(30, 50, Some(9), false), gnm(30, 50, Some(9), false));
    assert_eq!(gnm(10, 0, Some(1), true), gnm(10, 0, Some(2), true));
    assert_eq!(gnm(10, 90, Some(1), true), gnm(10, 90, None, true));
}

#[test]
fn random_regular_graph_repeats_with_a_seed() {
    assert_eq!(regular(30, 4, Some(5)), regular(30, 4, Some(5)));
}

#[test]
fn test_barabasi_albert_graph_invalid_starting_size() {
    match barabasi(5, 40, None, None) {
        Ok(_) => panic!("Returned a non-error"),
        Err(e) => assert_eq!(e, InvalidInputError),
    }
}

#[test]
fn test_barabasi_albert_graph_invalid_equal_starting_size() {
    match barabasi(5, 5, None, None) {
        Ok(_) => panic!("Returned a non-error"),
        Err(e) => assert_eq!(e, InvalidInputError),
    }
}

#[test]
fn test_barabasi_albert_graph_invalid_starting_graph() {
    match barabasi(500, 40, None, Some(path(4))) {
        Ok(_) => panic!("Returned a non-error"),
        Err(e) => assert_eq!(e, InvalidInputError),
    }
}

// random bipartite

#[test]
fn test_random_bipartite_graph_directed() {
    let (n, e) = bipartite(10, 10, 0.5, Some(10)).unwrap();
    assert_eq!(n, 20);
    assert_eq!(e.len(), 57);
}

#[test]
fn test_random_bipartite_graph_directed_empty() {
    let (n, e) = bipartite(5, 10, 0.0, None).unwrap();
    assert_eq!(n, 15);
    assert_eq!(e.len(), 0);
}

#[test]
fn test_random_bipartite_graph_directed_complete() {
    let (n, e) = bipartite(10, 5, 1.0, None).unwrap();
    assert_eq!(n, 15);
    assert_eq!(e.len(), 10 * 5);
}

#[test]
fn test_random_bipartite_graph_undirected() {
    let (n, e) = bipartite(10, 10, 0.5, Some(10)).unwrap();
    assert_eq!(n, 20);
    assert_eq!(e.len(), 57);
}

#[test]
fn test_random_bipartite_graph_undirected_empty() {
    let (n, e) = bipartite(5, 10, 0.0, None).unwrap();
    assert_eq!(n, 15);
    assert_eq!(e.len(), 0);
}

#[test]
fn test_random_bipartite_graph_undirected_complete() {
    let (n, e) = bipartite(10, 5, 1.0, None).unwrap();
    assert_eq!(n, 15);
    assert_eq!(e.len(), 10 * 5);
}

#[test]
fn test_random_bipartite_graph_error() {
    match bipartite(0, 0, 3.0, None) {
        Ok(_) => panic!("Returned a non-error"),
        Err(e) => assert_eq!(e, InvalidInputError),
    };
}

// hyperbolic

#[test]
fn test_hyperbolic_random_graph_seeded() {
    let (n, e) = hyperbolic(
        &[
            vec![3_f64.sinh(), 0.],
            vec![-0.5_f64.sinh(), 0.],
            vec![0.5_f64.sinh(), 0.],
            vec![0., 0.],
        ],
        0.75,
        Some(10000.),
        Some(10),
        false,
    )
    .unwrap();
    assert_eq!(n, 4);
    assert_eq!(e.len(), 2);
}

#[test]
fn test_hyperbolic_random_graph_threshold() {
    let (n, e) = hyperbolic(
        &[vec![3_f64.sinh(), 0.], vec![-0.5_f64.sinh(), 0.], vec![-1_f64.sinh(), 0.]],
        1.,
        None,
        None,
        false,
    )
    .unwrap();
    assert_eq!(n, 3);
    assert_eq!(e.len(), 1);
}

#[test]
fn test_hyperbolic_random_graph_invalid_dim_error() {
    match hyperbolic(&[vec![0.]], 1., None, None, false) {
        Ok(_) => panic!("Returned a non-error"),
        Err(e) => assert_eq!(e, InvalidInputError),
    }
}

#[test]
fn test_hyperbolic_random_graph_neg_r_error() {
    match hyperbolic(&[vec![0., 0.], vec![0., 0.]], -1., None, None, false) {
        Ok(_) => panic!("Returned a non-error"),
        Err(e) => assert_eq!(e, InvalidInputError),
    }
}

#[test]
fn test_hyperbolic_random_graph_neg_beta_error() {
    match hyperbolic(&[vec![0., 0.], vec![0., 0.]], 1., Some(-1.), None, false) {
        Ok(_) => panic!("Returned a non-error"),
        Err(e) => assert_eq!(e, InvalidInputError),
    }
}

#[test]
fn test_hyperbolic_random_graph_diff_dims_error() {
    match hyperbolic(&[vec![0., 0.], vec![0., 0., 0.]], 1., None, None, false) {
        Ok(_) => panic!("Returned a non-error"),
        Err(e) => assert_eq!(e, InvalidInputError),
    }
}

#[test]
fn test_hyperbolic_random_graph_empty_error() {
    match hyperbolic(&[], 1., None, None, false) {
        Ok(_) => panic!("Returned a non-error"),
        Err(e) => assert_eq!(e, InvalidInputError),
    }
}

#[test]
fn test_hyperbolic_random_graph_directed_error() {
    match hyperbolic(&[vec![0., 0.], vec![0., 0.]], 1., None, None, true) {
        Ok(_) => panic!("Returned a non-error"),
        Err(e) => assert_eq!(e, InvalidInputError),
    }
}
