use alkaidsd::construction::construct;
use alkaidsd::instance::{Instance, Node};
use alkaidsd::random::Random;
use alkaidsd::utils::calc_fleet_lower_bound;
use alkaidsd::variant_ops::SdvrpOps;

fn small_instance() -> Instance {
    Instance {
        num_customers: 5,
        capacity: 100,
        demands: vec![0, 50, 60, 40, 30],
        distance_matrix: vec![
            vec![0, 10, 20, 30, 40],
            vec![10, 0, 15, 25, 35],
            vec![20, 15, 0, 10, 20],
            vec![30, 25, 10, 0, 10],
            vec![40, 35, 20, 10, 0],
        ],
    }
}

#[test]
fn test_construct() {
    let instance = Instance {
        num_customers: 5,
        capacity: 100,
        demands: vec![0, 50, 60, 40, 30],
        distance_matrix: vec![
            vec![0, 10, 20, 30, 40],
            vec![10, 0, 15, 25, 35],
            vec![20, 15, 0, 10, 20],
            vec![30, 25, 10, 0, 10],
            vec![40, 35, 20, 10, 0],
        ],
    };

    let mut random = Random::new(42);
    let solution = construct(&instance, &mut random);

    assert!(!solution.node_indices().is_empty());
    let obj = solution.calc_objective(&instance);
    assert!(obj > 0);
}

/// Every customer receives exactly its demand, and every node carries a
/// load within capacity.
#[test]
fn construct_delivers_each_demand_exactly() {
    let instance = small_instance();
    for seed in 0..20u64 {
        let mut random = Random::new(seed);
        let solution = construct(&instance, &mut random);
        let mut delivered = vec![0i64; 5];
        for v in solution.node_indices() {
            let load = solution.load(v);
            assert!(load > 0 && load <= instance.capacity);
            delivered[solution.customer(v) as usize] += load as i64;
        }
        assert_eq!(delivered, vec![0, 50, 60, 40, 30]);
    }
}

/// Demands larger than a vehicle are split into pieces of the capacity.
#[test]
fn construct_splits_large_demands() {
    let mut instance = small_instance();
    instance.demands = vec![0, 250, 0, 0, 30];
    let mut random = Random::new(7);
    let solution = construct(&instance, &mut random);
    let mut loads: Vec<i32> = solution
        .node_indices()
        .into_iter()
        .filter(|&v| solution.customer(v) == 1)
        .map(|v| solution.load(v))
        .collect();
    loads.sort();
    assert_eq!(loads, vec![50, 100, 100]);
    assert_eq!(solution.node_indices().len(), 4);
}

/// Every node is reached from the depot by exactly one route: following the
/// successors of the nodes that follow the depot visits each node once.
#[test]
fn construct_links_every_node_into_a_route() {
    let instance = small_instance();
    let mut random = Random::new(3);
    let solution = construct(&instance, &mut random);
    let n = solution.num_nodes();
    let mut seen = vec![0; n];
    for v in solution.node_indices() {
        if solution.predecessor(v) == 0 {
            let mut node: Node = v;
            while node != 0 {
                seen[node as usize] += 1;
                node = solution.successor(node);
            }
        }
    }
    for v in 1..n {
        assert_eq!(seen[v], 1);
    }
}

/// No demand gives no nodes and a zero objective.
#[test]
fn construct_without_demand_is_empty() {
    let mut instance = small_instance();
    instance.demands = vec![0, 0, 0, 0, 0];
    let mut random = Random::new(1);
    let solution = construct(&instance, &mut random);
    assert!(solution.node_indices().is_empty());
    assert_eq!(solution.calc_objective(&instance), 0);
}

/// 180 units with vehicles of 100 need at least 2 vehicles.
#[test]
fn fleet_lower_bound_rounds_up() {
    let instance = small_instance();
    assert_eq!(calc_fleet_lower_bound(&instance), 2);
    let ops = SdvrpOps;
    assert_eq!(ops.fleet_lower_bound(&instance), 2);
    let mut exact = small_instance();
    exact.demands = vec![0, 50, 50, 50, 50];
    assert_eq!(calc_fleet_lower_bound(&exact), 2);
    let mut none = small_instance();
    none.demands = vec![0, 0, 0, 0, 0];
    assert_eq!(calc_fleet_lower_bound(&none), 0);
}

/// The same seed gives the same solution.
#[test]
fn construct_is_deterministic_for_a_seed() {
    let instance = small_instance();
    let ops = SdvrpOps;
    let a = ops.construct(&instance, &mut Random::new(11));
    let b = ops.construct(&instance, &mut Random::new(11));
    assert_eq!(ops.calc_objective(&instance, &a), ops.calc_objective(&instance, &b));
    for v in a.node_indices() {
        assert_eq!(a.successor(v), b.successor(v));
        assert_eq!(a.customer(v), b.customer(v));
        assert_eq!(a.load(v), b.load(v));
    }
}

/// An instance without customers yields an empty solution.
#[test]
fn construct_without_customers_is_empty() {
    let instance = Instance { num_customers: 0, capacity: 10, demands: vec![], distance_matrix: vec![] };
    let mut random = Random::new(7);
    let solution = construct(&instance, &mut random);
    assert!(solution.node_indices().is_empty());
}

/// Demands beyond the customers are not read; pieces are full loads and
/// one remainder.
#[test]
fn construct_splits_into_full_pieces_and_a_remainder() {
    let instance = Instance {
        num_customers: 3,
        capacity: 40,
        demands: vec![0, 100, 30, 999],
        distance_matrix: vec![vec![0, 5, 7], vec![5, 0, 3], vec![7, 3, 0]],
    };
    let mut random = Random::new(11);
    let solution = construct(&instance, &mut random);
    let mut pieces: Vec<(Node, i32)> = solution
        .node_indices()
        .into_iter()
        .map(|v| (solution.customer(v), solution.load(v)))
        .collect();
    pieces.sort();
    assert_eq!(pieces, vec![(1, 20), (1, 40), (1, 40), (2, 30)]);
}
