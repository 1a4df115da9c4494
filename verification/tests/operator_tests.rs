use alkaidsd::cache::{Cache, CacheMap};
use alkaidsd::instance::{Instance, Node};
use alkaidsd::inter_operator::relocate::Relocate;
use alkaidsd::inter_operator::sd_swap_one_one::SdSwapOneOne;
use alkaidsd::inter_operator::sd_swap_star::SdSwapStar;
use alkaidsd::inter_operator::swap_star::SwapStar;
use alkaidsd::inter_operator::InterOperator;
use alkaidsd::random::Random;
use alkaidsd::route_context::RouteContext;
use alkaidsd::solution::AlkaidSolution;

#[derive(Default)]
struct NoCache;

impl Cache for NoCache {
    fn reset(&mut self, _: &AlkaidSolution, _: &RouteContext) {}
    fn add_route(&mut self, _: Node) {}
    fn remove_route(&mut self, _: Node) {}
    fn move_route(&mut self, _: Node, _: Node) {}
    fn save(&mut self, _: &AlkaidSolution, _: &RouteContext) {}
}

/// Customers on a line: customer `i` at `10 * i`.
fn line_instance(n: usize, capacity: i32) -> Instance {
    let mut distance_matrix = Vec::new();
    for i in 0..n {
        let mut row = Vec::new();
        for j in 0..n {
            row.push(10 * (i as i32 - j as i32).abs());
        }
        distance_matrix.push(row);
    }
    Instance { num_customers: n as Node, capacity, demands: vec![0; n], distance_matrix }
}

/// Builds routes from `(customer, load)` lists.
fn build(routes: &[&[(Node, i32)]]) -> (AlkaidSolution, RouteContext) {
    let mut solution = AlkaidSolution::new();
    let mut context = RouteContext::new();
    for (r, route) in routes.iter().enumerate() {
        let first = solution.insert(route[0].0, route[0].1, 0, 0);
        context.add_route(first, first, route[0].1);
        for &(customer, load) in &route[1..] {
            context.append_node(&mut solution, r as Node, customer, load);
        }
    }
    (solution, context)
}

/// The customers visited by `route`, in order.
fn customers(solution: &AlkaidSolution, context: &RouteContext, route: Node) -> Vec<Node> {
    let mut out = Vec::new();
    let mut node = context.head(route);
    while node != 0 {
        out.push(solution.customer(node));
        node = solution.successor(node);
    }
    out
}

/// The load delivered to each customer.
fn deliveries(solution: &AlkaidSolution, n: usize) -> Vec<i64> {
    let mut out = vec![0i64; n];
    for v in solution.node_indices() {
        out[solution.customer(v) as usize] += solution.load(v) as i64;
    }
    out
}

#[test]
fn relocate_moves_a_node_to_its_cheapest_place() {
    let instance = line_instance(4, 100);
    let (mut solution, mut context) = build(&[&[(1, 10), (3, 10)], &[(2, 10)]]);
    assert_eq!(solution.calc_objective(&instance), 100);
    let mut cache_map: CacheMap<NoCache> = CacheMap::new();
    let mut random = Random::new(5);
    let routes = Relocate.apply(&instance, &mut solution, &mut context, &mut random, &mut cache_map);
    assert_eq!(routes, vec![1, 0]);
    assert_eq!(customers(&solution, &context, 0), vec![1, 2, 3]);
    assert_eq!(customers(&solution, &context, 1), Vec::<Node>::new());
    assert_eq!(solution.calc_objective(&instance), 60);
    context.update_route(&solution, 0);
    context.update_route(&solution, 1);
    assert_eq!(context.load(0), 30);
    assert_eq!(context.load(1), 0);
    assert_eq!(solution.customer(context.tail(0)), 3);
    // No further improving relocation.
    let again = Relocate.apply(&instance, &mut solution, &mut context, &mut random, &mut cache_map);
    assert!(again.is_empty());
    assert_eq!(solution.calc_objective(&instance), 60);
}

#[test]
fn relocate_respects_capacity() {
    let instance = line_instance(4, 20);
    let (mut solution, mut context) = build(&[&[(1, 10), (3, 10)], &[(2, 15)]]);
    let mut cache_map: CacheMap<NoCache> = CacheMap::new();
    let mut random = Random::new(5);
    let routes = Relocate.apply(&instance, &mut solution, &mut context, &mut random, &mut cache_map);
    // Node 2 (load 15) does not fit in route 0 (load 20); moving 3 to route 1
    // (load 25) does not fit either; moving 1 or 3 alone does not pay off.
    assert!(routes.is_empty());
    assert_eq!(customers(&solution, &context, 0), vec![1, 3]);
    assert_eq!(customers(&solution, &context, 1), vec![2]);
    assert_eq!(solution.calc_objective(&instance), 100);
}

#[test]
fn swap_star_exchanges_two_nodes() {
    let instance = line_instance(5, 100);
    let (mut solution, mut context) = build(&[&[(1, 10), (4, 10)], &[(3, 10), (2, 10)]]);
    assert_eq!(solution.calc_objective(&instance), 140);
    let mut cache_map: CacheMap<NoCache> = CacheMap::new();
    let mut random = Random::new(9);
    let routes = SwapStar.apply(&instance, &mut solution, &mut context, &mut random, &mut cache_map);
    assert_eq!(routes, vec![0, 1]);
    assert_eq!(solution.calc_objective(&instance), 120);
    let mut all = customers(&solution, &context, 0);
    all.extend(customers(&solution, &context, 1));
    all.sort();
    assert_eq!(all, vec![1, 2, 3, 4]);
    assert_eq!(deliveries(&solution, 5), vec![0, 10, 10, 10, 10]);
}

/// Customer 6 leaves route 0 for the front of route 1 (not customer 4's
/// former place), and customer 4 goes to the front of route 0: 60 becomes 46.
#[test]
fn swap_star_moves_each_node_to_its_cheapest_place() {
    let instance = Instance {
        num_customers: 7,
        capacity: 100,
        demands: vec![0, 10, 10, 10, 10, 10, 10],
        distance_matrix: vec![
            vec![0, 6, 8, 14, 4, 7, 9],
            vec![6, 0, 2, 10, 4, 1, 12],
            vec![8, 2, 0, 4, 7, 5, 3],
            vec![14, 10, 4, 0, 15, 14, 13],
            vec![4, 4, 7, 15, 0, 7, 3],
            vec![7, 1, 5, 14, 7, 0, 13],
            vec![9, 12, 3, 13, 3, 13, 0],
        ],
    };
    let (mut solution, mut context) = build(&[&[(1, 10), (5, 10), (6, 10)], &[(2, 10), (3, 10), (4, 10)]]);
    assert_eq!(solution.calc_objective(&instance), 60);
    let mut cache_map: CacheMap<NoCache> = CacheMap::new();
    let mut random = Random::new(3);
    let routes = SwapStar.apply(&instance, &mut solution, &mut context, &mut random, &mut cache_map);
    assert_eq!(routes, vec![0, 1]);
    assert_eq!(customers(&solution, &context, 0), vec![4, 1, 5]);
    assert_eq!(customers(&solution, &context, 1), vec![6, 2, 3]);
    assert_eq!(solution.calc_objective(&instance), 46);
}

#[test]
fn swap_star_respects_capacity() {
    let instance = line_instance(5, 20);
    let (mut solution, mut context) = build(&[&[(1, 5), (4, 15)], &[(3, 15), (2, 5)]]);
    let mut cache_map: CacheMap<NoCache> = CacheMap::new();
    let mut random = Random::new(9);
    let before = solution.calc_objective(&instance);
    let routes = SwapStar.apply(&instance, &mut solution, &mut context, &mut random, &mut cache_map);
    if !routes.is_empty() {
        context.update_route(&solution, routes[0]);
        context.update_route(&solution, routes[1]);
        assert!(context.load(0) <= 20 && context.load(1) <= 20);
        assert!(solution.calc_objective(&instance) < before);
    }
}

/// A four-customer instance where a split swap pays: customer 1 lies close
/// to both 2 and 3, which are far apart.
fn split_instance() -> Instance {
    Instance {
        num_customers: 4,
        capacity: 100,
        demands: vec![0, 50, 20, 10],
        distance_matrix: vec![
            vec![0, 10, 10, 10],
            vec![10, 0, 1, 1],
            vec![10, 1, 0, 20],
            vec![10, 1, 20, 0],
        ],
    }
}

#[test]
fn sd_swap_one_one_splits_the_larger_load() {
    let instance = split_instance();
    let (mut solution, mut context) = build(&[&[(1, 50)], &[(2, 20), (3, 10)]]);
    assert_eq!(solution.calc_objective(&instance), 60);
    let mut cache_map: CacheMap<NoCache> = CacheMap::new();
    let mut random = Random::new(2);
    let routes = SdSwapOneOne.apply(&instance, &mut solution, &mut context, &mut random, &mut cache_map);
    assert_eq!(routes, vec![0, 1]);
    assert_eq!(solution.calc_objective(&instance), 42);
    assert_eq!(solution.node_indices().len(), 4);
    assert_eq!(deliveries(&solution, 4), vec![0, 50, 20, 10]);
    // Every route keeps its load.
    context.update_route(&solution, 0);
    context.update_route(&solution, 1);
    assert_eq!(context.load(0), 50);
    assert_eq!(context.load(1), 30);
    // Both routes still visit customer 1.
    assert!(customers(&solution, &context, 0).contains(&1));
    assert!(customers(&solution, &context, 1).contains(&1));
}

#[test]
fn sd_swap_one_one_ignores_equal_loads() {
    let instance = split_instance();
    let (mut solution, mut context) = build(&[&[(1, 10)], &[(2, 10), (3, 10)]]);
    let mut cache_map: CacheMap<NoCache> = CacheMap::new();
    let mut random = Random::new(2);
    let routes = SdSwapOneOne.apply(&instance, &mut solution, &mut context, &mut random, &mut cache_map);
    assert!(routes.is_empty());
    assert_eq!(solution.node_indices().len(), 3);
    assert_eq!(solution.calc_objective(&instance), 60);
}

#[test]
fn sd_swap_star_ignores_equal_loads() {
    let instance = split_instance();
    let (mut solution, mut context) = build(&[&[(1, 10)], &[(2, 10), (3, 10)]]);
    let mut cache_map: CacheMap<NoCache> = CacheMap::new();
    let mut random = Random::new(2);
    let routes = SdSwapStar.apply(&instance, &mut solution, &mut context, &mut random, &mut cache_map);
    assert!(routes.is_empty());
    assert_eq!(solution.node_indices().len(), 3);
}

#[test]
fn sd_swap_star_splits_the_larger_load() {
    let instance = split_instance();
    let (mut solution, mut context) = build(&[&[(1, 50)], &[(2, 20), (3, 10)]]);
    assert_eq!(solution.calc_objective(&instance), 60);
    let mut cache_map: CacheMap<NoCache> = CacheMap::new();
    let mut random = Random::new(2);
    let routes = SdSwapStar.apply(&instance, &mut solution, &mut context, &mut random, &mut cache_map);
    // Every pair with either place of the smaller node in route 0 shortens
    // the solution by 18.
    assert_eq!(routes, vec![0, 1]);
    assert_eq!(solution.calc_objective(&instance), 42);
    assert_eq!(solution.node_indices().len(), 4);
    assert_eq!(deliveries(&solution, 4), vec![0, 50, 20, 10]);
    context.update_route(&solution, 0);
    context.update_route(&solution, 1);
    assert_eq!(context.load(0), 50);
    assert_eq!(context.load(1), 30);
    assert!(customers(&solution, &context, 0).contains(&1));
    assert!(customers(&solution, &context, 1).contains(&1));
}

/// The best split swap moves customer 3 (load 10) between customers 1 and
/// 4 and serves 10 of customer 1's load in its place: 45 becomes 39.
#[test]
fn sd_swap_star_moves_the_smaller_node_to_its_cheapest_place() {
    let instance = Instance {
        num_customers: 5,
        capacity: 100,
        demands: vec![0, 50, 20, 10, 10],
        distance_matrix: vec![
            vec![0, 4, 10, 9, 3],
            vec![4, 0, 6, 10, 8],
            vec![10, 6, 0, 11, 10],
            vec![9, 10, 11, 0, 2],
            vec![3, 8, 10, 2, 0],
        ],
    };
    let (mut solution, mut context) = build(&[&[(1, 50), (4, 10)], &[(2, 20), (3, 10)]]);
    assert_eq!(solution.calc_objective(&instance), 45);
    let mut cache_map: CacheMap<NoCache> = CacheMap::new();
    let mut random = Random::new(2);
    let routes = SdSwapStar.apply(&instance, &mut solution, &mut context, &mut random, &mut cache_map);
    assert_eq!(routes, vec![0, 1]);
    assert_eq!(solution.calc_objective(&instance), 39);
    assert_eq!(customers(&solution, &context, 0), vec![1, 3, 4]);
    assert_eq!(customers(&solution, &context, 1), vec![2, 1]);
    assert_eq!(solution.load(1), 40);
    assert_eq!(solution.load(5), 10);
    assert_eq!(deliveries(&solution, 5), vec![0, 50, 20, 10, 10]);
}
