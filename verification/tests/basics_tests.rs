use alkaidsd::delta::Delta;
use alkaidsd::instance::{Instance, Node};
use alkaidsd::random::Random;
use alkaidsd::route_context::RouteContext;
use alkaidsd::solution::AlkaidSolution;

#[test]
fn random_draws_stay_in_range() {
    let mut random = Random::new(42);
    for _ in 0..1000 {
        let v = random.next_int(-3, 4);
        assert!((-3..=4).contains(&v));
    }
    assert_eq!(random.next_int(7, 7), 7);
}

#[test]
fn random_is_reproducible() {
    let mut a = Random::new(123);
    let mut b = Random::new(123);
    for _ in 0..100 {
        assert_eq!(a.next_int(0, 1000), b.next_int(0, 1000));
    }
}

#[test]
fn delta_keeps_the_minimum() {
    let mut random = Random::new(1);
    let mut delta = Delta::default();
    assert_eq!((delta.value, delta.counter), (0, 0));
    assert!(!delta.update(5, &mut random));
    assert_eq!((delta.value, delta.counter), (0, 0));
    assert!(delta.update(-4, &mut random));
    assert_eq!((delta.value, delta.counter), (-4, 1));
    delta.update(-4, &mut random);
    assert_eq!((delta.value, delta.counter), (-4, 2));
    assert!(!delta.update(-1, &mut random));
    assert_eq!((delta.value, delta.counter), (-4, 2));
}

#[test]
fn delta_first_tie_is_always_kept() {
    let mut random = Random::new(77);
    let mut delta = Delta::default();
    // The first value equal to the initial zero is counted once and kept.
    assert!(delta.update(0, &mut random));
    assert_eq!(delta.counter, 1);
}

#[test]
fn delta_merges_other_searches() {
    let mut random = Random::new(3);
    let mut delta = Delta::new(10, 2);
    assert!(delta.update_from(&Delta::new(4, 3), &mut random));
    assert_eq!((delta.value, delta.counter), (4, 3));
    assert!(!delta.update_from(&Delta::new(6, 1), &mut random));
    assert_eq!((delta.value, delta.counter), (4, 3));
    delta.update_from(&Delta::new(4, 2), &mut random);
    assert_eq!((delta.value, delta.counter), (4, 5));
}

fn two_customer_instance() -> Instance {
    Instance {
        num_customers: 3,
        capacity: 10,
        demands: vec![0, 3, 4],
        distance_matrix: vec![vec![0, 5, 7], vec![5, 0, 3], vec![7, 3, 0]],
    }
}

#[test]
fn solution_links_and_inserts() {
    let mut solution = AlkaidSolution::new();
    assert_eq!(solution.num_nodes(), 1);
    let a = solution.insert(1, 3, 0, 0);
    assert_eq!(a, 1);
    assert_eq!((solution.successor(0), solution.predecessor(0)), (1, 1));
    let b = solution.insert(2, 4, a, 0);
    assert_eq!(b, 2);
    assert_eq!(solution.successor(a), b);
    assert_eq!(solution.predecessor(b), a);
    assert_eq!(solution.successor(b), 0);
    assert_eq!(solution.node_indices(), vec![1, 2]);
    solution.set_load(a, 2);
    assert_eq!(solution.load(a), 2);
    solution.link(b, a);
    assert_eq!(solution.successor(b), a);
    assert_eq!(solution.predecessor(a), b);
    solution.set_successor(0, b);
    assert_eq!(solution.successor(0), b);
}

#[test]
fn objective_counts_every_leg() {
    let instance = two_customer_instance();
    let mut solution = AlkaidSolution::new();
    let a = solution.insert(1, 3, 0, 0);
    solution.insert(2, 4, a, 0);
    // 0 -> 1 -> 2 -> 0
    assert_eq!(solution.calc_objective(&instance), 5 + 3 + 7);
}

#[test]
fn route_summaries_follow_the_links() {
    let mut solution = AlkaidSolution::new();
    let mut context = RouteContext::new();
    let a = solution.insert(1, 3, 0, 0);
    context.add_route(a, a, 3);
    assert_eq!(context.num_routes(), 1);
    assert_eq!((context.head(0), context.tail(0), context.load(0)), (a, a, 3));
    let b: Node = context.append_node(&mut solution, 0, 2, 4);
    assert_eq!(context.load(0), 7);
    context.add_load(0, 1);
    assert_eq!(context.load(0), 8);
    context.update_route(&solution, 0);
    assert_eq!((context.head(0), context.tail(0), context.load(0)), (a, b, 7));
    context.set_head(0, b);
    assert_eq!(context.head(0), b);
}

/// Appending nodes extends a route at its tail and adds to its load.
#[test]
fn append_node_extends_a_route() {
    let mut solution = AlkaidSolution::new();
    let mut context = RouteContext::new();
    let first = solution.insert(2, 5, 0, 0);
    context.add_route(first, first, 5);
    let second = context.append_node(&mut solution, 0, 3, 7);
    let third = context.append_node(&mut solution, 0, 1, 4);
    assert_eq!((second, third), (2, 3));
    assert_eq!(context.head(0), first);
    assert_eq!(context.tail(0), third);
    assert_eq!(context.load(0), 16);
    assert_eq!(solution.successor(first), second);
    assert_eq!(solution.successor(second), third);
    assert_eq!(solution.successor(third), 0);
    assert_eq!(solution.predecessor(third), second);
}
