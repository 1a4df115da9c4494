use alkaidsd::cache::{Cache, CacheMap};
use alkaidsd::route_context::RouteContext;
use alkaidsd::solution::AlkaidSolution;
use alkaidsd::Node;

#[derive(Default)]
struct TestCache {
    reset_count: usize,
}

impl Cache for TestCache {
    fn reset(&mut self, _: &AlkaidSolution, _: &RouteContext) {
        self.reset_count += 1;
    }
    fn add_route(&mut self, _: Node) {}
    fn remove_route(&mut self, _: Node) {}
    fn move_route(&mut self, _: Node, _: Node) {}
    fn save(&mut self, _: &AlkaidSolution, _: &RouteContext) {}
}

#[test]
fn test_cache_map() {
    let solution = AlkaidSolution::new();
    let context = RouteContext::new();
    let mut cache_map = CacheMap::new();

    // First access creates and resets
    let cache: &mut TestCache = cache_map.get(&solution, &context);
    assert_eq!(cache.reset_count, 1);

    // Second access returns same cache
    let cache: &mut TestCache = cache_map.get(&solution, &context);
    assert_eq!(cache.reset_count, 1);
}
