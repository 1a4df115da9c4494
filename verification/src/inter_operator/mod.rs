//! Inter-route improvement operators and the insertion cost they share.
use vstd::prelude::*;

pub mod relocate;
pub mod swap_star;
pub mod sd_swap_one_one;
pub mod sd_swap_star;

verus! {

use crate::Node;
use crate::cache::{Cache, CacheMap};
use crate::instance::Instance;
use crate::cost::{detour, total_cost};
use crate::model::{SolutionModel, routes_valid, gap_pred, gap_succ};
use crate::random::Random;
use crate::route_context::RouteContext;
use crate::solution::AlkaidSolution;

/// Every node of the pool serves a customer of the instance.
pub open spec fn customers_fit(instance: &Instance, sol: SolutionModel) -> bool {
    forall|v: int| 0 <= v < sol.cust.len() ==> #[trigger] sol.cust[v] < instance.num_customers
}

/// The extra distance of visiting customer `c` at insertion position `j` of `route`.
pub open spec fn gap_cost(instance: &Instance, sol: SolutionModel, route: Seq<Node>, j: int, c: Node) -> int {
    detour(instance, sol.cust[gap_pred(route, j) as int], c, sol.cust[gap_succ(route, j) as int])
}

/// The extra distance of visiting the customer of `node_index` between the
/// customers of `predecessor` and `successor`.
pub fn calc_delta(
    instance: &Instance,
    solution: &AlkaidSolution,
    node_index: Node,
    predecessor: Node,
    successor: Node,
) -> (d: i64)
    requires
        instance.wf(),
        solution@.wf(),
        customers_fit(instance, solution@),
        node_index < solution@.len(),
        predecessor < solution@.len(),
        successor < solution@.len(),
    ensures
        d == detour(
            instance,
            solution@.cust[predecessor as int],
            solution@.cust[node_index as int],
            solution@.cust[successor as int],
        ),
{
    let customer = solution.customer(node_index);
    calc_customer_delta(instance, solution, customer, predecessor, successor)
}

/// The extra distance of visiting `customer` between the customers of
/// `predecessor` and `successor`.
pub fn calc_customer_delta(
    instance: &Instance,
    solution: &AlkaidSolution,
    customer: Node,
    predecessor: Node,
    successor: Node,
) -> (d: i64)
    requires
        instance.wf(),
        solution@.wf(),
        customers_fit(instance, solution@),
        customer < instance.num_customers,
        predecessor < solution@.len(),
        successor < solution@.len(),
    ensures
        d == detour(instance, solution@.cust[predecessor as int], customer, solution@.cust[successor as int]),
{
    let pre = solution.customer(predecessor);
    let suc = solution.customer(successor);
    instance.distance(pre, customer) as i64 + instance.distance(customer, suc) as i64 - instance.distance(pre, suc) as i64
}

/// `(a, b, k, l)` comes before `(x, y, i, j)` in the order the search
/// visits them.
pub open spec fn visited_before4(a: int, b: int, k: int, l: int, x: int, y: int, i: int, j: int) -> bool {
    a < x || (a == x && b < y) || (a == x && b == y && k < i) || (a == x && b == y && k == i && l < j)
}

/// An operator that moves customers between routes when that shortens the
/// solution, and reports the routes it changed.
pub trait InterOperator {
    /// Applies the best move found, if it improves the solution, and returns
    /// the indices of the routes it changed (none when nothing changed). The
    /// routes stay valid, their nodes keep serving customers of the instance,
    /// at most one node is added, and an applied move shortens the routes.
    fn apply<C: Cache>(
        &self,
        instance: &Instance,
        solution: &mut AlkaidSolution,
        context: &mut RouteContext,
        random: &mut Random,
        cache_map: &mut CacheMap<C>,
    ) -> (routes: Vec<Node>)
        requires
            instance.wf(),
            customers_fit(instance, old(solution)@),
            routes_valid(old(solution)@, old(context)@),
            old(solution)@.len() < 0x7fff_ffff,
        ensures
            routes@.len() == 0 ==> final(solution)@ == old(solution)@ && final(context)@ == old(context)@,
            routes_valid(final(solution)@, final(context)@),
            customers_fit(instance, final(solution)@),
            final(solution)@.len() <= old(solution)@.len() + 1,
            routes@.len() != 0 ==> total_cost(instance, final(solution)@, final(context)@.routes) < total_cost(
                instance,
                old(solution)@,
                old(context)@.routes,
            ),
    ;
}

} // verus!
