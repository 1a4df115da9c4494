//! The travelled distance of routes, and how it changes when a customer
//! visit is inserted, removed or replaced.
use vstd::prelude::*;

verus! {

use crate::Node;
use crate::instance::Instance;
use crate::model::{
    SolutionModel, ContextModel, customers_of, routes_valid, routes_cover, routes_disjoint, routed, valid_pos,
    route_linked, next_in, prev_in, lemma_route_facts, lemma_linked_at, lemma_disjoint_at, lemma_disjoint_from_origin,
};
use crate::solution::objective_sum;

/// The distance from customer `from` through the customers `cs` in order
/// and back to the depot.
pub open spec fn walk(instance: &Instance, from: Node, cs: Seq<Node>) -> int
    decreases cs.len(),
{
    if cs.len() == 0 {
        instance.dist(from as int, 0)
    } else {
        instance.dist(from as int, cs[0] as int) + walk(instance, cs[0], cs.drop_first())
    }
}

/// The distance travelled by a route: from the depot through its customers
/// and back (for an empty route, from the depot to itself).
pub open spec fn route_cost(instance: &Instance, sol: SolutionModel, route: Seq<Node>) -> int {
    walk(instance, 0, customers_of(sol, route))
}

/// The distance travelled by all routes.
pub open spec fn total_cost(instance: &Instance, sol: SolutionModel, routes: Seq<Seq<Node>>) -> int
    decreases routes.len(),
{
    if routes.len() == 0 {
        0
    } else {
        total_cost(instance, sol, routes.drop_last()) + route_cost(instance, sol, routes.last())
    }
}

/// The extra distance of visiting `c` between `a` and `b` instead of going
/// from `a` to `b` directly.
pub open spec fn detour(instance: &Instance, a: Node, c: Node, b: Node) -> int {
    instance.dist(a as int, c as int) + instance.dist(c as int, b as int) - instance.dist(a as int, b as int)
}

/// Inserting a visit of `c` at position `j` adds the detour between its
/// neighbours.
pub proof fn lemma_walk_insert(instance: &Instance, from: Node, cs: Seq<Node>, j: int, c: Node)
    requires
        0 <= j <= cs.len(),
    ensures
        walk(instance, from, cs.insert(j, c)) == walk(instance, from, cs) + detour(
            instance,
            if j == 0 { from } else { cs[j - 1] },
            c,
            if j == cs.len() { 0 } else { cs[j] },
        ),
    decreases j,
{
    let ins = cs.insert(j, c);
    if j == 0 {
        assert(ins[0] == c);
        assert(ins.drop_first() =~= cs);
        assert(walk(instance, from, ins) == instance.dist(from as int, c as int) + walk(instance, c, cs));
        if cs.len() > 0 {
            assert(walk(instance, c, cs) == instance.dist(c as int, cs[0] as int) + walk(instance, cs[0], cs.drop_first()));
        }
    } else {
        let rest = cs.drop_first();
        assert(ins[0] == cs[0]);
        assert(ins.drop_first() =~= rest.insert(j - 1, c));
        lemma_walk_insert(instance, cs[0], rest, j - 1, c);
        assert(walk(instance, from, ins) == instance.dist(from as int, cs[0] as int) + walk(instance, cs[0], rest.insert(j - 1, c)));
        assert(walk(instance, from, cs) == instance.dist(from as int, cs[0] as int) + walk(instance, cs[0], rest));
        if j - 1 > 0 {
            assert(rest[j - 2] == cs[j - 1]);
        }
        if j - 1 < rest.len() {
            assert(rest[j - 1] == cs[j]);
        }
    }
}

/// Replacing the routes' entry `r` changes the total by the difference of
/// the two route costs.
pub proof fn lemma_total_cost_update(instance: &Instance, sol: SolutionModel, routes: Seq<Seq<Node>>, r: int, route: Seq<Node>)
    requires
        0 <= r < routes.len(),
    ensures
        total_cost(instance, sol, routes.update(r, route)) == total_cost(instance, sol, routes) - route_cost(
            instance,
            sol,
            routes[r],
        ) + route_cost(instance, sol, route),
    decreases routes.len(),
{
    let up = routes.update(r, route);
    if r == routes.len() - 1 {
        assert(up.drop_last() =~= routes.drop_last());
        assert(up.last() == route);
    } else {
        assert(up.drop_last() =~= routes.drop_last().update(r, route));
        assert(up.last() == routes.last());
        lemma_total_cost_update(instance, sol, routes.drop_last(), r, route);
    }
}

/// The customers of a route with a node inserted.
pub proof fn lemma_customers_insert(sol: SolutionModel, route: Seq<Node>, j: int, v: Node)
    requires
        0 <= j <= route.len(),
    ensures
        customers_of(sol, route.insert(j, v)) =~= customers_of(sol, route).insert(j, sol.cust[v as int]),
{
}

/// The customers of a route with a node removed.
pub proof fn lemma_customers_remove(sol: SolutionModel, route: Seq<Node>, i: int)
    requires
        0 <= i < route.len(),
    ensures
        customers_of(sol, route.remove(i)) =~= customers_of(sol, route).remove(i),
{
}

/// The cost of a route with the node at position `i` removed.
pub proof fn lemma_route_cost_remove(instance: &Instance, sol: SolutionModel, route: Seq<Node>, i: int)
    requires
        0 <= i < route.len(),
    ensures
        route_cost(instance, sol, route.remove(i)) == route_cost(instance, sol, route) - detour(
            instance,
            if i == 0 { 0 } else { sol.cust[route[i - 1] as int] },
            sol.cust[route[i] as int],
            if i + 1 == route.len() { 0 } else { sol.cust[route[i + 1] as int] },
        ),
{
    let cs = customers_of(sol, route);
    lemma_customers_remove(sol, route, i);
    let cr = cs.remove(i);
    assert(cr.insert(i, cs[i]) =~= cs);
    lemma_walk_insert(instance, 0, cr, i, cs[i]);
    if i > 0 {
        assert(cr[i - 1] == cs[i - 1]);
    }
    if i < cr.len() {
        assert(cr[i] == cs[i + 1]);
    }
}

/// The cost of a route with node `v` inserted at position `j`.
pub proof fn lemma_route_cost_insert(instance: &Instance, sol: SolutionModel, route: Seq<Node>, j: int, v: Node)
    requires
        0 <= j <= route.len(),
    ensures
        route_cost(instance, sol, route.insert(j, v)) == route_cost(instance, sol, route) + detour(
            instance,
            if j == 0 { 0 } else { sol.cust[route[j - 1] as int] },
            sol.cust[v as int],
            if j == route.len() { 0 } else { sol.cust[route[j] as int] },
        ),
{
    let cs = customers_of(sol, route);
    lemma_customers_insert(sol, route, j, v);
    lemma_walk_insert(instance, 0, cs, j, sol.cust[v as int]);
}

/// Costs depend on the pool only through the customers of its nodes.
pub proof fn lemma_total_cost_same_customers(instance: &Instance, sol: SolutionModel, sol2: SolutionModel, routes: Seq<Seq<Node>>)
    requires
        sol2.cust == sol.cust,
    ensures
        total_cost(instance, sol2, routes) == total_cost(instance, sol, routes),
    decreases routes.len(),
{
    if routes.len() > 0 {
        lemma_total_cost_same_customers(instance, sol, sol2, routes.drop_last());
        assert(customers_of(sol2, routes.last()) =~= customers_of(sol, routes.last()));
    }
}

/// Costs of routes over nodes of a pool do not change when the pool grows.
pub proof fn lemma_total_cost_extended(instance: &Instance, sol: SolutionModel, sol2: SolutionModel, routes: Seq<Seq<Node>>)
    requires
        forall|r: int, q: int|
            0 <= r < routes.len() && 0 <= q < routes[r].len() ==> #[trigger] routes[r][q] < sol.cust.len()
                && sol2.cust[routes[r][q] as int] == sol.cust[routes[r][q] as int],
    ensures
        total_cost(instance, sol2, routes) == total_cost(instance, sol, routes),
    decreases routes.len(),
{
    if routes.len() > 0 {
        let rest = routes.drop_last();
        assert forall|r: int, q: int| 0 <= r < rest.len() && 0 <= q < rest[r].len() implies #[trigger] rest[r][q] < sol.cust.len()
            && sol2.cust[rest[r][q] as int] == sol.cust[rest[r][q] as int] by {
            assert(rest[r] == routes[r]);
        }
        lemma_total_cost_extended(instance, sol, sol2, rest);
        let last = routes.last();
        assert forall|q: int| 0 <= q < last.len() implies customers_of(sol2, last)[q] == customers_of(sol, last)[q] by {
            assert(last == routes[routes.len() - 1]);
            assert(last[q] < sol.cust.len());
        }
        assert(customers_of(sol2, last) =~= customers_of(sol, last));
    }
}

/// The cost of one route over nodes of a pool does not change when the
/// pool grows.
pub proof fn lemma_route_cost_extended(instance: &Instance, sol: SolutionModel, sol2: SolutionModel, route: Seq<Node>)
    requires
        forall|q: int| 0 <= q < route.len() ==> #[trigger] route[q] < sol.cust.len() && sol2.cust[route[q] as int] == sol.cust[route[q] as int],
    ensures
        route_cost(instance, sol2, route) == route_cost(instance, sol, route),
{
    assert(customers_of(sol2, route) =~= customers_of(sol, route));
}

/// What [`objective_sum`] counts for node `v`: its leg to its successor, and
/// the leg from the depot when it follows the depot.
pub open spec fn node_term(instance: &Instance, sol: SolutionModel, v: Node) -> int {
    let c = sol.cust[v as int] as int;
    instance.dist(c, sol.cust[sol.succ[v as int] as int] as int) + if sol.pred[v as int] == 0 {
        instance.dist(0, c)
    } else {
        0
    }
}

/// The terms of the nodes of `s`.
pub open spec fn node_terms(instance: &Instance, sol: SolutionModel, s: Seq<Node>) -> int
    decreases s.len(),
{
    if s.len() == 0 {
        0
    } else {
        node_term(instance, sol, s[0]) + node_terms(instance, sol, s.drop_first())
    }
}

/// The terms of the nodes of all routes.
pub open spec fn family_terms(instance: &Instance, sol: SolutionModel, routes: Seq<Seq<Node>>) -> int
    decreases routes.len(),
{
    if routes.len() == 0 {
        0
    } else {
        family_terms(instance, sol, routes.drop_last()) + node_terms(instance, sol, routes.last())
    }
}

proof fn lemma_node_terms_remove(instance: &Instance, sol: SolutionModel, s: Seq<Node>, q: int)
    requires
        0 <= q < s.len(),
    ensures
        node_terms(instance, sol, s.remove(q)) == node_terms(instance, sol, s) - node_term(instance, sol, s[q]),
    decreases q,
{
    if q == 0 {
        assert(s.remove(0) =~= s.drop_first());
    } else {
        assert(s.remove(q).drop_first() =~= s.drop_first().remove(q - 1));
        assert(s.remove(q)[0] == s[0]);
        lemma_node_terms_remove(instance, sol, s.drop_first(), q - 1);
    }
}

proof fn lemma_family_terms_update(instance: &Instance, sol: SolutionModel, routes: Seq<Seq<Node>>, r: int, route: Seq<Node>)
    requires
        0 <= r < routes.len(),
    ensures
        family_terms(instance, sol, routes.update(r, route)) == family_terms(instance, sol, routes) - node_terms(
            instance,
            sol,
            routes[r],
        ) + node_terms(instance, sol, route),
    decreases routes.len(),
{
    let up = routes.update(r, route);
    if r == routes.len() - 1 {
        assert(up.drop_last() =~= routes.drop_last());
    } else {
        assert(up.drop_last() =~= routes.drop_last().update(r, route));
        lemma_family_terms_update(instance, sol, routes.drop_last(), r, route);
    }
}

proof fn lemma_family_terms_empty(instance: &Instance, sol: SolutionModel, routes: Seq<Seq<Node>>)
    requires
        forall|r: int| 0 <= r < routes.len() ==> #[trigger] routes[r].len() == 0,
    ensures
        family_terms(instance, sol, routes) == 0,
    decreases routes.len(),
{
    if routes.len() > 0 {
        assert(routes.last() == routes[routes.len() - 1]);
        lemma_family_terms_empty(instance, sol, routes.drop_last());
    }
}

/// Disjoint routes visiting exactly the nodes `1..m` hold the terms of those
/// nodes, in any order.
proof fn lemma_family_terms_partition(instance: &Instance, sol: SolutionModel, routes: Seq<Seq<Node>>, m: int)
    requires
        1 <= m <= 0x7fff_ffff,
        routes_disjoint(routes),
        forall|r: int, q: int| valid_pos(routes, r, q) ==> 1 <= #[trigger] routes[r][q] < m,
        forall|v: Node| 0 < v < m ==> #[trigger] routed(routes, v),
    ensures
        family_terms(instance, sol, routes) == objective_sum(instance, sol, m),
    decreases m,
{
    if m == 1 {
        assert forall|r: int| 0 <= r < routes.len() implies #[trigger] routes[r].len() == 0 by {
            if routes[r].len() > 0 {
                assert(valid_pos(routes, r, 0));
                assert(1 <= routes[r][0] < m);
            }
        }
        lemma_family_terms_empty(instance, sol, routes);
    } else {
        let v = (m - 1) as Node;
        assert(routed(routes, v));
        let (r, q) = choose|r: int, q: int| 0 <= r < routes.len() && 0 <= q < routes[r].len() && routes[r][q] == v;
        let smaller = routes.update(r, routes[r].remove(q));
        // The smaller family is a partition of 1..m-1.
        assert forall|rr: int, qq: int| valid_pos(smaller, rr, qq) implies 1 <= #[trigger] smaller[rr][qq] < m - 1 by {
            let (oa, ob) = if rr == r { (r, if qq < q { qq } else { qq + 1 }) } else { (rr, qq) };
            assert(smaller[rr][qq] == routes[oa][ob]);
            lemma_disjoint_at(routes, oa, ob, r, q);
        }
        assert forall|w: Node| 0 < w < m - 1 implies #[trigger] routed(smaller, w) by {
            assert(routed(routes, w));
            let (a, b) = choose|a: int, b: int| 0 <= a < routes.len() && 0 <= b < routes[a].len() && routes[a][b] == w;
            if a == r {
                assert(routes[a][b] != routes[r][q]);
                assert(b != q);
                if b < q {
                    assert(smaller[r][b] == w);
                } else {
                    assert(smaller[r][b - 1] == w);
                }
            } else {
                assert(smaller[a][b] == w);
            }
        }
        let origin = |rr: int, qq: int| if rr == r { (r, if qq < q { qq } else { qq + 1 }) } else { (rr, qq) };
        assert forall|rr: int, qq: int| valid_pos(smaller, rr, qq) && !(rr == -1 && qq == -1) implies {
            &&& valid_pos(routes, origin(rr, qq).0, origin(rr, qq).1)
            &&& routes[origin(rr, qq).0][origin(rr, qq).1] == #[trigger] smaller[rr][qq]
            &&& (valid_pos(smaller, -1, -1) ==> smaller[rr][qq] != smaller[-1][-1])
        } by {
        }
        lemma_disjoint_from_origin(routes, smaller, origin, -1, -1);
        lemma_family_terms_partition(instance, sol, smaller, m - 1);
        lemma_family_terms_update(instance, sol, routes, r, routes[r].remove(q));
        lemma_node_terms_remove(instance, sol, routes[r], q);
    }
}

/// Along a traced route, the terms of the nodes from position `q` on add up
/// to the walk from the node at `q` through the rest and back to the depot,
/// plus the leg from the depot for the first node.
proof fn lemma_node_terms_route(instance: &Instance, sol: SolutionModel, route: Seq<Node>, q: int)
    requires
        sol.wf(),
        route_linked(sol, route),
        0 <= q < route.len(),
    ensures
        node_terms(instance, sol, route.subrange(q, route.len() as int)) == walk(
            instance,
            sol.cust[route[q] as int],
            customers_of(sol, route).subrange(q + 1, route.len() as int),
        ) + if q == 0 {
            instance.dist(0, sol.cust[route[0] as int] as int)
        } else {
            0
        },
    decreases route.len() - q,
{
    let len = route.len() as int;
    let cs = customers_of(sol, route);
    let tail = route.subrange(q, len);
    lemma_linked_at(sol, route, q);
    if q > 0 {
        lemma_linked_at(sol, route, q - 1);
    }
    assert(tail[0] == route[q]);
    assert(tail.drop_first() =~= route.subrange(q + 1, len));
    assert(node_terms(instance, sol, tail) == node_term(instance, sol, route[q]) + node_terms(instance, sol, route.subrange(q + 1, len)));
    assert((sol.pred[route[q] as int] == 0) == (q == 0));
    if q + 1 < len {
        lemma_node_terms_route(instance, sol, route, q + 1);
        lemma_linked_at(sol, route, q + 1);
        let rest = cs.subrange(q + 1, len);
        assert(rest[0] == sol.cust[route[q + 1] as int]);
        assert(rest.drop_first() =~= cs.subrange(q + 2, len));
        assert(walk(instance, sol.cust[route[q] as int], rest) == instance.dist(sol.cust[route[q] as int] as int, rest[0] as int)
            + walk(instance, rest[0], rest.drop_first()));
    } else {
        assert(route.subrange(q + 1, len) =~= Seq::<Node>::empty());
        assert(cs.subrange(q + 1, len) =~= Seq::<Node>::empty());
        assert(node_terms(instance, sol, route.subrange(q + 1, len)) == 0);
    }
}

/// For a pool traced by routes that visit every node, with no distance from
/// the depot to itself, the objective counted node by node is the total
/// distance travelled by the routes.
pub proof fn lemma_objective_is_total_cost(instance: &Instance, sol: SolutionModel, ctx: ContextModel)
    requires
        routes_valid(sol, ctx),
        routes_cover(sol, ctx),
        instance.dist(0, 0) == 0,
    ensures
        objective_sum(instance, sol, sol.len() as int) == total_cost(instance, sol, ctx.routes),
{
    let routes = ctx.routes;
    assert forall|r: int, q: int| valid_pos(routes, r, q) implies 1 <= #[trigger] routes[r][q] < sol.len() by {
        lemma_route_facts(sol, ctx, r);
        lemma_linked_at(sol, routes[r], q);
    }
    lemma_family_terms_partition(instance, sol, routes, sol.len() as int);
    lemma_family_terms_is_cost(instance, sol, ctx, routes.len() as int);
    assert(routes.subrange(0, routes.len() as int) =~= routes);
}

/// Over the first `k` routes, the node terms add up to the route costs.
proof fn lemma_family_terms_is_cost(instance: &Instance, sol: SolutionModel, ctx: ContextModel, k: int)
    requires
        routes_valid(sol, ctx),
        instance.dist(0, 0) == 0,
        0 <= k <= ctx.routes.len(),
    ensures
        family_terms(instance, sol, ctx.routes.subrange(0, k)) == total_cost(instance, sol, ctx.routes.subrange(0, k)),
    decreases k,
{
    let fam = ctx.routes.subrange(0, k);
    if k > 0 {
        assert(fam.drop_last() =~= ctx.routes.subrange(0, k - 1));
        lemma_family_terms_is_cost(instance, sol, ctx, k - 1);
        let route = ctx.routes[k - 1];
        assert(fam.last() == route);
        lemma_route_facts(sol, ctx, k - 1);
        if route.len() > 0 {
            lemma_node_terms_route(instance, sol, route, 0);
            assert(route.subrange(0, route.len() as int) =~= route);
            let cs = customers_of(sol, route);
            assert(cs[0] == sol.cust[route[0] as int]);
            assert(cs.drop_first() =~= cs.subrange(1, route.len() as int));
        } else {
            assert(customers_of(sol, route) =~= Seq::<Node>::empty());
        }
    }
}

} // verus!
