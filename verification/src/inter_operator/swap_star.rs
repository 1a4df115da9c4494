//! SwapStar operator implementation.
//!
//! Exchanges single nodes between routes.
use vstd::prelude::*;

verus! {

use crate::Node;
use crate::cache::{Cache, CacheMap};
use crate::cost::{detour, total_cost, lemma_total_cost_update, lemma_total_cost_same_customers, lemma_route_cost_insert, lemma_route_cost_remove};
use crate::delta::Delta;
use crate::instance::Instance;
use crate::inter_operator::{InterOperator, visited_before4, calc_delta, calc_customer_delta, customers_fit, gap_cost};
use crate::inter_operator::relocate::{Relocate, RelocateMove, relocated_routes};
use crate::model::{
    SolutionModel, ContextModel, routes_valid, route_linked, next_in, prev_in, gap_pred, gap_succ,
    lemma_disjoint_route_distinct, lemma_linked_at, lemma_route_facts, lemma_route_step, seq_distinct,
};
use crate::model::{routes_cover, routed, loads_valid, within_capacity, load_sum, delivered, lemma_delivered_frame, lemma_load_sum_insert, lemma_load_sum_remove};
use crate::random::Random;
use crate::route_context::RouteContext;
use crate::solution::{AlkaidSolution, objective_sum};
use crate::cost::lemma_objective_is_total_cost;

/// Move data for the SwapStar operator: `node_x` leaves `route_x` and goes
/// between `predecessor_x` and `successor_x` in `route_y` once `node_y` has
/// left it; `node_y` leaves `route_y` and goes between `predecessor_y` and
/// `successor_y` in `route_x` (next to `node_x` when it takes `node_x`'s
/// place).
#[derive(Clone, Copy)]
struct SwapStarMove {
    route_x: Node,
    route_y: Node,
    node_x: Node,
    predecessor_x: Node,
    successor_x: Node,
    node_y: Node,
    predecessor_y: Node,
    successor_y: Node,
}

/// SwapStar operator.
///
/// Exchanges single nodes between two routes, finding optimal insertion
/// positions for each: each node goes to a cheapest position of the other
/// route once the other node has left it (its former place included). Of
/// all such exchanges that keep both routes within capacity, the one that
/// shortens the solution most is applied, if any does.
#[derive(Debug, Clone, Copy, Default)]
pub struct SwapStar;

/// The routes after the node at position `i` of route `rx` and the node at
/// position `k` of route `ry` change routes: the node of `ry` goes to
/// insertion position `a` of route `rx` without its node, and the node of
/// `rx` to insertion position `b` of route `ry` without its node.
pub open spec fn swapped_routes(routes: Seq<Seq<Node>>, rx: int, ry: int, i: int, k: int, a: int, b: int) -> Seq<Seq<Node>> {
    routes.update(rx, routes[rx].remove(i).insert(a, routes[ry][k])).update(
        ry,
        routes[ry].remove(k).insert(b, routes[rx][i]),
    )
}

/// Swapping the node at position `i` of route `rx` with the node at
/// position `k` of a later route `ry` keeps both routes within capacity
/// (by their recorded loads).
pub open spec fn swap_candidate(instance: &Instance, sol: SolutionModel, ctx: ContextModel, rx: int, ry: int, i: int, k: int) -> bool {
    let load_x = sol.load[ctx.routes[rx][i] as int];
    let load_y = sol.load[ctx.routes[ry][k] as int];
    &&& 0 <= rx < ry < ctx.routes.len()
    &&& 0 <= i < ctx.routes[rx].len()
    &&& 0 <= k < ctx.routes[ry].len()
    &&& -instance.capacity + ctx.loads[ry] + load_x <= load_y
    &&& load_y <= instance.capacity - ctx.loads[rx] + load_x
}

/// A swap candidate with insertion positions `a` (for the node of `ry` in
/// route `rx` without its node) and `b` (for the node of `rx` in route `ry`
/// without its node).
pub open spec fn swap_option(instance: &Instance, sol: SolutionModel, ctx: ContextModel, rx: int, ry: int, i: int, k: int, a: int, b: int) -> bool {
    &&& swap_candidate(instance, sol, ctx, rx, ry, i, k)
    &&& 0 <= a < ctx.routes[rx].len()
    &&& 0 <= b < ctx.routes[ry].len()
}

/// The change in travelled distance of that exchange.
pub open spec fn swap_gain(instance: &Instance, sol: SolutionModel, ctx: ContextModel, rx: int, ry: int, i: int, k: int, a: int, b: int) -> int {
    let route_x = ctx.routes[rx];
    let route_y = ctx.routes[ry];
    let x = route_x[i];
    let y = route_y[k];
    gap_cost(instance, sol, route_x.remove(i), a, sol.cust[y as int]) + gap_cost(
        instance,
        sol,
        route_y.remove(k),
        b,
        sol.cust[x as int],
    ) - detour(
        instance,
        sol.cust[prev_in(route_x, i) as int],
        sol.cust[x as int],
        sol.cust[next_in(route_x, i) as int],
    ) - detour(instance, sol.cust[prev_in(route_y, k) as int], sol.cust[y as int], sol.cust[next_in(route_y, k) as int])
}

/// `(new_sol, new_ctx)` is `(sol, ctx)` after that exchange.
pub open spec fn swap_applied(
    sol: SolutionModel,
    ctx: ContextModel,
    new_sol: SolutionModel,
    new_ctx: ContextModel,
    rx: int,
    ry: int,
    i: int,
    k: int,
    a: int,
    b: int,
) -> bool {
    &&& new_ctx.routes == swapped_routes(ctx.routes, rx, ry, i, k, a, b)
    &&& routes_valid(new_sol, new_ctx)
    &&& new_sol.cust == sol.cust
    &&& new_sol.load == sol.load
    &&& new_ctx.loads == ctx.loads
    &&& new_ctx.tails == ctx.tails
}

/// The insertion position of `route` that insertion position `b` of
/// `route` without its node at `k` stands for, when `b` is not that node's
/// former place.
pub open spec fn source_slot(k: int, b: int) -> int {
    if b < k {
        b
    } else {
        b + 1
    }
}

/// The insertion position of `route` with the node at `i` still in it
/// where a node goes that must end at position `a` once that node leaves.
pub open spec fn with_node_slot(i: int, a: int) -> int {
    if a <= i {
        a
    } else {
        a + 1
    }
}

/// The insertion positions of a route without its node at `k`: its former
/// place lies between that node's neighbours, and every other one is a
/// position of the route that touches neither side of the node.
proof fn lemma_removed_slots(route: Seq<Node>, k: int, b: int)
    requires
        0 <= k < route.len(),
        0 <= b < route.len(),
        seq_distinct(route),
        forall|q: int| 0 <= q < route.len() ==> #[trigger] route[q] != 0,
    ensures
        b == k ==> gap_pred(route.remove(k), b) == prev_in(route, k) && gap_succ(route.remove(k), b) == next_in(route, k),
        b != k ==> gap_avoids(route, source_slot(k, b), route[k]) && gap_pred(route.remove(k), b) == gap_pred(
            route,
            source_slot(k, b),
        ) && gap_succ(route.remove(k), b) == gap_succ(route, source_slot(k, b)),
{
    let j = source_slot(k, b);
    if b != k {
        if j > 0 && j - 1 != k {
            assert(route[j - 1] != route[k]);
        }
        if j < route.len() && j != k {
            assert(route[j] != route[k]);
        }
    }
}

/// Every position of a route that touches neither side of its node at `k`
/// is the source of a position of the route without that node.
proof fn lemma_avoiding_slot(route: Seq<Node>, k: int, j: int)
    requires
        0 <= k < route.len(),
        0 <= j <= route.len(),
        gap_avoids(route, j, route[k]),
    ensures
        ({
            let b = if j < k { j } else { j - 1 };
            &&& 0 <= b < route.len()
            &&& b != k
            &&& source_slot(k, b) == j
        }),
{
    assert(j != k);
    assert(j != k + 1);
}

/// Insertion position `j` of `route` has neither `exclude` before nor after it.
pub open spec fn gap_avoids(route: Seq<Node>, j: int, exclude: Node) -> bool {
    gap_pred(route, j) != exclude && gap_succ(route, j) != exclude
}

impl SwapStar {
    /// Finds the cheapest insertion position for `customer` in `route` among
    /// those next to neither side of `exclude_node`, ties broken uniformly at
    /// random; returns the nodes around it and the extra distance, or `None`
    /// when every position touches `exclude_node`.
    fn find_best_insertion_excluding(
        instance: &Instance,
        solution: &AlkaidSolution,
        context: &RouteContext,
        route: Node,
        customer: Node,
        exclude_node: Node,
        random: &mut Random,
    ) -> (best: Option<(Node, Node, i64)>)
        requires
            instance.wf(),
            customers_fit(instance, solution@),
            routes_valid(solution@, context@),
            route < context@.routes.len(),
            customer < instance.num_customers,
        ensures
            best is None <==> forall|j: int|
                0 <= j <= context@.routes[route as int].len() ==> !#[trigger] gap_avoids(
                    context@.routes[route as int],
                    j,
                    exclude_node,
                ),
            best is Some ==> exists|j: int|
                0 <= j <= context@.routes[route as int].len() && gap_avoids(context@.routes[route as int], j, exclude_node)
                    && best->0 == (
                    gap_pred(context@.routes[route as int], j),
                    gap_succ(context@.routes[route as int], j),
                    gap_cost(instance, solution@, context@.routes[route as int], j, customer) as i64,
                ) && gap_cost(instance, solution@, context@.routes[route as int], j, customer) == (best->0).2,
            best is Some ==> forall|j: int|
                0 <= j <= context@.routes[route as int].len() && gap_avoids(context@.routes[route as int], j, exclude_node)
                    ==> (best->0).2 <= #[trigger] gap_cost(instance, solution@, context@.routes[route as int], j, customer),
    {
        let ghost r = context@.routes[route as int];
        let ghost sol = solution@;
        proof {
            lemma_route_facts(solution@, context@, route as int);
        }
        let mut best: Option<(Node, Node, i64)> = None;
        let mut count: i32 = 0;
        let ghost mut k: int = 0;
        let ghost mut jb: int = 0;

        let mut pred: Node = 0;
        let mut node: Node = context.head(route);

        loop
            invariant_except_break
                0 <= k <= r.len(),
                pred == gap_pred(r, k),
                node == gap_succ(r, k),
                forall|j: int| 0 <= j < k ==> (best is None ==> !#[trigger] gap_avoids(r, j, exclude_node)),
                forall|j: int|
                    0 <= j < k && gap_avoids(r, j, exclude_node) ==> (best is Some && (best->0).2 <= #[trigger] gap_cost(
                        instance,
                        sol,
                        r,
                        j,
                        customer,
                    )),
                best is Some ==> 0 <= jb < k,
                0 <= count <= k,
            invariant
                instance.wf(),
                customers_fit(instance, sol),
                sol == solution@,
                sol.wf(),
                route_linked(sol, r),
                r.len() < sol.len(),
                sol.len() <= 0x7fff_ffff,
                customer < instance.num_customers,
                best is Some ==> gap_avoids(r, jb, exclude_node) && 0 <= jb <= r.len() && best->0 == (
                    gap_pred(r, jb),
                    gap_succ(r, jb),
                    gap_cost(instance, sol, r, jb, customer) as i64,
                ) && gap_cost(instance, sol, r, jb, customer) == (best->0).2,
            ensures
                forall|j: int| 0 <= j <= r.len() ==> (best is None ==> !#[trigger] gap_avoids(r, j, exclude_node)),
                forall|j: int|
                    0 <= j <= r.len() && gap_avoids(r, j, exclude_node) ==> (best is Some && (best->0).2 <= #[trigger] gap_cost(
                        instance,
                        sol,
                        r,
                        j,
                        customer,
                    )),
            decreases r.len() - k,
        {
            proof {
                lemma_route_step(sol, r, k);
                if k > 0 {
                    lemma_route_step(sol, r, k - 1);
                }
            }
            if pred != exclude_node && node != exclude_node {
                let delta = calc_customer_delta(instance, solution, customer, pred, node);
                assert(delta == gap_cost(instance, sol, r, k, customer));
                if best.is_none() || delta < best.unwrap().2 {
                    best = Some((pred, node, delta));
                    count = 1;
                    proof {
                        jb = k;
                    }
                } else if delta == best.unwrap().2 {
                    count += 1;
                    if random.next_int(1, count) == 1 {
                        best = Some((pred, node, delta));
                        proof {
                            jb = k;
                        }
                    }
                }
            }
            if node == 0 {
                break;
            }
            pred = node;
            node = solution.successor(node);
            proof {
                k = k + 1;
            }
        }
        best
    }

    /// Finds a cheapest insertion position for `customer` in `route` once
    /// its node `node` (at position `k`) has left it: `node`'s former place
    /// or the cheapest position touching neither side of it. Returns the
    /// nodes around the position, its extra distance, and whether it is
    /// `node`'s former place.
    fn cheapest_slot(
        instance: &Instance,
        solution: &AlkaidSolution,
        context: &RouteContext,
        route: Node,
        node: Node,
        customer: Node,
        random: &mut Random,
        Ghost(k): Ghost<int>,
    ) -> (res: (Node, Node, i64, bool))
        requires
            instance.wf(),
            customers_fit(instance, solution@),
            routes_valid(solution@, context@),
            route < context@.routes.len(),
            0 <= k < context@.routes[route as int].len(),
            node == context@.routes[route as int][k],
            customer < instance.num_customers,
        ensures
            exists|b: int|
                0 <= b < context@.routes[route as int].len() && res.0 == gap_pred(context@.routes[route as int].remove(k), b)
                    && res.1 == gap_succ(context@.routes[route as int].remove(k), b) && res.2 == gap_cost(
                    instance,
                    solution@,
                    context@.routes[route as int].remove(k),
                    b,
                    customer,
                ) && (res.3 <==> b == k),
            forall|b: int|
                0 <= b < context@.routes[route as int].len() ==> res.2 <= #[trigger] gap_cost(
                    instance,
                    solution@,
                    context@.routes[route as int].remove(k),
                    b,
                    customer,
                ),
    {
        let ghost sol = solution@;
        let ghost r = context@.routes[route as int];
        proof {
            lemma_route_facts(sol, context@, route as int);
            lemma_linked_at(sol, r, k);
            assert forall|q: int| 0 <= q < r.len() implies #[trigger] r[q] != 0 by {
                lemma_linked_at(sol, r, q);
            }
            lemma_removed_slots(r, k, k);
        }
        let pred = solution.predecessor(node);
        let succ = solution.successor(node);
        let in_place = calc_customer_delta(instance, solution, customer, pred, succ);
        assert(in_place == gap_cost(instance, sol, r.remove(k), k, customer));
        let best = Self::find_best_insertion_excluding(instance, solution, context, route, customer, node, random);
        proof {
            assert forall|b: int| 0 <= b < r.len() && b != k implies gap_avoids(r, source_slot(k, b), node) && gap_cost(
                instance,
                sol,
                r.remove(k),
                b,
                customer,
            ) == gap_cost(instance, sol, r, source_slot(k, b), customer) by {
                lemma_removed_slots(r, k, b);
            }
        }
        match best {
            Some((p, s, c)) => {
                if c < in_place {
                    proof {
                        let j = choose|j: int|
                            0 <= j <= r.len() && gap_avoids(r, j, node) && (p, s, c) == (
                                gap_pred(r, j),
                                gap_succ(r, j),
                                gap_cost(instance, sol, r, j, customer) as i64,
                            ) && gap_cost(instance, sol, r, j, customer) == c;
                        lemma_avoiding_slot(r, k, j);
                        let b = if j < k { j } else { j - 1 };
                        lemma_removed_slots(r, k, b);
                        assert(0 <= b < r.len() && p == gap_pred(r.remove(k), b) && s == gap_succ(r.remove(k), b) && c == gap_cost(
                            instance,
                            sol,
                            r.remove(k),
                            b,
                            customer,
                        ) && (false <==> b == k));
                        assert forall|b2: int| 0 <= b2 < r.len() implies c <= #[trigger] gap_cost(instance, sol, r.remove(k), b2, customer) by {
                            if b2 != k {
                                assert(gap_avoids(r, source_slot(k, b2), node));
                            }
                        }
                    }
                    (p, s, c, false)
                } else {
                    proof {
                        assert forall|b2: int| 0 <= b2 < r.len() implies in_place <= #[trigger] gap_cost(instance, sol, r.remove(k), b2, customer) by {
                            if b2 != k {
                                assert(gap_avoids(r, source_slot(k, b2), node));
                            }
                        }
                    }
                    (pred, succ, in_place, true)
                }
            },
            None => {
                proof {
                    assert forall|b2: int| 0 <= b2 < r.len() implies in_place <= #[trigger] gap_cost(instance, sol, r.remove(k), b2, customer) by {
                        if b2 != k {
                            assert(gap_avoids(r, source_slot(k, b2), node));
                        }
                    }
                }
                (pred, succ, in_place, true)
            },
        }
    }

    /// Applies a swap star move: the node of route y moves into route x,
    /// then the node of route x moves into route y.
    fn do_swap_star(
        mv: &SwapStarMove,
        solution: &mut AlkaidSolution,
        context: &mut RouteContext,
        Ghost(i): Ghost<int>,
        Ghost(k): Ghost<int>,
        Ghost(a): Ghost<int>,
        Ghost(b): Ghost<int>,
    )
        requires
            routes_valid(old(solution)@, old(context)@),
            mv.route_x < old(context)@.routes.len(),
            mv.route_y < old(context)@.routes.len(),
            mv.route_x != mv.route_y,
            0 <= i < old(context)@.routes[mv.route_x as int].len(),
            0 <= k < old(context)@.routes[mv.route_y as int].len(),
            0 <= a < old(context)@.routes[mv.route_x as int].len(),
            0 <= b < old(context)@.routes[mv.route_y as int].len(),
            move_matches(*mv, old(context)@, mv.route_x as int, mv.route_y as int, i, k, a, b),
        ensures
            swap_applied(
                old(solution)@,
                old(context)@,
                final(solution)@,
                final(context)@,
                mv.route_x as int,
                mv.route_y as int,
                i,
                k,
                a,
                b,
            ),
    {
        let ghost sol = solution@;
        let ghost ctx = context@;
        let ghost rx = mv.route_x as int;
        let ghost ry = mv.route_y as int;
        let ghost s = with_node_slot(i, a);
        let ghost iu = if s <= i { i + 1 } else { i };
        proof {
            lemma_swap_as_two_moves(ctx.routes, rx, ry, i, k, a, b);
        }
        let to_x = RelocateMove {
            route_x: mv.route_y,
            route_y: mv.route_x,
            node_x: mv.node_y,
            predecessor_x: mv.predecessor_y,
            successor_x: mv.successor_y,
        };
        Relocate::do_relocate(&to_x, solution, context, Ghost(k), Ghost(s));
        let ghost sol1 = solution@;
        let ghost ctx1 = context@;
        let to_y = RelocateMove {
            route_x: mv.route_x,
            route_y: mv.route_y,
            node_x: mv.node_x,
            predecessor_x: mv.predecessor_x,
            successor_x: mv.successor_x,
        };
        Relocate::do_relocate(&to_y, solution, context, Ghost(iu), Ghost(b));
    }
}


/// The links of an exchange make the exchanged routes: it is the move of
/// the node of `ry` into route `rx` next to or away from the node of `rx`,
/// followed by the move of the node of `rx` into route `ry`.
proof fn lemma_swap_as_two_moves(routes: Seq<Seq<Node>>, rx: int, ry: int, i: int, k: int, a: int, b: int)
    requires
        0 <= rx < routes.len(),
        0 <= ry < routes.len(),
        rx != ry,
        0 <= i < routes[rx].len(),
        0 <= k < routes[ry].len(),
        0 <= a < routes[rx].len(),
        0 <= b < routes[ry].len(),
    ensures
        ({
            let s = with_node_slot(i, a);
            let iu = if s <= i { i + 1 } else { i };
            let r1 = relocated_routes(routes, ry, rx, k, s);
            &&& 0 <= s <= routes[rx].len()
            &&& 0 <= iu < r1[rx].len()
            &&& r1[rx][iu] == routes[rx][i]
            &&& 0 <= b <= r1[ry].len()
            &&& relocated_routes(r1, rx, ry, iu, b) == swapped_routes(routes, rx, ry, i, k, a, b)
        }),
{
    let s = with_node_slot(i, a);
    let iu = if s <= i { i + 1 } else { i };
    let r1 = relocated_routes(routes, ry, rx, k, s);
    let x = routes[rx][i];
    let y = routes[ry][k];
    assert(r1[rx] == routes[rx].insert(s, y));
    assert(r1[ry] == routes[ry].remove(k));
    assert(r1[rx][iu] == x);
    assert(r1[rx].remove(iu) =~= routes[rx].remove(i).insert(a, y));
    let r2 = relocated_routes(r1, rx, ry, iu, b);
    assert(r2[rx] =~= routes[rx].remove(i).insert(a, y));
    assert(r2[ry] =~= routes[ry].remove(k).insert(b, x));
    assert(r2 =~= swapped_routes(routes, rx, ry, i, k, a, b));
}

/// An exchange changes the travelled distance by exactly its gain.
pub proof fn lemma_swap_cost(instance: &Instance, sol: SolutionModel, ctx: ContextModel, rx: int, ry: int, i: int, k: int, a: int, b: int)
    requires
        sol.wf(),
        0 <= rx < ctx.routes.len(),
        0 <= ry < ctx.routes.len(),
        rx != ry,
        0 <= i < ctx.routes[rx].len(),
        0 <= k < ctx.routes[ry].len(),
        0 <= a < ctx.routes[rx].len(),
        0 <= b < ctx.routes[ry].len(),
    ensures
        total_cost(instance, sol, swapped_routes(ctx.routes, rx, ry, i, k, a, b)) == total_cost(instance, sol, ctx.routes)
            + swap_gain(instance, sol, ctx, rx, ry, i, k, a, b),
{
    let routes = ctx.routes;
    let route_x = routes[rx];
    let route_y = routes[ry];
    let x = route_x[i];
    let y = route_y[k];
    let new_x = route_x.remove(i).insert(a, y);
    let new_y = route_y.remove(k).insert(b, x);
    let mid = routes.update(rx, new_x);
    lemma_total_cost_update(instance, sol, routes, rx, new_x);
    lemma_total_cost_update(instance, sol, mid, ry, new_y);
    lemma_route_cost_remove(instance, sol, route_x, i);
    lemma_route_cost_insert(instance, sol, route_x.remove(i), a, y);
    lemma_route_cost_remove(instance, sol, route_y, k);
    lemma_route_cost_insert(instance, sol, route_y.remove(k), b, x);
    assert(mid.update(ry, new_y) == swapped_routes(routes, rx, ry, i, k, a, b));
}

/// `mv` records the exchange of the node at position `i` of route `rx` and
/// the node at position `k` of route `ry` with insertion positions `a` and
/// `b`.
spec fn move_matches(mv: SwapStarMove, ctx: ContextModel, rx: int, ry: int, i: int, k: int, a: int, b: int) -> bool {
    &&& mv.route_x == rx
    &&& mv.route_y == ry
    &&& mv.node_x == ctx.routes[rx][i]
    &&& mv.node_y == ctx.routes[ry][k]
    &&& mv.predecessor_x == gap_pred(ctx.routes[ry].remove(k), b)
    &&& mv.successor_x == gap_succ(ctx.routes[ry].remove(k), b)
    &&& mv.predecessor_y == gap_pred(ctx.routes[rx], with_node_slot(i, a))
    &&& mv.successor_y == gap_succ(ctx.routes[rx], with_node_slot(i, a))
}

/// What the search loops of [`SwapStar::apply`] keep: the model is
/// untouched and the best move so far is recorded.
spec fn swap_search_state(
    instance: &Instance,
    sol: SolutionModel,
    ctx: ContextModel,
    best_delta: Delta,
    best_move: SwapStarMove,
    bx: int,
    by: int,
    bi: int,
    bk: int,
    ba: int,
    bb: int,
) -> bool {
    &&& instance.wf()
    &&& customers_fit(instance, sol)
    &&& routes_valid(sol, ctx)
    &&& best_delta.counter >= 0
    &&& best_delta.value <= 0
    &&& best_delta.value < 0 ==> swap_option(instance, sol, ctx, bx, by, bi, bk, ba, bb) && swap_gain(
        instance,
        sol,
        ctx,
        bx,
        by,
        bi,
        bk,
        ba,
        bb,
    ) == best_delta.value && move_matches(best_move, ctx, bx, by, bi, bk, ba, bb)
}

impl InterOperator for SwapStar {
    /// Looks at every pair of nodes in two different routes whose exchange
    /// keeps both routes within capacity, each node going to a cheapest
    /// position of the other route once the other node has left it, and
    /// performs the exchange that shortens the solution most, if any does.
    fn apply<C: Cache>(
        &self,
        instance: &Instance,
        solution: &mut AlkaidSolution,
        context: &mut RouteContext,
        random: &mut Random,
        _cache_map: &mut CacheMap<C>,
    ) -> (routes: Vec<Node>)
        ensures
            routes@.len() == 0 <==> forall|rx: int, ry: int, i: int, k: int, a: int, b: int|
                swap_option(instance, old(solution)@, old(context)@, rx, ry, i, k, a, b) ==> #[trigger] swap_gain(
                    instance,
                    old(solution)@,
                    old(context)@,
                    rx,
                    ry,
                    i,
                    k,
                    a,
                    b,
                ) >= 0,
            routes@.len() != 0 ==> exists|rx: int, ry: int, i: int, k: int, a: int, b: int|
                #![trigger swap_option(instance, old(solution)@, old(context)@, rx, ry, i, k, a, b)]
                {
                    &&& swap_option(instance, old(solution)@, old(context)@, rx, ry, i, k, a, b)
                    &&& swap_gain(instance, old(solution)@, old(context)@, rx, ry, i, k, a, b) < 0
                    &&& forall|p: int, q: int, u: int, w: int, c: int, d: int|
                        swap_option(instance, old(solution)@, old(context)@, p, q, u, w, c, d) ==> swap_gain(
                            instance,
                            old(solution)@,
                            old(context)@,
                            rx,
                            ry,
                            i,
                            k,
                            a,
                            b,
                        ) <= #[trigger] swap_gain(instance, old(solution)@, old(context)@, p, q, u, w, c, d)
                    &&& forall|c: int|
                        0 <= c < old(context)@.routes[rx].len() ==> gap_cost(
                            instance,
                            old(solution)@,
                            old(context)@.routes[rx].remove(i),
                            a,
                            old(solution)@.cust[old(context)@.routes[ry][k] as int],
                        ) <= #[trigger] gap_cost(
                            instance,
                            old(solution)@,
                            old(context)@.routes[rx].remove(i),
                            c,
                            old(solution)@.cust[old(context)@.routes[ry][k] as int],
                        )
                    &&& forall|d: int|
                        0 <= d < old(context)@.routes[ry].len() ==> gap_cost(
                            instance,
                            old(solution)@,
                            old(context)@.routes[ry].remove(k),
                            b,
                            old(solution)@.cust[old(context)@.routes[rx][i] as int],
                        ) <= #[trigger] gap_cost(
                            instance,
                            old(solution)@,
                            old(context)@.routes[ry].remove(k),
                            d,
                            old(solution)@.cust[old(context)@.routes[rx][i] as int],
                        )
                    &&& routes@ == seq![rx as Node, ry as Node]
                    &&& swap_applied(old(solution)@, old(context)@, final(solution)@, final(context)@, rx, ry, i, k, a, b)
                    &&& total_cost(instance, final(solution)@, final(context)@.routes) == total_cost(
                        instance,
                        old(solution)@,
                        old(context)@.routes,
                    ) + swap_gain(instance, old(solution)@, old(context)@, rx, ry, i, k, a, b)
                },
            routes@.len() != 0 ==> total_cost(instance, final(solution)@, final(context)@.routes) < total_cost(
                instance,
                old(solution)@,
                old(context)@.routes,
            ),
    {
        let ghost sol = solution@;
        let ghost ctx = context@;
        let mut best_move = SwapStarMove {
            route_x: 0,
            route_y: 0,
            node_x: 0,
            predecessor_x: 0,
            successor_x: 0,
            node_y: 0,
            predecessor_y: 0,
            successor_y: 0,
        };
        let mut best_delta = Delta::default();
        let ghost mut bx: int = 0;
        let ghost mut by: int = 0;
        let ghost mut bi: int = 0;
        let ghost mut bk: int = 0;
        let ghost mut ba: int = 0;
        let ghost mut bb: int = 0;

        let num_routes = context.num_routes();
        let mut route_x: Node = 0;
        while route_x < num_routes
            invariant
                swap_search_state(instance, sol, ctx, best_delta, best_move, bx, by, bi, bk, ba, bb),
                solution@ == sol,
                context@ == ctx,
                num_routes == ctx.routes.len(),
                route_x <= num_routes,
                forall|p: int, q: int, u: int, w: int, c: int, d: int|
                    p < route_x && swap_option(instance, sol, ctx, p, q, u, w, c, d) ==> best_delta.value
                        <= #[trigger] swap_gain(instance, sol, ctx, p, q, u, w, c, d),
            decreases num_routes - route_x,
        {
            let mut route_y: Node = route_x + 1;
            while route_y < num_routes
                invariant
                    swap_search_state(instance, sol, ctx, best_delta, best_move, bx, by, bi, bk, ba, bb),
                    solution@ == sol,
                    context@ == ctx,
                    num_routes == ctx.routes.len(),
                    route_x < num_routes,
                    route_x < route_y <= num_routes,
                    forall|p: int, q: int, u: int, w: int, c: int, d: int|
                        visited_before4(p, q, u, w, route_x as int, route_y as int, 0, 0) && swap_option(
                            instance,
                            sol,
                            ctx,
                            p,
                            q,
                            u,
                            w,
                            c,
                            d,
                        ) ==> best_delta.value <= #[trigger] swap_gain(instance, sol, ctx, p, q, u, w, c, d),
                decreases num_routes - route_y,
            {
                let ghost rte_x = ctx.routes[route_x as int];
                let ghost rte_y = ctx.routes[route_y as int];
                proof {
                    lemma_route_facts(sol, ctx, route_x as int);
                    lemma_route_facts(sol, ctx, route_y as int);
                }
                let ghost mut i: int = 0;
                let mut node_x = context.head(route_x);
                while node_x != 0
                    invariant
                        swap_search_state(instance, sol, ctx, best_delta, best_move, bx, by, bi, bk, ba, bb),
                        solution@ == sol,
                        context@ == ctx,
                        num_routes == ctx.routes.len(),
                        route_x < route_y < num_routes,
                        rte_x == ctx.routes[route_x as int],
                        rte_y == ctx.routes[route_y as int],
                        route_linked(sol, rte_x),
                        route_linked(sol, rte_y),
                        seq_distinct(rte_x),
                        0 <= i <= rte_x.len(),
                        node_x == gap_succ(rte_x, i),
                        forall|p: int, q: int, u: int, w: int, c: int, d: int|
                            visited_before4(p, q, u, w, route_x as int, route_y as int, i, 0) && swap_option(
                                instance,
                                sol,
                                ctx,
                                p,
                                q,
                                u,
                                w,
                                c,
                                d,
                            ) ==> best_delta.value <= #[trigger] swap_gain(instance, sol, ctx, p, q, u, w, c, d),
                    decreases rte_x.len() - i,
                {
                    proof {
                        lemma_route_step(sol, rte_x, i);
                        lemma_linked_at(sol, rte_x, i);
                    }
                    let load_x = solution.load(node_x);
                    let load_y_lower = -(instance.capacity as i64) + context.load(route_y) as i64 + load_x as i64;
                    let load_y_upper = instance.capacity as i64 - context.load(route_x) as i64 + load_x as i64;

                    let ghost mut k: int = 0;
                    let mut node_y = context.head(route_y);
                    while node_y != 0
                        invariant
                            swap_search_state(instance, sol, ctx, best_delta, best_move, bx, by, bi, bk, ba, bb),
                            solution@ == sol,
                            context@ == ctx,
                            num_routes == ctx.routes.len(),
                            route_x < route_y < num_routes,
                            rte_x == ctx.routes[route_x as int],
                            rte_y == ctx.routes[route_y as int],
                            route_linked(sol, rte_x),
                            route_linked(sol, rte_y),
                            seq_distinct(rte_x),
                            0 <= i < rte_x.len(),
                            node_x == rte_x[i],
                            load_x == sol.load[node_x as int],
                            load_y_lower == -instance.capacity + ctx.loads[route_y as int] + load_x,
                            load_y_upper == instance.capacity - ctx.loads[route_x as int] + load_x,
                            0 <= k <= rte_y.len(),
                            node_y == gap_succ(rte_y, k),
                            forall|p: int, q: int, u: int, w: int, c: int, d: int|
                                visited_before4(p, q, u, w, route_x as int, route_y as int, i, k) && swap_option(
                                    instance,
                                    sol,
                                    ctx,
                                    p,
                                    q,
                                    u,
                                    w,
                                    c,
                                    d,
                                ) ==> best_delta.value <= #[trigger] swap_gain(instance, sol, ctx, p, q, u, w, c, d),
                        decreases rte_y.len() - k,
                    {
                        proof {
                            lemma_route_step(sol, rte_y, k);
                            lemma_linked_at(sol, rte_y, k);
                            lemma_linked_at(sol, rte_x, i);
                        }
                        let load_y = solution.load(node_y);

                        if load_y as i64 >= load_y_lower && load_y as i64 <= load_y_upper {
                            let predecessor_x = solution.predecessor(node_x);
                            let successor_x = solution.successor(node_x);
                            let predecessor_y = solution.predecessor(node_y);
                            let successor_y = solution.successor(node_y);

                            let removal_x = -calc_delta(instance, solution, node_x, predecessor_x, successor_x);
                            let removal_y = -calc_delta(instance, solution, node_y, predecessor_y, successor_y);

                            // Cheapest place of x in route y without y, and of y in route x without x
                            let customer_x = solution.customer(node_x);
                            let customer_y = solution.customer(node_y);
                            let (pred_for_x, succ_for_x, insert_x, _) = Self::cheapest_slot(
                                instance,
                                solution,
                                context,
                                route_y,
                                node_y,
                                customer_x,
                                random,
                                Ghost(k),
                            );
                            let (pred_for_y, succ_for_y, insert_y, y_in_place) = Self::cheapest_slot(
                                instance,
                                solution,
                                context,
                                route_x,
                                node_x,
                                customer_y,
                                random,
                                Ghost(i),
                            );
                            let ghost b = choose|b: int|
                                0 <= b < rte_y.len() && pred_for_x == gap_pred(rte_y.remove(k), b) && succ_for_x == gap_succ(
                                    rte_y.remove(k),
                                    b,
                                ) && insert_x == gap_cost(instance, sol, rte_y.remove(k), b, customer_x);
                            let ghost a = choose|a: int|
                                0 <= a < rte_x.len() && pred_for_y == gap_pred(rte_x.remove(i), a) && succ_for_y == gap_succ(
                                    rte_x.remove(i),
                                    a,
                                ) && insert_y == gap_cost(instance, sol, rte_x.remove(i), a, customer_y) && (y_in_place
                                    <==> a == i);
                            // Where y goes in route x while x is still there
                            let (slot_pred_y, slot_succ_y) = if y_in_place {
                                (predecessor_x, node_x)
                            } else {
                                (pred_for_y, succ_for_y)
                            };

                            let delta = removal_x + removal_y + insert_x + insert_y;
                            proof {
                                assert forall|q: int| 0 <= q < rte_x.len() implies #[trigger] rte_x[q] != 0 by {
                                    lemma_linked_at(sol, rte_x, q);
                                }
                                lemma_removed_slots(rte_x, i, a);
                                assert(slot_pred_y == gap_pred(rte_x, with_node_slot(i, a)));
                                assert(slot_succ_y == gap_succ(rte_x, with_node_slot(i, a)));
                                assert(swap_option(instance, sol, ctx, route_x as int, route_y as int, i, k, a, b));
                                assert(delta == swap_gain(instance, sol, ctx, route_x as int, route_y as int, i, k, a, b));
                                assert forall|c: int, d: int|
                                    swap_option(instance, sol, ctx, route_x as int, route_y as int, i, k, c, d) implies delta
                                    <= #[trigger] swap_gain(instance, sol, ctx, route_x as int, route_y as int, i, k, c, d) by {
                                    assert(insert_y <= gap_cost(instance, sol, rte_x.remove(i), c, customer_y));
                                    assert(insert_x <= gap_cost(instance, sol, rte_y.remove(k), d, customer_x));
                                }
                            }

                            if best_delta.update(delta, random) {
                                best_move = SwapStarMove {
                                    route_x,
                                    route_y,
                                    node_x,
                                    predecessor_x: pred_for_x,
                                    successor_x: succ_for_x,
                                    node_y,
                                    predecessor_y: slot_pred_y,
                                    successor_y: slot_succ_y,
                                };
                                proof {
                                    bx = route_x as int;
                                    by = route_y as int;
                                    bi = i;
                                    bk = k;
                                    ba = a;
                                    bb = b;
                                }
                            }
                        }

                        node_y = solution.successor(node_y);
                        proof {
                            k = k + 1;
                        }
                    }
                    proof {
                        lemma_route_step(sol, rte_y, k);
                    }

                    node_x = solution.successor(node_x);
                    proof {
                        i = i + 1;
                    }
                }
                proof {
                    lemma_route_step(sol, rte_x, i);
                }
                route_y += 1;
            }
            route_x += 1;
        }

        if best_delta.value < 0 {
            Self::do_swap_star(&best_move, solution, context, Ghost(bi), Ghost(bk), Ghost(ba), Ghost(bb));
            proof {
                lemma_swap_cost(instance, sol, ctx, bx, by, bi, bk, ba, bb);
                lemma_total_cost_same_customers(instance, sol, solution@, context@.routes);
                assert forall|c: int| 0 <= c < ctx.routes[bx].len() implies gap_cost(
                    instance,
                    sol,
                    ctx.routes[bx].remove(bi),
                    ba,
                    sol.cust[ctx.routes[by][bk] as int],
                ) <= #[trigger] gap_cost(instance, sol, ctx.routes[bx].remove(bi), c, sol.cust[ctx.routes[by][bk] as int]) by {
                    assert(swap_option(instance, sol, ctx, bx, by, bi, bk, c, bb));
                    assert(best_delta.value <= swap_gain(instance, sol, ctx, bx, by, bi, bk, c, bb));
                }
                assert forall|d: int| 0 <= d < ctx.routes[by].len() implies gap_cost(
                    instance,
                    sol,
                    ctx.routes[by].remove(bk),
                    bb,
                    sol.cust[ctx.routes[bx][bi] as int],
                ) <= #[trigger] gap_cost(instance, sol, ctx.routes[by].remove(bk), d, sol.cust[ctx.routes[bx][bi] as int]) by {
                    assert(swap_option(instance, sol, ctx, bx, by, bi, bk, ba, d));
                    assert(best_delta.value <= swap_gain(instance, sol, ctx, bx, by, bi, bk, ba, d));
                }
            }
            vec![best_move.route_x, best_move.route_y]
        } else {
            Vec::new()
        }
    }
}

/// An exchange keeps the delivered loads, keeps every node routed, keeps
/// exact the recorded loads of the routes it does not touch, and, when the
/// recorded loads are exact, keeps every route within capacity.
pub proof fn lemma_swap_keeps_feasibility(
    instance: &Instance,
    sol: SolutionModel,
    ctx: ContextModel,
    new_sol: SolutionModel,
    new_ctx: ContextModel,
    rx: int,
    ry: int,
    i: int,
    k: int,
    a: int,
    b: int,
)
    requires
        routes_valid(sol, ctx),
        swap_option(instance, sol, ctx, rx, ry, i, k, a, b),
        swap_applied(sol, ctx, new_sol, new_ctx, rx, ry, i, k, a, b),
    ensures
        forall|c: Node| #[trigger] delivered(new_sol, c, new_sol.len() as int) == delivered(sol, c, sol.len() as int),
        routes_cover(sol, ctx) ==> routes_cover(new_sol, new_ctx),
        loads_valid(sol, ctx) ==> forall|r: int|
            0 <= r < new_ctx.routes.len() && r != rx && r != ry ==> #[trigger] new_ctx.loads[r] == load_sum(
                new_sol.load,
                new_ctx.routes[r],
            ),
        loads_valid(sol, ctx) && within_capacity(sol, ctx, instance.capacity as int) ==> within_capacity(
            new_sol,
            new_ctx,
            instance.capacity as int,
        ),
{
    assert forall|c: Node| #[trigger] delivered(new_sol, c, new_sol.len() as int) == delivered(sol, c, sol.len() as int) by {
        lemma_delivered_frame(sol, new_sol, c, sol.len() as int);
    }
    let routes = ctx.routes;
    let new_routes = new_ctx.routes;
    let x = routes[rx][i];
    let y = routes[ry][k];
    if routes_cover(sol, ctx) {
        assert forall|v: Node| 0 < v < new_sol.len() implies #[trigger] routed(new_routes, v) by {
            assert(routed(routes, v));
            let (r, q) = choose|r: int, q: int| 0 <= r < routes.len() && 0 <= q < routes[r].len() && routes[r][q] == v;
            if r == rx {
                if q == i {
                    assert(new_routes[ry][b] == v);
                } else {
                    let q1 = if q < i { q } else { q - 1 };
                    assert(routes[rx].remove(i)[q1] == v);
                    let q2 = if q1 < a { q1 } else { q1 + 1 };
                    assert(new_routes[rx][q2] == v);
                }
            } else if r == ry {
                if q == k {
                    assert(new_routes[rx][a] == v);
                } else {
                    let q1 = if q < k { q } else { q - 1 };
                    assert(routes[ry].remove(k)[q1] == v);
                    let q2 = if q1 < b { q1 } else { q1 + 1 };
                    assert(new_routes[ry][q2] == v);
                }
            } else {
                assert(new_routes[r][q] == v);
            }
        }
    }
    if loads_valid(sol, ctx) {
        lemma_load_sum_remove(sol.load, routes[rx], i);
        lemma_load_sum_insert(sol.load, routes[rx].remove(i), a, y);
        lemma_load_sum_remove(sol.load, routes[ry], k);
        lemma_load_sum_insert(sol.load, routes[ry].remove(k), b, x);
        assert forall|r: int| #![trigger new_ctx.loads[r]] #![trigger new_routes[r]] 0 <= r < new_routes.len() implies
            (r != rx && r != ry ==> new_ctx.loads[r] == load_sum(new_sol.load, new_routes[r]))
            && (within_capacity(sol, ctx, instance.capacity as int) ==> load_sum(new_sol.load, new_routes[r]) <= instance.capacity) by {
            if r != rx && r != ry {
                assert(new_routes[r] == routes[r]);
            }
        }
    }
}

/// On a solution whose routes visit every node, with no distance from the
/// depot to itself, an exchange changes the objective by exactly its gain.
pub proof fn lemma_swap_objective(
    instance: &Instance,
    sol: SolutionModel,
    ctx: ContextModel,
    new_sol: SolutionModel,
    new_ctx: ContextModel,
    rx: int,
    ry: int,
    i: int,
    k: int,
    a: int,
    b: int,
)
    requires
        routes_valid(sol, ctx),
        routes_cover(sol, ctx),
        instance.dist(0, 0) == 0,
        swap_option(instance, sol, ctx, rx, ry, i, k, a, b),
        swap_applied(sol, ctx, new_sol, new_ctx, rx, ry, i, k, a, b),
    ensures
        objective_sum(instance, new_sol, new_sol.len() as int) == objective_sum(instance, sol, sol.len() as int)
            + swap_gain(instance, sol, ctx, rx, ry, i, k, a, b),
{
    lemma_swap_keeps_feasibility(instance, sol, ctx, new_sol, new_ctx, rx, ry, i, k, a, b);
    lemma_objective_is_total_cost(instance, sol, ctx);
    lemma_objective_is_total_cost(instance, new_sol, new_ctx);
    lemma_swap_cost(instance, sol, ctx, rx, ry, i, k, a, b);
    lemma_total_cost_same_customers(instance, sol, new_sol, new_ctx.routes);
}

/// Exchanging back the two nodes that an exchange moved, each to its
/// former position, gives back the routes.
pub proof fn lemma_swap_round_trip(routes: Seq<Seq<Node>>, rx: int, ry: int, i: int, k: int, a: int, b: int)
    requires
        0 <= rx < routes.len(),
        0 <= ry < routes.len(),
        rx != ry,
        0 <= i < routes[rx].len(),
        0 <= k < routes[ry].len(),
        0 <= a < routes[rx].len(),
        0 <= b < routes[ry].len(),
    ensures
        swapped_routes(swapped_routes(routes, rx, ry, i, k, a, b), rx, ry, a, b, i, k) == routes,
{
    let once = swapped_routes(routes, rx, ry, i, k, a, b);
    let twice = swapped_routes(once, rx, ry, a, b, i, k);
    assert(once[rx][a] == routes[ry][k]);
    assert(once[ry][b] == routes[rx][i]);
    assert(once[rx].remove(a) =~= routes[rx].remove(i));
    assert(once[ry].remove(b) =~= routes[ry].remove(k));
    assert(twice[rx] =~= routes[rx]);
    assert(twice[ry] =~= routes[ry]);
    assert(twice =~= routes);
}

/// Every exchange between two different routes (the earlier one first)
/// that keeps both routes within capacity by their recorded loads, with
/// any insertion positions, is considered: no other restriction applies.
pub proof fn lemma_swap_option_exactly(instance: &Instance, sol: SolutionModel, ctx: ContextModel, rx: int, ry: int, i: int, k: int, a: int, b: int)
    ensures
        swap_option(instance, sol, ctx, rx, ry, i, k, a, b) <==> (0 <= rx < ry < ctx.routes.len() && 0 <= i < ctx.routes[rx].len()
            && 0 <= k < ctx.routes[ry].len() && 0 <= a < ctx.routes[rx].len() && 0 <= b < ctx.routes[ry].len() && ctx.loads[rx]
            - sol.load[ctx.routes[rx][i] as int] + sol.load[ctx.routes[ry][k] as int] <= instance.capacity && ctx.loads[ry]
            - sol.load[ctx.routes[ry][k] as int] + sol.load[ctx.routes[rx][i] as int] <= instance.capacity),
{
}

} // verus!
