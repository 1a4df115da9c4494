//! SdSwapStar operator implementation.
//!
//! Split Delivery SwapStar - allows splitting loads during exchange.
use vstd::prelude::*;

verus! {

use crate::Node;
use crate::cache::{Cache, CacheMap};
use crate::cost::{total_cost, lemma_objective_is_total_cost};
use crate::delta::Delta;
use crate::instance::Instance;
use crate::inter_operator::{InterOperator, visited_before4, calc_delta, customers_fit, gap_cost};
use crate::inter_operator::relocate::Relocate;
use crate::inter_operator::sd_swap_one_one::{
    sd_roles, sd11_candidate, sd11_routes, split_swap_gain, split_swap_applied,
    lemma_sd11, lemma_split_swap_cost, lemma_split_swap_keeps_feasibility, lemma_split_swap_route_deliveries,
};
use crate::model::{
    SolutionModel, ContextModel, routes_valid, route_linked, next_in, prev_in, gap_pred, gap_succ, lemma_linked_at,
    lemma_route_facts, lemma_route_step, routes_cover, loads_valid, within_capacity, load_sum, delivered,
    customer_loads, total_route_load,
};
use crate::random::Random;
use crate::route_context::RouteContext;
use crate::solution::{AlkaidSolution, objective_sum};

/// Move data for the SdSwapStar operator.
///
/// `node_x` is the node with the larger load, in `route_x`; its load becomes
/// `split_load`. `node_y`, in `route_y`, moves to its cheapest place in
/// `route_x`, between `predecessor_y` and `successor_y`; a new node serving
/// `node_x`'s customer with `node_y`'s load takes `node_y`'s place, between
/// `predecessor_x` and `successor_x`.
#[derive(Clone, Copy)]
struct SdSwapStarMove {
    /// Whether the routes were swapped during evaluation (for route ordering)
    #[allow(dead_code)]
    swapped: bool,
    route_x: Node,
    route_y: Node,
    node_x: Node,
    predecessor_x: Node,
    successor_x: Node,
    node_y: Node,
    predecessor_y: Node,
    successor_y: Node,
    split_load: i32,
}

/// SdSwapStar operator.
///
/// Split Delivery version of SwapStar. When exchanging nodes between routes,
/// allows splitting the load to maintain capacity constraints: the node with
/// the larger load keeps the difference of the two loads, the node with the
/// smaller load moves to its cheapest place in the other route, and a new
/// node serves the larger node's customer with the smaller load in the
/// smaller node's former place. Every route keeps its total load.
#[derive(Debug, Clone, Copy, Default)]
pub struct SdSwapStar;

/// The pair (position `i` of route `rx`, position `k` of route `ry`) has
/// different loads, and `j` is an insertion position in the route of the
/// larger node.
pub open spec fn sd_star_option(sol: SolutionModel, ctx: ContextModel, rx: int, ry: int, i: int, k: int, j: int) -> bool {
    let (rb, ib, rs, is) = sd_roles(sol, ctx, rx, ry, i, k);
    &&& sd11_candidate(sol, ctx, rx, ry, i, k)
    &&& 0 <= j <= ctx.routes[rb].len()
}

/// The change in travelled distance of the split swap of the pair with the
/// smaller node going to insertion position `j` of the larger node's route.
pub open spec fn sd_star_gain(instance: &Instance, sol: SolutionModel, ctx: ContextModel, rx: int, ry: int, i: int, k: int, j: int) -> int {
    let (rb, ib, rs, is) = sd_roles(sol, ctx, rx, ry, i, k);
    split_swap_gain(instance, sol, ctx, rb, ib, rs, is, j)
}

/// `mv` records the split swap of the pair with the smaller node going to
/// insertion position `j` of the larger node's route.
spec fn move_matches(mv: SdSwapStarMove, sol: SolutionModel, ctx: ContextModel, rx: int, ry: int, i: int, k: int, j: int) -> bool {
    let (rb, ib, rs, is) = sd_roles(sol, ctx, rx, ry, i, k);
    &&& mv.route_x == rb
    &&& mv.route_y == rs
    &&& mv.node_x == ctx.routes[rb][ib]
    &&& mv.node_y == ctx.routes[rs][is]
    &&& mv.predecessor_y == gap_pred(ctx.routes[rb], j)
    &&& mv.successor_y == gap_succ(ctx.routes[rb], j)
    &&& mv.predecessor_x == prev_in(ctx.routes[rs], is)
    &&& mv.successor_x == next_in(ctx.routes[rs], is)
    &&& mv.split_load == sol.load[ctx.routes[rb][ib] as int] - sol.load[ctx.routes[rs][is] as int]
}

/// What the search loops of [`SdSwapStar::apply`] keep: the model is
/// untouched and the best move so far is recorded.
spec fn sd_star_search_state(
    instance: &Instance,
    sol: SolutionModel,
    ctx: ContextModel,
    best_delta: Delta,
    best_move: SdSwapStarMove,
    bx: int,
    by: int,
    bi: int,
    bk: int,
    bj: int,
) -> bool {
    &&& instance.wf()
    &&& customers_fit(instance, sol)
    &&& routes_valid(sol, ctx)
    &&& sol.len() < 0x7fff_ffff
    &&& best_delta.counter >= 0
    &&& best_delta.value <= 0
    &&& best_delta.value < 0 ==> sd_star_option(sol, ctx, bx, by, bi, bk, bj) && sd_star_gain(instance, sol, ctx, bx, by, bi, bk, bj)
        == best_delta.value && move_matches(best_move, sol, ctx, bx, by, bi, bk, bj)
}

impl SdSwapStar {
    /// Applies a SD swap star move.
    fn do_sd_swap_star(
        mv: &SdSwapStarMove,
        solution: &mut AlkaidSolution,
        context: &mut RouteContext,
        Ghost(ib): Ghost<int>,
        Ghost(is): Ghost<int>,
        Ghost(pos): Ghost<int>,
    )
        requires
            routes_valid(old(solution)@, old(context)@),
            old(solution)@.len() < 0x7fff_ffff,
            mv.route_x < old(context)@.routes.len(),
            mv.route_y < old(context)@.routes.len(),
            mv.route_x != mv.route_y,
            0 <= ib < old(context)@.routes[mv.route_x as int].len(),
            0 <= is < old(context)@.routes[mv.route_y as int].len(),
            0 <= pos <= old(context)@.routes[mv.route_x as int].len(),
            mv.node_x == old(context)@.routes[mv.route_x as int][ib],
            mv.node_y == old(context)@.routes[mv.route_y as int][is],
            mv.predecessor_y == gap_pred(old(context)@.routes[mv.route_x as int], pos),
            mv.successor_y == gap_succ(old(context)@.routes[mv.route_x as int], pos),
            mv.predecessor_x == prev_in(old(context)@.routes[mv.route_y as int], is),
            mv.successor_x == next_in(old(context)@.routes[mv.route_y as int], is),
            0 <= mv.split_load,
        ensures
            final(context)@.routes == sd11_routes(
                old(context)@.routes,
                mv.route_x as int,
                mv.route_y as int,
                is,
                pos,
                old(solution)@.len() as Node,
            ),
            routes_valid(final(solution)@, final(context)@),
            final(solution)@.cust == old(solution)@.cust.push(old(solution)@.cust[mv.node_x as int]),
            final(solution)@.load == old(solution)@.load.update(mv.node_x as int, mv.split_load).push(
                old(solution)@.load[mv.node_y as int],
            ),
            final(context)@.loads == old(context)@.loads,
            final(context)@.tails == old(context)@.tails,
    {
        let ghost sol = solution@;
        let ghost ctx = context@;
        proof {
            lemma_sd11(sol, ctx, mv.route_x as int, ib, mv.route_y as int, is, pos, mv.split_load);
            lemma_linked_at(sol, ctx.routes[mv.route_y as int], is);
            assert(route_linked(sol, ctx.routes[mv.route_y as int])) by {
                lemma_route_facts(sol, ctx, mv.route_y as int);
            }
        }
        let predecessor_y = solution.predecessor(mv.node_y);
        let successor_y = solution.successor(mv.node_y);

        // Update route X: adjust load and reposition node_y
        solution.set_successor(0, context.head(mv.route_x));
        solution.set_load(mv.node_x, mv.split_load);
        solution.link(mv.predecessor_y, mv.node_y);
        solution.link(mv.node_y, mv.successor_y);
        context.set_head(mv.route_x, solution.successor(0));

        // Update route Y: remove old node_y, insert new node with remaining load
        solution.set_successor(0, context.head(mv.route_y));
        solution.link(predecessor_y, successor_y);
        let customer_x = solution.customer(mv.node_x);
        let load_y = solution.load(mv.node_y);
        solution.insert(customer_x, load_y, mv.predecessor_x, mv.successor_x);
        context.set_head(mv.route_y, solution.successor(0));
        context.set_route_model(
            Ghost(sd11_routes(ctx.routes, mv.route_x as int, mv.route_y as int, is, pos, sol.len() as Node)),
        );
        proof {
            let routes = sd11_routes(ctx.routes, mv.route_x as int, mv.route_y as int, is, pos, sol.len() as Node);
            assert(context@ =~= ContextModel {
                heads: ctx.heads.update(mv.route_x as int, context@.heads[mv.route_x as int]).update(
                    mv.route_y as int,
                    context@.heads[mv.route_y as int],
                ),
                routes,
                ..ctx
            });
        }
    }
}

impl InterOperator for SdSwapStar {
    /// Looks at every pair of nodes with different loads in two different
    /// routes and every place of the smaller node in the larger node's
    /// route, and performs the split swap that shortens the solution most,
    /// if any does.
    fn apply<C: Cache>(
        &self,
        instance: &Instance,
        solution: &mut AlkaidSolution,
        context: &mut RouteContext,
        random: &mut Random,
        _cache_map: &mut CacheMap<C>,
    ) -> (routes: Vec<Node>)
        ensures
            routes@.len() == 0 <==> forall|rx: int, ry: int, i: int, k: int, j: int|
                sd_star_option(old(solution)@, old(context)@, rx, ry, i, k, j) ==> #[trigger] sd_star_gain(
                    instance,
                    old(solution)@,
                    old(context)@,
                    rx,
                    ry,
                    i,
                    k,
                    j,
                ) >= 0,
            routes@.len() != 0 ==> exists|rx: int, ry: int, i: int, k: int, j: int|
                #![trigger sd_star_option(old(solution)@, old(context)@, rx, ry, i, k, j)]
                {
                    let (rb, ib, rs, is) = sd_roles(old(solution)@, old(context)@, rx, ry, i, k);
                    &&& sd_star_option(old(solution)@, old(context)@, rx, ry, i, k, j)
                    &&& sd_star_gain(instance, old(solution)@, old(context)@, rx, ry, i, k, j) < 0
                    &&& forall|a: int, b: int, p: int, q: int, l: int|
                        sd_star_option(old(solution)@, old(context)@, a, b, p, q, l) ==> sd_star_gain(
                            instance,
                            old(solution)@,
                            old(context)@,
                            rx,
                            ry,
                            i,
                            k,
                            j,
                        ) <= #[trigger] sd_star_gain(instance, old(solution)@, old(context)@, a, b, p, q, l)
                    &&& routes@ == seq![rb as Node, rs as Node]
                    &&& split_swap_applied(old(solution)@, old(context)@, final(solution)@, final(context)@, rb, ib, rs, is, j)
                    &&& total_cost(instance, final(solution)@, final(context)@.routes) == total_cost(
                        instance,
                        old(solution)@,
                        old(context)@.routes,
                    ) + sd_star_gain(instance, old(solution)@, old(context)@, rx, ry, i, k, j)
                },
            routes@.len() != 0 ==> total_cost(instance, final(solution)@, final(context)@.routes) < total_cost(
                instance,
                old(solution)@,
                old(context)@.routes,
            ),
    {
        let ghost sol = solution@;
        let ghost ctx = context@;
        let mut best_move = SdSwapStarMove {
            swapped: false,
            route_x: 0,
            route_y: 0,
            node_x: 0,
            predecessor_x: 0,
            successor_x: 0,
            node_y: 0,
            predecessor_y: 0,
            successor_y: 0,
            split_load: 0,
        };
        let mut best_delta = Delta::default();
        let ghost mut bx: int = 0;
        let ghost mut by: int = 0;
        let ghost mut bi: int = 0;
        let ghost mut bk: int = 0;
        let ghost mut bj: int = 0;

        let num_routes = context.num_routes();
        let mut route_x: Node = 0;
        while route_x < num_routes
            invariant
                sd_star_search_state(instance, sol, ctx, best_delta, best_move, bx, by, bi, bk, bj),
                solution@ == sol,
                context@ == ctx,
                num_routes == ctx.routes.len(),
                route_x <= num_routes,
                forall|a: int, b: int, p: int, q: int, l: int|
                    a < route_x && sd_star_option(sol, ctx, a, b, p, q, l) ==> best_delta.value
                        <= #[trigger] sd_star_gain(instance, sol, ctx, a, b, p, q, l),
            decreases num_routes - route_x,
        {
            let mut route_y: Node = route_x + 1;
            while route_y < num_routes
                invariant
                    sd_star_search_state(instance, sol, ctx, best_delta, best_move, bx, by, bi, bk, bj),
                    solution@ == sol,
                    context@ == ctx,
                    num_routes == ctx.routes.len(),
                    route_x < route_y <= num_routes,
                    forall|a: int, b: int, p: int, q: int, l: int|
                        visited_before4(a, b, p, q, route_x as int, route_y as int, 0, 0) && sd_star_option(sol, ctx, a, b, p, q, l)
                            ==> best_delta.value <= #[trigger] sd_star_gain(instance, sol, ctx, a, b, p, q, l),
                decreases num_routes - route_y,
            {
                let ghost rte_x = ctx.routes[route_x as int];
                let ghost rte_y = ctx.routes[route_y as int];
                proof {
                    lemma_route_facts(sol, ctx, route_x as int);
                    lemma_route_facts(sol, ctx, route_y as int);
                }
                let ghost mut i: int = 0;
                let mut node_x = context.head(route_x);

                while node_x != 0
                    invariant
                        sd_star_search_state(instance, sol, ctx, best_delta, best_move, bx, by, bi, bk, bj),
                        solution@ == sol,
                        context@ == ctx,
                        num_routes == ctx.routes.len(),
                        route_x < route_y < num_routes,
                        rte_x == ctx.routes[route_x as int],
                        rte_y == ctx.routes[route_y as int],
                        route_linked(sol, rte_x),
                        route_linked(sol, rte_y),
                        0 <= i <= rte_x.len(),
                        node_x == gap_succ(rte_x, i),
                        forall|a: int, b: int, p: int, q: int, l: int|
                            visited_before4(a, b, p, q, route_x as int, route_y as int, i, 0) && sd_star_option(sol, ctx, a, b, p, q, l)
                                ==> best_delta.value <= #[trigger] sd_star_gain(instance, sol, ctx, a, b, p, q, l),
                    decreases rte_x.len() - i,
                {
                    proof {
                        lemma_route_step(sol, rte_x, i);
                        lemma_linked_at(sol, rte_x, i);
                    }
                    let load_x = solution.load(node_x);

                    let ghost mut k: int = 0;
                    let mut node_y = context.head(route_y);
                    while node_y != 0
                        invariant
                            sd_star_search_state(instance, sol, ctx, best_delta, best_move, bx, by, bi, bk, bj),
                            solution@ == sol,
                            context@ == ctx,
                            num_routes == ctx.routes.len(),
                            route_x < route_y < num_routes,
                            rte_x == ctx.routes[route_x as int],
                            rte_y == ctx.routes[route_y as int],
                            route_linked(sol, rte_x),
                            route_linked(sol, rte_y),
                            0 <= i < rte_x.len(),
                            node_x == rte_x[i],
                            load_x == sol.load[node_x as int],
                            0 <= k <= rte_y.len(),
                            node_y == gap_succ(rte_y, k),
                            forall|a: int, b: int, p: int, q: int, l: int|
                                visited_before4(a, b, p, q, route_x as int, route_y as int, i, k) && sd_star_option(
                                    sol,
                                    ctx,
                                    a,
                                    b,
                                    p,
                                    q,
                                    l,
                                ) ==> best_delta.value <= #[trigger] sd_star_gain(instance, sol, ctx, a, b, p, q, l),
                        decreases rte_y.len() - k,
                    {
                        proof {
                            lemma_route_step(sol, rte_y, k);
                            lemma_linked_at(sol, rte_y, k);
                            lemma_linked_at(sol, rte_x, i);
                        }
                        let load_y = solution.load(node_y);

                        // Only process when loads differ (split scenario)
                        if load_x != load_y {
                            let (swapped, n_x, n_y, r_x, r_y, split_load) = if load_x > load_y {
                                (false, node_x, node_y, route_x, route_y, load_x - load_y)
                            } else {
                                (true, node_y, node_x, route_y, route_x, load_y - load_x)
                            };
                            let ghost (rb, ib, rs, is) = sd_roles(sol, ctx, route_x as int, route_y as int, i, k);
                            proof {
                                lemma_linked_at(sol, ctx.routes[rb], ib);
                                lemma_linked_at(sol, ctx.routes[rs], is);
                            }

                            let predecessor_y_local = solution.predecessor(n_y);
                            let successor_y_local = solution.successor(n_y);

                            let removal_y = -calc_delta(instance, solution, n_y, predecessor_y_local, successor_y_local);
                            let insert_x = calc_delta(instance, solution, n_x, predecessor_y_local, successor_y_local);

                            // Find best insertion for n_y in route containing n_x
                            let customer_y = solution.customer(n_y);
                            let (predecessor_slot, successor_slot, insert_y) = Relocate::find_best_insertion(
                                instance,
                                solution,
                                context,
                                r_x,
                                customer_y,
                                random,
                            );
                            let ghost jy = choose|j: int|
                                0 <= j <= ctx.routes[rb].len() && predecessor_slot == gap_pred(ctx.routes[rb], j)
                                    && successor_slot == gap_succ(ctx.routes[rb], j) && insert_y == gap_cost(
                                    instance,
                                    sol,
                                    ctx.routes[rb],
                                    j,
                                    customer_y,
                                );

                            let delta = removal_y + insert_x + insert_y;
                            proof {
                                assert(sd_star_option(sol, ctx, route_x as int, route_y as int, i, k, jy));
                                assert(delta == sd_star_gain(instance, sol, ctx, route_x as int, route_y as int, i, k, jy));
                                assert forall|l: int| 0 <= l <= ctx.routes[rb].len() implies delta <= #[trigger] sd_star_gain(
                                    instance,
                                    sol,
                                    ctx,
                                    route_x as int,
                                    route_y as int,
                                    i,
                                    k,
                                    l,
                                ) by {
                                    assert(insert_y <= gap_cost(instance, sol, ctx.routes[rb], l, customer_y));
                                }
                            }

                            if best_delta.update(delta, random) {
                                best_move = SdSwapStarMove {
                                    swapped,
                                    route_x: r_x,
                                    route_y: r_y,
                                    node_x: n_x,
                                    predecessor_y: predecessor_slot,
                                    successor_y: successor_slot,
                                    node_y: n_y,
                                    predecessor_x: predecessor_y_local,
                                    successor_x: successor_y_local,
                                    split_load,
                                };
                                proof {
                                    bx = route_x as int;
                                    by = route_y as int;
                                    bi = i;
                                    bk = k;
                                    bj = jy;
                                }
                            }
                        }

                        node_y = solution.successor(node_y);
                        proof {
                            k = k + 1;
                        }
                    }
                    proof {
                        lemma_route_step(sol, rte_y, k);
                    }

                    node_x = solution.successor(node_x);
                    proof {
                        i = i + 1;
                    }
                }
                proof {
                    lemma_route_step(sol, rte_x, i);
                }
                route_y += 1;
            }
            route_x += 1;
        }

        if best_delta.value < 0 {
            let ghost (rb, ib, rs, is) = sd_roles(sol, ctx, bx, by, bi, bk);
            Self::do_sd_swap_star(&best_move, solution, context, Ghost(ib), Ghost(is), Ghost(bj));
            proof {
                assert(split_swap_applied(sol, ctx, solution@, context@, rb, ib, rs, is, bj));
                lemma_split_swap_cost(instance, sol, ctx, solution@, rb, ib, rs, is, bj);
                lemma_route_facts(sol, ctx, rb);
                assert forall|v: int| 0 <= v < solution@.cust.len() implies #[trigger] solution@.cust[v] < instance.num_customers by {
                    if v < sol.cust.len() {
                        assert(solution@.cust[v] == sol.cust[v]);
                    } else {
                        lemma_linked_at(sol, ctx.routes[rb], ib);
                        assert(solution@.cust[v] == sol.cust[ctx.routes[rb][ib] as int]);
                    }
                }
            }
            vec![best_move.route_x, best_move.route_y]
        } else {
            Vec::new()
        }
    }
}

/// A split swap star keeps every customer's delivered load, keeps every
/// node routed (the new node included), and leaves the total load of every
/// route unchanged.
pub proof fn lemma_sd_star_keeps_feasibility(
    instance: &Instance,
    sol: SolutionModel,
    ctx: ContextModel,
    new_sol: SolutionModel,
    new_ctx: ContextModel,
    rx: int,
    ry: int,
    i: int,
    k: int,
    j: int,
)
    requires
        routes_valid(sol, ctx),
        sol.len() < 0x7fff_ffff,
        sd_star_option(sol, ctx, rx, ry, i, k, j),
        ({
            let (rb, ib, rs, is) = sd_roles(sol, ctx, rx, ry, i, k);
            split_swap_applied(sol, ctx, new_sol, new_ctx, rb, ib, rs, is, j)
        }),
    ensures
        forall|c: Node| #[trigger] delivered(new_sol, c, new_sol.len() as int) == delivered(sol, c, sol.len() as int),
        routes_cover(sol, ctx) ==> routes_cover(new_sol, new_ctx),
        forall|r: int| 0 <= r < new_ctx.routes.len() ==> #[trigger] load_sum(new_sol.load, new_ctx.routes[r]) == load_sum(
            sol.load,
            ctx.routes[r],
        ),
        loads_valid(sol, ctx) ==> loads_valid(new_sol, new_ctx),
        within_capacity(sol, ctx, instance.capacity as int) ==> within_capacity(new_sol, new_ctx, instance.capacity as int),
{
    let (rb, ib, rs, is) = sd_roles(sol, ctx, rx, ry, i, k);
    lemma_split_swap_keeps_feasibility(instance, sol, ctx, new_sol, new_ctx, rb, ib, rs, is, j);
}

/// On a solution whose routes visit every node, with no distance from the
/// depot to itself, a split swap star changes the objective by exactly its
/// gain.
pub proof fn lemma_sd_star_objective(
    instance: &Instance,
    sol: SolutionModel,
    ctx: ContextModel,
    new_sol: SolutionModel,
    new_ctx: ContextModel,
    rx: int,
    ry: int,
    i: int,
    k: int,
    j: int,
)
    requires
        routes_valid(sol, ctx),
        routes_cover(sol, ctx),
        sol.len() < 0x7fff_ffff,
        instance.dist(0, 0) == 0,
        sd_star_option(sol, ctx, rx, ry, i, k, j),
        ({
            let (rb, ib, rs, is) = sd_roles(sol, ctx, rx, ry, i, k);
            split_swap_applied(sol, ctx, new_sol, new_ctx, rb, ib, rs, is, j)
        }),
    ensures
        objective_sum(instance, new_sol, new_sol.len() as int) == objective_sum(instance, sol, sol.len() as int)
            + sd_star_gain(instance, sol, ctx, rx, ry, i, k, j),
{
    let (rb, ib, rs, is) = sd_roles(sol, ctx, rx, ry, i, k);
    lemma_sd_star_keeps_feasibility(instance, sol, ctx, new_sol, new_ctx, rx, ry, i, k, j);
    lemma_objective_is_total_cost(instance, sol, ctx);
    lemma_objective_is_total_cost(instance, new_sol, new_ctx);
    lemma_split_swap_cost(instance, sol, ctx, new_sol, rb, ib, rs, is, j);
}

/// A split swap star keeps, for every customer, the load that the nodes
/// along the routes deliver to it, adds exactly one node to the larger
/// node's route, and keeps node loads positive.
pub proof fn lemma_sd_star_route_deliveries(
    sol: SolutionModel,
    ctx: ContextModel,
    new_sol: SolutionModel,
    new_ctx: ContextModel,
    rx: int,
    ry: int,
    i: int,
    k: int,
    j: int,
)
    requires
        routes_valid(sol, ctx),
        sol.len() < 0x7fff_ffff,
        sd_star_option(sol, ctx, rx, ry, i, k, j),
        ({
            let (rb, ib, rs, is) = sd_roles(sol, ctx, rx, ry, i, k);
            split_swap_applied(sol, ctx, new_sol, new_ctx, rb, ib, rs, is, j)
        }),
    ensures
        forall|c: Node| #[trigger] total_route_load(customer_loads(new_sol, c), new_ctx.routes) == total_route_load(
            customer_loads(sol, c),
            ctx.routes,
        ),
        ({
            let (rb, ib, rs, is) = sd_roles(sol, ctx, rx, ry, i, k);
            &&& new_ctx.routes.len() == ctx.routes.len()
            &&& new_ctx.routes[rb].len() == ctx.routes[rb].len() + 1
            &&& new_ctx.routes[rs].len() == ctx.routes[rs].len()
            &&& forall|r: int| 0 <= r < ctx.routes.len() && r != rb && r != rs ==> #[trigger] new_ctx.routes[r] == ctx.routes[r]
        }),
        (forall|v: int| 1 <= v < sol.len() ==> #[trigger] sol.load[v] > 0) ==> (forall|v: int|
            1 <= v < new_sol.len() ==> #[trigger] new_sol.load[v] > 0),
{
    let (rb, ib, rs, is) = sd_roles(sol, ctx, rx, ry, i, k);
    lemma_split_swap_route_deliveries(sol, ctx, new_sol, new_ctx, rb, ib, rs, is, j);
}

/// Every pair of nodes in two different routes (the earlier one first) with
/// different loads, whichever route holds the larger load, with every
/// insertion position in the larger node's route, is considered; the larger
/// load plays the larger role, and the gain is exactly the change in
/// travelled distance of that split swap.
pub proof fn lemma_sd_star_considers_every_pair(
    instance: &Instance,
    sol: SolutionModel,
    ctx: ContextModel,
    new_sol: SolutionModel,
    rx: int,
    ry: int,
    i: int,
    k: int,
    j: int,
)
    requires
        routes_valid(sol, ctx),
        0 <= rx < ry < ctx.routes.len(),
        0 <= i < ctx.routes[rx].len(),
        0 <= k < ctx.routes[ry].len(),
        sol.load[ctx.routes[rx][i] as int] != sol.load[ctx.routes[ry][k] as int],
        0 <= j <= ctx.routes[if sol.load[ctx.routes[rx][i] as int] > sol.load[ctx.routes[ry][k] as int] { rx } else { ry }].len(),
        new_sol.cust == sol.cust.push(
            sol.cust[(if sol.load[ctx.routes[rx][i] as int] > sol.load[ctx.routes[ry][k] as int] {
                ctx.routes[rx][i]
            } else {
                ctx.routes[ry][k]
            }) as int],
        ),
    ensures
        sd_star_option(sol, ctx, rx, ry, i, k, j),
        ({
            let x_big = sol.load[ctx.routes[rx][i] as int] > sol.load[ctx.routes[ry][k] as int];
            let rb = if x_big { rx } else { ry };
            let ib = if x_big { i } else { k };
            let rs = if x_big { ry } else { rx };
            let is = if x_big { k } else { i };
            &&& sd_roles(sol, ctx, rx, ry, i, k) == (rb, ib, rs, is)
            &&& total_cost(instance, new_sol, sd11_routes(ctx.routes, rb, rs, is, j, sol.len() as Node)) == total_cost(
                instance,
                sol,
                ctx.routes,
            ) + sd_star_gain(instance, sol, ctx, rx, ry, i, k, j)
        }),
{
    let (rb, ib, rs, is) = sd_roles(sol, ctx, rx, ry, i, k);
    lemma_split_swap_cost(instance, sol, ctx, new_sol, rb, ib, rs, is, j);
}

} // verus!
