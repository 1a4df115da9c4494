//! Relocate operator implementation.
//!
//! Moves a single node from one route to another.
use vstd::prelude::*;

verus! {

use crate::Node;
use crate::cache::{Cache, CacheMap};
use crate::delta::Delta;
use crate::instance::Instance;
use crate::inter_operator::{InterOperator, calc_delta, calc_customer_delta, customers_fit, gap_cost};
use crate::cost::{detour, total_cost, lemma_total_cost_update, lemma_total_cost_same_customers, lemma_route_cost_insert, lemma_route_cost_remove};
use crate::model::{
    SolutionModel, ContextModel, routes_valid, route_linked, routes_disjoint, seq_distinct, valid_pos,
    next_in, prev_in, head_of, gap_pred, gap_succ, route_linked_except, lemma_linked_remove,
    lemma_linked_insert, lemma_linked_frame, lemma_disjoint_route_distinct, lemma_disjoint_from_origin, lemma_disjoint_at, lemma_linked_at, lemma_route_facts, lemma_route_step,
};
use crate::model::{routes_cover, routed, loads_valid, within_capacity, load_sum, delivered, lemma_delivered_frame, lemma_load_sum_insert, lemma_load_sum_remove, lemma_load_sum_frame};
use crate::random::Random;
use crate::route_context::RouteContext;
use crate::solution::{AlkaidSolution, objective_sum};
use crate::cost::lemma_objective_is_total_cost;

/// Move data for the Relocate operator: `node_x` leaves `route_x` and is
/// inserted between `predecessor_x` and `successor_x` in `route_y`.
#[derive(Clone, Copy)]
pub(crate) struct RelocateMove {
    pub(crate) route_x: Node,
    pub(crate) route_y: Node,
    pub(crate) node_x: Node,
    pub(crate) predecessor_x: Node,
    pub(crate) successor_x: Node,
}

/// Relocate operator.
///
/// Moves a single node from route X to route Y, finding the best
/// insertion position in route Y.
#[derive(Debug, Clone, Copy, Default)]
pub struct Relocate;

/// The routes after the node at position `i` of route `rx` moves to
/// insertion position `j` of route `ry`.
pub open spec fn relocated_routes(routes: Seq<Seq<Node>>, rx: int, ry: int, i: int, j: int) -> Seq<Seq<Node>> {
    routes.update(rx, routes[rx].remove(i)).update(ry, routes[ry].insert(j, routes[rx][i]))
}

/// Moving the node at position `i` of route `rx` to insertion position `j`
/// of another route `ry` keeps `ry` within capacity.
pub open spec fn relocate_candidate(
    instance: &Instance,
    sol: SolutionModel,
    ctx: ContextModel,
    rx: int,
    ry: int,
    i: int,
    j: int,
) -> bool {
    &&& 0 <= rx < ctx.routes.len()
    &&& 0 <= ry < ctx.routes.len()
    &&& rx != ry
    &&& 0 <= i < ctx.routes[rx].len()
    &&& 0 <= j <= ctx.routes[ry].len()
    &&& ctx.loads[ry] + sol.load[ctx.routes[rx][i] as int] <= instance.capacity
}

/// The change in travelled distance of that move.
pub open spec fn relocate_gain(
    instance: &Instance,
    sol: SolutionModel,
    ctx: ContextModel,
    rx: int,
    ry: int,
    i: int,
    j: int,
) -> int {
    let route = ctx.routes[rx];
    let x = route[i];
    gap_cost(instance, sol, ctx.routes[ry], j, sol.cust[x as int]) - detour(
        instance,
        sol.cust[prev_in(route, i) as int],
        sol.cust[x as int],
        sol.cust[next_in(route, i) as int],
    )
}

/// `(new_sol, new_ctx)` is `(sol, ctx)` after that move: the routes are
/// relocated and traced by the links, nothing else of the pool or the
/// route summaries changed.
pub open spec fn relocate_applied(
    sol: SolutionModel,
    ctx: ContextModel,
    new_sol: SolutionModel,
    new_ctx: ContextModel,
    rx: int,
    ry: int,
    i: int,
    j: int,
) -> bool {
    &&& new_ctx.routes == relocated_routes(ctx.routes, rx, ry, i, j)
    &&& routes_valid(new_sol, new_ctx)
    &&& new_sol.cust == sol.cust
    &&& new_sol.load == sol.load
    &&& new_ctx.loads == ctx.loads
    &&& new_ctx.tails == ctx.tails
}

/// `(a, b, k)` comes before `(x, y, i)` in the order the search visits them.
pub open spec fn visited_before(a: int, b: int, k: int, x: int, y: int, i: int) -> bool {
    a < x || (a == x && b < y) || (a == x && b == y && k < i)
}

/// The writes of a relocation: the depot's successor is set to the head of
/// route x, the neighbours `px`, `sx` of the moved node `x` are linked, the
/// depot's successor is set to the head of route y, and `x` is linked
/// between `p` and `s`.
pub open spec fn relocate_writes(
    sol: SolutionModel,
    hx: Node,
    px: Node,
    sx: Node,
    hy: Node,
    p: Node,
    x: Node,
    s: Node,
) -> SolutionModel {
    sol.with_succ(0, hx).link(px, sx).with_succ(0, hy).link(p, x).link(x, s)
}

/// Route x without its node is traced by the final links.
proof fn lemma_relocate_route_x(sol: SolutionModel, route_x: Seq<Node>, i: int, hx: Node, hy: Node, p: Node, s: Node)
    requires
        sol.pred.len() == sol.succ.len(),
        route_linked(sol, route_x),
        seq_distinct(route_x),
        0 <= i < route_x.len(),
        forall|k: int| 0 <= k < route_x.len() ==> #[trigger] route_x[k] != p && route_x[k] != s,
        hx < sol.succ.len(),
        hy < sol.succ.len(),
        p < sol.succ.len(),
        s < sol.succ.len(),
    ensures
        route_linked(
            relocate_writes(sol, hx, prev_in(route_x, i), next_in(route_x, i), hy, p, route_x[i], s),
            route_x.remove(i),
        ),
{
    reveal(route_linked);
    let x = route_x[i];
    let s1 = sol.with_succ(0, hx);
    let s2 = s1.link(prev_in(route_x, i), next_in(route_x, i));
    let s5 = relocate_writes(sol, hx, prev_in(route_x, i), next_in(route_x, i), hy, p, x, s);
    let new_x = route_x.remove(i);
    assert(route_linked_except(s1, route_x, i));
    lemma_linked_remove(s1, route_x, i);
    assert forall|k: int| 0 <= k < new_x.len() implies s5.succ[#[trigger] new_x[k] as int] == s2.succ[new_x[k] as int]
        && s5.pred[new_x[k] as int] == s2.pred[new_x[k] as int] by {
        let kk = if k < i { k } else { k + 1 };
        assert(new_x[k] == route_x[kk]);
        assert(route_x[kk] != x);
        assert(route_x[kk] != p && route_x[kk] != s);
    }
    lemma_linked_frame(s2, s5, new_x);
}

/// Route y with the node inserted is traced by the final links.
proof fn lemma_relocate_route_y(sol: SolutionModel, route_y: Seq<Node>, j: int, x: Node, hx: Node, px: Node, sx: Node, hy: Node)
    requires
        sol.pred.len() == sol.succ.len(),
        route_linked(sol, route_y),
        seq_distinct(route_y),
        0 <= j <= route_y.len(),
        0 < x < sol.succ.len(),
        forall|k: int| 0 <= k < route_y.len() ==> #[trigger] route_y[k] != x && route_y[k] != px && route_y[k] != sx,
        hx < sol.succ.len(),
        hy < sol.succ.len(),
        px < sol.succ.len(),
        sx < sol.succ.len(),
    ensures
        route_linked(
            relocate_writes(sol, hx, px, sx, hy, gap_pred(route_y, j), x, gap_succ(route_y, j)),
            route_y.insert(j, x),
        ),
{
    reveal(route_linked);
    let s3 = sol.with_succ(0, hx).link(px, sx).with_succ(0, hy);
    assert forall|k: int| 0 <= k < route_y.len() implies s3.succ[#[trigger] route_y[k] as int] == sol.succ[route_y[k] as int]
        && s3.pred[route_y[k] as int] == sol.pred[route_y[k] as int] by {
        assert(route_y[k] != px && route_y[k] != sx);
    }
    lemma_linked_frame(sol, s3, route_y);
    lemma_linked_insert(s3, route_y, j, x);
}

/// A route that holds none of the written nodes keeps its links.
proof fn lemma_relocate_route_other(
    sol: SolutionModel,
    route: Seq<Node>,
    hx: Node,
    px: Node,
    sx: Node,
    hy: Node,
    p: Node,
    x: Node,
    s: Node,
)
    requires
        sol.pred.len() == sol.succ.len(),
        hx < sol.succ.len(),
        hy < sol.succ.len(),
        px < sol.succ.len(),
        sx < sol.succ.len(),
        p < sol.succ.len(),
        x < sol.succ.len(),
        s < sol.succ.len(),
        route_linked(sol, route),
        forall|k: int|
            0 <= k < route.len() ==> #[trigger] route[k] != px && route[k] != sx && route[k] != p && route[k]
                != x && route[k] != s,
    ensures
        route_linked(relocate_writes(sol, hx, px, sx, hy, p, x, s), route),
{
    reveal(route_linked);
    let s5 = relocate_writes(sol, hx, px, sx, hy, p, x, s);
    assert forall|k: int| 0 <= k < route.len() implies s5.succ[#[trigger] route[k] as int] == sol.succ[route[k] as int]
        && s5.pred[route[k] as int] == sol.pred[route[k] as int] by {
        assert(route[k] != px && route[k] != sx && route[k] != p && route[k] != x && route[k] != s);
    }
    lemma_linked_frame(sol, s5, route);
}

/// The relocated routes share no node.
proof fn lemma_relocate_disjoint(routes: Seq<Seq<Node>>, rx: int, ry: int, i: int, j: int)
    requires
        routes_disjoint(routes),
        0 <= rx < routes.len(),
        0 <= ry < routes.len(),
        rx != ry,
        0 <= i < routes[rx].len(),
        0 <= j <= routes[ry].len(),
    ensures
        routes_disjoint(relocated_routes(routes, rx, ry, i, j)),
{
    let new_routes = relocated_routes(routes, rx, ry, i, j);
    let origin = |r: int, k: int|
        if r == rx {
            (rx, if k < i { k } else { k + 1 })
        } else if r == ry {
            if k < j {
                (ry, k)
            } else if k == j {
                (rx, i)
            } else {
                (ry, k - 1)
            }
        } else {
            (r, k)
        };
    assert forall|r: int, k: int| valid_pos(new_routes, r, k) && !(r == -1 && k == -1) implies {
        &&& valid_pos(routes, origin(r, k).0, origin(r, k).1)
        &&& routes[origin(r, k).0][origin(r, k).1] == #[trigger] new_routes[r][k]
        &&& (valid_pos(new_routes, -1, -1) ==> new_routes[r][k] != new_routes[-1][-1])
    } by {
        if r != rx && r != ry {
            assert(new_routes[r] == routes[r]);
        }
    }
    lemma_disjoint_from_origin(routes, new_routes, origin, -1, -1);
}

/// The links that relocation writes produce the relocated routes, with the
/// new heads read off the depot's successor.
#[verifier::rlimit(60)]
proof fn lemma_relocate(sol: SolutionModel, ctx: ContextModel, rx: int, ry: int, i: int, j: int)
    requires
        routes_valid(sol, ctx),
        0 <= rx < ctx.routes.len(),
        0 <= ry < ctx.routes.len(),
        rx != ry,
        0 <= i < ctx.routes[rx].len(),
        0 <= j <= ctx.routes[ry].len(),
    ensures
        ({
            let route_x = ctx.routes[rx];
            let route_y = ctx.routes[ry];
            let x = route_x[i];
            let px = prev_in(route_x, i);
            let sx = next_in(route_x, i);
            let s2 = sol.with_succ(0, ctx.heads[rx]).link(px, sx);
            let s5 = relocate_writes(sol, ctx.heads[rx], px, sx, ctx.heads[ry], gap_pred(route_y, j), x, gap_succ(route_y, j));
            let routes = relocated_routes(ctx.routes, rx, ry, i, j);
            let heads = ctx.heads.update(rx, s2.succ[0]).update(ry, s5.succ[0]);
            &&& ctx.heads[rx] < sol.len()
            &&& ctx.heads[ry] < sol.len()
            &&& 0 < x < sol.len()
            &&& gap_pred(route_y, j) < sol.len()
            &&& gap_succ(route_y, j) < sol.len()
            &&& s2.succ[0] == head_of(routes[rx])
            &&& s5.succ[0] == head_of(routes[ry])
            &&& routes_valid(s5, ContextModel { heads, routes, ..ctx })
        }),
{
    let route_x = ctx.routes[rx];
    let route_y = ctx.routes[ry];
    let x = route_x[i];
    let px = prev_in(route_x, i);
    let sx = next_in(route_x, i);
    let p = gap_pred(route_y, j);
    let s = gap_succ(route_y, j);
    let hx = ctx.heads[rx];
    let hy = ctx.heads[ry];
    let s2 = sol.with_succ(0, hx).link(px, sx);
    let s5 = relocate_writes(sol, hx, px, sx, hy, p, x, s);
    let routes = relocated_routes(ctx.routes, rx, ry, i, j);
    let heads = ctx.heads.update(rx, s2.succ[0]).update(ry, s5.succ[0]);
    let new_ctx = ContextModel { heads, routes, ..ctx };
    lemma_disjoint_route_distinct(ctx.routes, rx);
    lemma_disjoint_route_distinct(ctx.routes, ry);
    assert(route_linked(sol, route_x));
    assert(route_linked(sol, route_y));
    lemma_linked_at(sol, route_x, i);
    assert(hx < sol.len() && hy < sol.len()) by {
        assert(ctx.heads[rx] == head_of(route_x));
        assert(ctx.heads[ry] == head_of(route_y));
        if route_x.len() > 0 { lemma_linked_at(sol, route_x, 0); }
        if route_y.len() > 0 { lemma_linked_at(sol, route_y, 0); }
    }
    if i > 0 { lemma_linked_at(sol, route_x, i - 1); }
    if i + 1 < route_x.len() { lemma_linked_at(sol, route_x, i + 1); }
    if j > 0 { lemma_linked_at(sol, route_y, j - 1); }
    if j < route_y.len() { lemma_linked_at(sol, route_y, j); }
    // Route x.
    assert forall|k: int| 0 <= k < route_x.len() implies #[trigger] route_x[k] != p && route_x[k] != s by {
        lemma_linked_at(sol, route_x, k);
        if j > 0 {
            lemma_disjoint_at(ctx.routes, rx, k, ry, j - 1);
        }
        if j < route_y.len() {
            lemma_disjoint_at(ctx.routes, rx, k, ry, j);
        }
    }
    lemma_relocate_route_x(sol, route_x, i, hx, hy, p, s);
    // Route y.
    assert forall|k: int| 0 <= k < route_y.len() implies #[trigger] route_y[k] != x && route_y[k] != px && route_y[k] != sx by {
        lemma_linked_at(sol, route_y, k);
        lemma_disjoint_at(ctx.routes, ry, k, rx, i);
        if i > 0 {
            lemma_disjoint_at(ctx.routes, ry, k, rx, i - 1);
        }
        if i + 1 < route_x.len() {
            lemma_disjoint_at(ctx.routes, ry, k, rx, i + 1);
        }
    }
    lemma_relocate_route_y(sol, route_y, j, x, hx, px, sx, hy);
    // Other routes.
    assert forall|r: int| 0 <= r < routes.len() implies route_linked(s5, #[trigger] routes[r]) by {
        if r != rx && r != ry {
            let route = ctx.routes[r];
            assert(route_linked(sol, route));
            assert forall|k: int| 0 <= k < route.len() implies #[trigger] route[k] != px && route[k] != sx && route[k]
                != p && route[k] != x && route[k] != s by {
                lemma_linked_at(sol, route, k);
                lemma_disjoint_at(ctx.routes, r, k, rx, i);
                if i > 0 {
                    lemma_disjoint_at(ctx.routes, r, k, rx, i - 1);
                }
                if i + 1 < route_x.len() {
                    lemma_disjoint_at(ctx.routes, r, k, rx, i + 1);
                }
                if j > 0 {
                    lemma_disjoint_at(ctx.routes, r, k, ry, j - 1);
                }
                if j < route_y.len() {
                    lemma_disjoint_at(ctx.routes, r, k, ry, j);
                }
            }
            lemma_relocate_route_other(sol, route, hx, px, sx, hy, p, x, s);
        }
    }
    // Heads.
    if i > 0 {
        assert(route_x.remove(i)[0] == route_x[0]);
    } else if i + 1 < route_x.len() {
        assert(route_x.remove(i)[0] == route_x[1]);
    }
    if j > 0 {
        assert(route_y.insert(j, x)[0] == route_y[0]);
    }
    assert forall|r: int| 0 <= r < routes.len() implies #[trigger] new_ctx.heads[r] == head_of(new_ctx.routes[r]) by {
    }
    lemma_relocate_disjoint(ctx.routes, rx, ry, i, j);
}

/// Relocating changes the travelled distance by exactly the move's gain.
pub proof fn lemma_relocate_cost(instance: &Instance, sol: SolutionModel, ctx: ContextModel, rx: int, ry: int, i: int, j: int)
    requires
        sol.wf(),
        0 <= rx < ctx.routes.len(),
        0 <= ry < ctx.routes.len(),
        rx != ry,
        0 <= i < ctx.routes[rx].len(),
        0 <= j <= ctx.routes[ry].len(),
    ensures
        total_cost(instance, sol, relocated_routes(ctx.routes, rx, ry, i, j)) == total_cost(instance, sol, ctx.routes)
            + relocate_gain(instance, sol, ctx, rx, ry, i, j),
{
    let routes = ctx.routes;
    let route_x = routes[rx];
    let route_y = routes[ry];
    let x = route_x[i];
    let mid = routes.update(rx, route_x.remove(i));
    lemma_total_cost_update(instance, sol, routes, rx, route_x.remove(i));
    lemma_total_cost_update(instance, sol, mid, ry, route_y.insert(j, x));
    lemma_route_cost_remove(instance, sol, route_x, i);
    lemma_route_cost_insert(instance, sol, route_y, j, x);
}

/// `mv` records the move of the node at position `i` of route `rx` to
/// insertion position `j` of route `ry`.
spec fn move_matches(mv: RelocateMove, ctx: ContextModel, rx: int, ry: int, i: int, j: int) -> bool {
    &&& mv.route_x == rx
    &&& mv.route_y == ry
    &&& mv.node_x == ctx.routes[rx][i]
    &&& mv.predecessor_x == gap_pred(ctx.routes[ry], j)
    &&& mv.successor_x == gap_succ(ctx.routes[ry], j)
}

impl Relocate {
    /// Finds the cheapest insertion position for `customer` in `route_y`,
    /// ties broken uniformly at random; returns the nodes around it and the
    /// extra distance.
    pub(crate) fn find_best_insertion(
        instance: &Instance,
        solution: &AlkaidSolution,
        context: &RouteContext,
        route_y: Node,
        customer: Node,
        random: &mut Random,
    ) -> (res: (Node, Node, i64))
        requires
            instance.wf(),
            customers_fit(instance, solution@),
            routes_valid(solution@, context@),
            route_y < context@.routes.len(),
            customer < instance.num_customers,
        ensures
            exists|j: int|
                0 <= j <= context@.routes[route_y as int].len() && res.0 == gap_pred(context@.routes[route_y as int], j)
                    && res.1 == gap_succ(context@.routes[route_y as int], j) && res.2 == gap_cost(
                    instance,
                    solution@,
                    context@.routes[route_y as int],
                    j,
                    customer,
                ),
            forall|j: int|
                0 <= j <= context@.routes[route_y as int].len() ==> res.2 <= #[trigger] gap_cost(
                    instance,
                    solution@,
                    context@.routes[route_y as int],
                    j,
                    customer,
                ),
    {
        let ghost route = context@.routes[route_y as int];
        let ghost sol = solution@;
        proof {
            lemma_route_facts(solution@, context@, route_y as int);
        }
        let mut best_pred: Node = 0;
        let mut best_succ: Node = context.head(route_y);
        let mut best_delta: i64 = calc_customer_delta(instance, solution, customer, 0, context.head(route_y));
        let mut count: i32 = 1;
        let ghost mut k: int = 0;
        let ghost mut jb: int = 0;

        let mut node: Node = context.head(route_y);
        while node != 0
            invariant
                instance.wf(),
                customers_fit(instance, sol),
                sol == solution@,
                sol.wf(),
                route_linked(sol, route),
                route.len() < sol.len(),
                sol.len() <= 0x7fff_ffff,
                customer < instance.num_customers,
                0 <= k <= route.len(),
                node == gap_succ(route, k),
                0 <= jb <= k,
                best_pred == gap_pred(route, jb),
                best_succ == gap_succ(route, jb),
                best_delta == gap_cost(instance, sol, route, jb, customer),
                forall|j: int| 0 <= j <= k ==> best_delta <= #[trigger] gap_cost(instance, sol, route, j, customer),
                1 <= count <= k + 1,
            decreases route.len() - k,
        {
            proof {
                lemma_route_step(sol, route, k);
                lemma_route_step(sol, route, k + 1);
            }
            let succ = solution.successor(node);
            let delta = calc_customer_delta(instance, solution, customer, node, succ);
            assert(delta == gap_cost(instance, sol, route, k + 1, customer));
            if delta < best_delta {
                best_delta = delta;
                best_pred = node;
                best_succ = succ;
                count = 1;
                proof {
                    jb = k + 1;
                }
            } else if delta == best_delta {
                count += 1;
                if random.next_int(1, count) == 1 {
                    best_pred = node;
                    best_succ = succ;
                    proof {
                        jb = k + 1;
                    }
                }
            }
            node = succ;
            proof {
                k = k + 1;
            }
        }
        proof {
            lemma_route_step(sol, route, k);
        }
        (best_pred, best_succ, best_delta)
    }

    /// Applies a relocate move.
    pub(crate) fn do_relocate(
        mv: &RelocateMove,
        solution: &mut AlkaidSolution,
        context: &mut RouteContext,
        Ghost(i): Ghost<int>,
        Ghost(j): Ghost<int>,
    )
        requires
            routes_valid(old(solution)@, old(context)@),
            mv.route_x < old(context)@.routes.len(),
            mv.route_y < old(context)@.routes.len(),
            mv.route_x != mv.route_y,
            0 <= i < old(context)@.routes[mv.route_x as int].len(),
            0 <= j <= old(context)@.routes[mv.route_y as int].len(),
            mv.node_x == old(context)@.routes[mv.route_x as int][i],
            mv.predecessor_x == gap_pred(old(context)@.routes[mv.route_y as int], j),
            mv.successor_x == gap_succ(old(context)@.routes[mv.route_y as int], j),
        ensures
            relocate_applied(
                old(solution)@,
                old(context)@,
                final(solution)@,
                final(context)@,
                mv.route_x as int,
                mv.route_y as int,
                i,
                j,
            ),
    {
        let ghost sol = solution@;
        let ghost ctx = context@;
        proof {
            lemma_relocate(sol, ctx, mv.route_x as int, mv.route_y as int, i, j);
            assert(route_linked(sol, ctx.routes[mv.route_x as int]));
            lemma_linked_at(sol, ctx.routes[mv.route_x as int], i);
            assert(ctx.routes[mv.route_x as int][i] == mv.node_x);
        }
        let predecessor_x = solution.predecessor(mv.node_x);
        let successor_x = solution.successor(mv.node_x);

        // Remove from route X
        solution.set_successor(0, context.head(mv.route_x));
        solution.link(predecessor_x, successor_x);
        context.set_head(mv.route_x, solution.successor(0));

        // Insert into route Y
        proof {
            assert(route_linked(sol, ctx.routes[mv.route_y as int]));
            if j > 0 {
                lemma_linked_at(sol, ctx.routes[mv.route_y as int], j - 1);
            }
            if j < ctx.routes[mv.route_y as int].len() {
                lemma_linked_at(sol, ctx.routes[mv.route_y as int], j);
            }
        }
        solution.set_successor(0, context.head(mv.route_y));
        solution.link(mv.predecessor_x, mv.node_x);
        solution.link(mv.node_x, mv.successor_x);
        context.set_head(mv.route_y, solution.successor(0));
        context.set_route_model(
            Ghost(relocated_routes(ctx.routes, mv.route_x as int, mv.route_y as int, i, j)),
        );
        proof {
            let routes = relocated_routes(ctx.routes, mv.route_x as int, mv.route_y as int, i, j);
            assert(context@ =~= ContextModel {
                heads: ctx.heads.update(mv.route_x as int, context@.heads[mv.route_x as int]).update(
                    mv.route_y as int,
                    context@.heads[mv.route_y as int],
                ),
                routes,
                ..ctx
            });
        }
    }
}

impl InterOperator for Relocate {
    /// Looks at every node of every route and every insertion position in
    /// every other route with room for its load, and performs the move that
    /// shortens the solution most, if any does.
    fn apply<C: Cache>(
        &self,
        instance: &Instance,
        solution: &mut AlkaidSolution,
        context: &mut RouteContext,
        random: &mut Random,
        _cache_map: &mut CacheMap<C>,
    ) -> (routes: Vec<Node>)
        ensures
            routes@.len() == 0 <==> forall|rx: int, ry: int, i: int, j: int|
                relocate_candidate(instance, old(solution)@, old(context)@, rx, ry, i, j) ==> #[trigger] relocate_gain(
                    instance,
                    old(solution)@,
                    old(context)@,
                    rx,
                    ry,
                    i,
                    j,
                ) >= 0,
            routes@.len() != 0 ==> exists|rx: int, ry: int, i: int, j: int|
                {
                    &&& relocate_candidate(instance, old(solution)@, old(context)@, rx, ry, i, j)
                    &&& relocate_gain(instance, old(solution)@, old(context)@, rx, ry, i, j) < 0
                    &&& forall|a: int, b: int, k: int, l: int|
                        relocate_candidate(instance, old(solution)@, old(context)@, a, b, k, l) ==> relocate_gain(
                            instance,
                            old(solution)@,
                            old(context)@,
                            rx,
                            ry,
                            i,
                            j,
                        ) <= #[trigger] relocate_gain(instance, old(solution)@, old(context)@, a, b, k, l)
                    &&& routes@ == seq![rx as Node, ry as Node]
                    &&& relocate_applied(old(solution)@, old(context)@, final(solution)@, final(context)@, rx, ry, i, j)
                    &&& total_cost(instance, final(solution)@, final(context)@.routes) == total_cost(
                        instance,
                        old(solution)@,
                        old(context)@.routes,
                    ) + relocate_gain(instance, old(solution)@, old(context)@, rx, ry, i, j)
                },
            routes@.len() != 0 ==> total_cost(instance, final(solution)@, final(context)@.routes) < total_cost(
                instance,
                old(solution)@,
                old(context)@.routes,
            ),
    {
        let ghost sol = solution@;
        let ghost ctx = context@;
        let mut best_move = RelocateMove { route_x: 0, route_y: 0, node_x: 0, predecessor_x: 0, successor_x: 0 };
        let mut best_delta = Delta::default();
        let ghost mut bx: int = 0;
        let ghost mut by: int = 0;
        let ghost mut bi: int = 0;
        let ghost mut bj: int = 0;

        let num_routes = context.num_routes();
        let mut route_x: Node = 0;
        while route_x < num_routes
            invariant
                instance.wf(),
                customers_fit(instance, sol),
                routes_valid(sol, ctx),
                solution@ == sol,
                context@ == ctx,
                num_routes == ctx.routes.len(),
                route_x <= num_routes,
                best_delta.counter >= 0,
                best_delta.value <= 0,
                forall|a: int, b: int, k: int, l: int|
                    a < route_x && relocate_candidate(instance, sol, ctx, a, b, k, l) ==> best_delta.value
                        <= #[trigger] relocate_gain(instance, sol, ctx, a, b, k, l),
                best_delta.value < 0 ==> relocate_candidate(instance, sol, ctx, bx, by, bi, bj) && relocate_gain(
                    instance,
                    sol,
                    ctx,
                    bx,
                    by,
                    bi,
                    bj,
                ) == best_delta.value && move_matches(best_move, ctx, bx, by, bi, bj),
            decreases num_routes - route_x,
        {
            let mut route_y: Node = 0;
            while route_y < num_routes
                invariant
                    instance.wf(),
                    customers_fit(instance, sol),
                    routes_valid(sol, ctx),
                    solution@ == sol,
                    context@ == ctx,
                    num_routes == ctx.routes.len(),
                    route_x < num_routes,
                    route_y <= num_routes,
                    best_delta.counter >= 0,
                    best_delta.value <= 0,
                    forall|a: int, b: int, k: int, l: int|
                        visited_before(a, b, k, route_x as int, route_y as int, 0) && relocate_candidate(
                            instance,
                            sol,
                            ctx,
                            a,
                            b,
                            k,
                            l,
                        ) ==> best_delta.value <= #[trigger] relocate_gain(instance, sol, ctx, a, b, k, l),
                    best_delta.value < 0 ==> relocate_candidate(instance, sol, ctx, bx, by, bi, bj) && relocate_gain(
                        instance,
                        sol,
                        ctx,
                        bx,
                        by,
                        bi,
                        bj,
                    ) == best_delta.value && move_matches(best_move, ctx, bx, by, bi, bj),
                decreases num_routes - route_y,
            {
                if route_x != route_y {
                    let ghost route = ctx.routes[route_x as int];
                    proof {
                        lemma_route_facts(sol, ctx, route_x as int);
                    }
                    let ghost mut i: int = 0;
                    let mut node_x = context.head(route_x);
                    while node_x != 0
                        invariant
                            instance.wf(),
                            customers_fit(instance, sol),
                            routes_valid(sol, ctx),
                            solution@ == sol,
                            context@ == ctx,
                            num_routes == ctx.routes.len(),
                            route_x < num_routes,
                            route_y < num_routes,
                            route_x != route_y,
                            route == ctx.routes[route_x as int],
                            route_linked(sol, route),
                            0 <= i <= route.len(),
                            node_x == gap_succ(route, i),
                            best_delta.counter >= 0,
                            best_delta.value <= 0,
                            forall|a: int, b: int, k: int, l: int|
                                visited_before(a, b, k, route_x as int, route_y as int, i) && relocate_candidate(
                                    instance,
                                    sol,
                                    ctx,
                                    a,
                                    b,
                                    k,
                                    l,
                                ) ==> best_delta.value <= #[trigger] relocate_gain(instance, sol, ctx, a, b, k, l),
                            best_delta.value < 0 ==> relocate_candidate(instance, sol, ctx, bx, by, bi, bj)
                                && relocate_gain(instance, sol, ctx, bx, by, bi, bj) == best_delta.value
                                && move_matches(best_move, ctx, bx, by, bi, bj),
                        decreases route.len() - i,
                    {
                        proof {
                            lemma_route_step(sol, route, i);
                            lemma_linked_at(sol, route, i);
                        }
                        // Check capacity constraint
                        if context.load(route_y) as i64 + solution.load(node_x) as i64 <= instance.capacity as i64 {
                            let customer_x = solution.customer(node_x);
                            let (pred, succ, insertion_delta) = Self::find_best_insertion(
                                instance,
                                solution,
                                context,
                                route_y,
                                customer_x,
                                random,
                            );
                            let ghost j = choose|j: int|
                                0 <= j <= ctx.routes[route_y as int].len() && pred == gap_pred(ctx.routes[route_y as int], j)
                                    && succ == gap_succ(ctx.routes[route_y as int], j) && insertion_delta == gap_cost(
                                    instance,
                                    sol,
                                    ctx.routes[route_y as int],
                                    j,
                                    customer_x,
                                );

                            let predecessor_x = solution.predecessor(node_x);
                            let successor_x = solution.successor(node_x);
                            let removal_delta = -calc_delta(instance, solution, node_x, predecessor_x, successor_x);

                            let delta = insertion_delta + removal_delta;
                            proof {
                                assert(relocate_candidate(instance, sol, ctx, route_x as int, route_y as int, i, j));
                                assert(delta == relocate_gain(instance, sol, ctx, route_x as int, route_y as int, i, j));
                                assert forall|l: int| relocate_candidate(instance, sol, ctx, route_x as int, route_y as int, i, l)
                                    implies delta <= #[trigger] relocate_gain(instance, sol, ctx, route_x as int, route_y as int, i, l) by {
                                    assert(insertion_delta <= gap_cost(instance, sol, ctx.routes[route_y as int], l, customer_x));
                                }
                            }

                            if best_delta.update(delta, random) {
                                best_move = RelocateMove {
                                    route_x,
                                    route_y,
                                    node_x,
                                    predecessor_x: pred,
                                    successor_x: succ,
                                };
                                proof {
                                    bx = route_x as int;
                                    by = route_y as int;
                                    bi = i;
                                    bj = j;
                                }
                            }
                        }
                        node_x = solution.successor(node_x);
                        proof {
                            i = i + 1;
                        }
                    }
                    proof {
                        lemma_route_step(sol, route, i);
                    }
                }
                route_y += 1;
            }
            route_x += 1;
        }

        if best_delta.value < 0 {
            Self::do_relocate(&best_move, solution, context, Ghost(bi), Ghost(bj));
            proof {
                assert(relocate_applied(sol, ctx, solution@, context@, bx, by, bi, bj));
                lemma_relocate_cost(instance, sol, ctx, bx, by, bi, bj);
                assert(solution@.cust == sol.cust);
                assert(total_cost(instance, solution@, context@.routes) == total_cost(instance, sol, context@.routes)) by {
                    lemma_total_cost_same_customers(instance, sol, solution@, context@.routes);
                }
            }
            vec![best_move.route_x, best_move.route_y]
        } else {
            Vec::new()
        }
    }
}

/// A relocation keeps the delivered loads, keeps every node routed, keeps
/// exact the recorded loads of the routes it does not touch, and, when the
/// recorded loads are exact, keeps every route within capacity.
pub proof fn lemma_relocate_keeps_feasibility(
    instance: &Instance,
    sol: SolutionModel,
    ctx: ContextModel,
    new_sol: SolutionModel,
    new_ctx: ContextModel,
    rx: int,
    ry: int,
    i: int,
    j: int,
)
    requires
        routes_valid(sol, ctx),
        relocate_candidate(instance, sol, ctx, rx, ry, i, j),
        relocate_applied(sol, ctx, new_sol, new_ctx, rx, ry, i, j),
    ensures
        forall|c: Node| #[trigger] delivered(new_sol, c, new_sol.len() as int) == delivered(sol, c, sol.len() as int),
        routes_cover(sol, ctx) ==> routes_cover(new_sol, new_ctx),
        loads_valid(sol, ctx) ==> forall|r: int|
            0 <= r < new_ctx.routes.len() && r != rx && r != ry ==> #[trigger] new_ctx.loads[r] == load_sum(
                new_sol.load,
                new_ctx.routes[r],
            ),
        loads_valid(sol, ctx) && within_capacity(sol, ctx, instance.capacity as int) ==> within_capacity(
            new_sol,
            new_ctx,
            instance.capacity as int,
        ),
{
    assert forall|c: Node| #[trigger] delivered(new_sol, c, new_sol.len() as int) == delivered(sol, c, sol.len() as int) by {
        lemma_delivered_frame(sol, new_sol, c, sol.len() as int);
    }
    let routes = ctx.routes;
    let new_routes = new_ctx.routes;
    if routes_cover(sol, ctx) {
        assert forall|v: Node| 0 < v < new_sol.len() implies #[trigger] routed(new_routes, v) by {
            assert(routed(routes, v));
            let (r, q) = choose|r: int, q: int| 0 <= r < routes.len() && 0 <= q < routes[r].len() && routes[r][q] == v;
            if r == rx {
                if q < i {
                    assert(new_routes[rx][q] == v);
                } else if q > i {
                    assert(new_routes[rx][q - 1] == v);
                } else {
                    assert(new_routes[ry][j] == v);
                }
            } else if r == ry {
                if q < j {
                    assert(new_routes[ry][q] == v);
                } else {
                    assert(new_routes[ry][q + 1] == v);
                }
            } else {
                assert(new_routes[r][q] == v);
            }
        }
    }
    if loads_valid(sol, ctx) {
        let x = routes[rx][i];
        lemma_load_sum_remove(sol.load, routes[rx], i);
        lemma_load_sum_insert(sol.load, routes[ry], j, x);
        assert(sol.load[x as int] >= 0) by {
            crate::model::lemma_route_facts(sol, ctx, rx);
            lemma_linked_at(sol, routes[rx], i);
        }
        assert forall|r: int| #![trigger new_ctx.loads[r]] #![trigger new_routes[r]] 0 <= r < new_routes.len() implies
            (r != rx && r != ry ==> new_ctx.loads[r] == load_sum(new_sol.load, new_routes[r]))
            && (within_capacity(sol, ctx, instance.capacity as int) ==> load_sum(new_sol.load, new_routes[r]) <= instance.capacity) by {
            if r != rx && r != ry {
                assert(new_routes[r] == routes[r]);
            }
        }
    }
}

/// On a solution whose routes visit every node, with no distance from the
/// depot to itself, a relocation changes the objective by exactly its gain.
pub proof fn lemma_relocate_objective(
    instance: &Instance,
    sol: SolutionModel,
    ctx: ContextModel,
    new_sol: SolutionModel,
    new_ctx: ContextModel,
    rx: int,
    ry: int,
    i: int,
    j: int,
)
    requires
        routes_valid(sol, ctx),
        routes_cover(sol, ctx),
        instance.dist(0, 0) == 0,
        relocate_candidate(instance, sol, ctx, rx, ry, i, j),
        relocate_applied(sol, ctx, new_sol, new_ctx, rx, ry, i, j),
    ensures
        objective_sum(instance, new_sol, new_sol.len() as int) == objective_sum(instance, sol, sol.len() as int)
            + relocate_gain(instance, sol, ctx, rx, ry, i, j),
{
    lemma_relocate_keeps_feasibility(instance, sol, ctx, new_sol, new_ctx, rx, ry, i, j);
    lemma_objective_is_total_cost(instance, sol, ctx);
    lemma_objective_is_total_cost(instance, new_sol, new_ctx);
    lemma_relocate_cost(instance, sol, ctx, rx, ry, i, j);
    lemma_total_cost_same_customers(instance, sol, new_sol, new_ctx.routes);
}

/// A relocation is a candidate exactly when the node exists, its target is
/// another route and an insertion position in it, and the receiving route,
/// by its recorded load, stays within capacity with the node added (a route
/// filled exactly to capacity included).
pub proof fn lemma_relocate_candidate_exactly(instance: &Instance, sol: SolutionModel, ctx: ContextModel, rx: int, ry: int, i: int, j: int)
    ensures
        relocate_candidate(instance, sol, ctx, rx, ry, i, j) <==> (0 <= rx < ctx.routes.len() && 0 <= ry < ctx.routes.len() && rx
            != ry && 0 <= i < ctx.routes[rx].len() && 0 <= j <= ctx.routes[ry].len() && ctx.loads[ry] + sol.load[ctx.routes[rx][i] as int]
            <= instance.capacity),
{
}

} // verus!
