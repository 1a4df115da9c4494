//! SdSwapOneOne operator implementation.
//!
//! Split Delivery Swap(1,1) - exchanges single nodes with load splitting.
use vstd::prelude::*;

verus! {

use crate::Node;
use crate::cache::{Cache, CacheMap};
use crate::cost::{detour, total_cost, route_cost, lemma_total_cost_update, lemma_route_cost_insert, lemma_route_cost_remove, lemma_total_cost_extended, lemma_route_cost_extended};
use crate::delta::Delta;
use crate::instance::Instance;
use crate::inter_operator::{InterOperator, visited_before4, calc_delta, customers_fit, gap_cost};
use crate::model::{
    SolutionModel, ContextModel, routes_valid, route_linked, routes_disjoint, seq_distinct, valid_pos,
    next_in, prev_in, head_of, gap_pred, gap_succ, route_linked_except, customers_of, lemma_linked_insert,
    lemma_linked_remove, lemma_linked_frame, lemma_disjoint_from_origin, lemma_disjoint_at, lemma_linked_at,
    lemma_route_facts, lemma_route_step,
};
use crate::model::{
    customer_loads, total_route_load, lemma_total_route_load_update, lemma_total_route_load_frame_except,
    routes_cover, routed, loads_valid, within_capacity, load_sum, delivered, lemma_delivered_frame,
    lemma_delivered_with_load, lemma_load_sum_insert, lemma_load_sum_remove, lemma_load_sum_frame,
    lemma_load_sum_with_load, lemma_disjoint_route_distinct,
};
use crate::random::Random;
use crate::route_context::RouteContext;
use crate::solution::{AlkaidSolution, objective_sum};
use crate::cost::lemma_objective_is_total_cost;

/// Move data for the SdSwapOneOne operator.
///
/// `node_x` is the node with the larger load, in `route_x`; its load becomes
/// `split_load`. `node_y`, in `route_y`, moves next to it, between
/// `predecessor_y` and `successor_y`; a new node serving `node_x`'s customer
/// with `node_y`'s load takes `node_y`'s place, between `predecessor_x` and
/// `successor_x`.
#[derive(Clone, Copy)]
struct SdSwapOneOneMove {
    /// Whether the routes were swapped during evaluation (for route ordering)
    #[allow(dead_code)]
    swapped: bool,
    route_x: Node,
    route_y: Node,
    node_x: Node,
    predecessor_x: Node,
    successor_x: Node,
    node_y: Node,
    predecessor_y: Node,
    successor_y: Node,
    split_load: i32,
}

/// SdSwapOneOne operator.
///
/// Split Delivery version of Swap(1,1). Exchanges single nodes between routes
/// while allowing load splitting to handle capacity differences.
#[derive(Debug, Clone, Copy, Default)]
pub struct SdSwapOneOne;

/// The positions of the two nodes of a pair, the one with the larger load
/// first: `(route, index)` of the larger, then of the smaller.
pub open spec fn sd_roles(sol: SolutionModel, ctx: ContextModel, rx: int, ry: int, i: int, k: int) -> (int, int, int, int) {
    if sol.load[ctx.routes[rx][i] as int] > sol.load[ctx.routes[ry][k] as int] {
        (rx, i, ry, k)
    } else {
        (ry, k, rx, i)
    }
}

/// The node at position `i` of route `rx` and the node at position `k` of
/// a later route `ry` carry different loads.
pub open spec fn sd11_candidate(sol: SolutionModel, ctx: ContextModel, rx: int, ry: int, i: int, k: int) -> bool {
    &&& 0 <= rx < ry < ctx.routes.len()
    &&& 0 <= i < ctx.routes[rx].len()
    &&& 0 <= k < ctx.routes[ry].len()
    &&& sol.load[ctx.routes[rx][i] as int] != sol.load[ctx.routes[ry][k] as int]
}

/// The extra distance of visiting the smaller node just before the larger.
pub open spec fn sd11_before_cost(instance: &Instance, sol: SolutionModel, ctx: ContextModel, rx: int, ry: int, i: int, k: int) -> int {
    let (rb, ib, rs, is) = sd_roles(sol, ctx, rx, ry, i, k);
    let big = ctx.routes[rb][ib];
    let small = ctx.routes[rs][is];
    detour(instance, sol.cust[prev_in(ctx.routes[rb], ib) as int], sol.cust[small as int], sol.cust[big as int])
}

/// The extra distance of visiting the smaller node just after the larger.
pub open spec fn sd11_after_cost(instance: &Instance, sol: SolutionModel, ctx: ContextModel, rx: int, ry: int, i: int, k: int) -> int {
    let (rb, ib, rs, is) = sd_roles(sol, ctx, rx, ry, i, k);
    let big = ctx.routes[rb][ib];
    let small = ctx.routes[rs][is];
    detour(instance, sol.cust[big as int], sol.cust[small as int], sol.cust[next_in(ctx.routes[rb], ib) as int])
}

/// The insertion position of the smaller node in the larger node's route:
/// before the larger node unless after it is strictly cheaper.
pub open spec fn sd11_position(instance: &Instance, sol: SolutionModel, ctx: ContextModel, rx: int, ry: int, i: int, k: int) -> int {
    let (rb, ib, rs, is) = sd_roles(sol, ctx, rx, ry, i, k);
    if sd11_before_cost(instance, sol, ctx, rx, ry, i, k) <= sd11_after_cost(instance, sol, ctx, rx, ry, i, k) {
        ib
    } else {
        ib + 1
    }
}

/// The change in travelled distance of the split swap of that pair: the
/// smaller node leaves its route and moves next to the larger one, whose
/// customer is visited instead at the smaller node's former place.
pub open spec fn sd11_gain(instance: &Instance, sol: SolutionModel, ctx: ContextModel, rx: int, ry: int, i: int, k: int) -> int {
    let (rb, ib, rs, is) = sd_roles(sol, ctx, rx, ry, i, k);
    let big = ctx.routes[rb][ib];
    let small = ctx.routes[rs][is];
    let ps = sol.cust[prev_in(ctx.routes[rs], is) as int];
    let ss = sol.cust[next_in(ctx.routes[rs], is) as int];
    let before = sd11_before_cost(instance, sol, ctx, rx, ry, i, k);
    let after = sd11_after_cost(instance, sol, ctx, rx, ry, i, k);
    -detour(instance, ps, sol.cust[small as int], ss) + detour(instance, ps, sol.cust[big as int], ss) + if before <= after {
        before
    } else {
        after
    }
}

/// The routes after the split swap: the smaller node (position `is` of
/// route `rs`) is inserted at position `pos` of route `rb`, and node `n`
/// takes its place.
pub open spec fn sd11_routes(routes: Seq<Seq<Node>>, rb: int, rs: int, is: int, pos: int, n: Node) -> Seq<Seq<Node>> {
    routes.update(rb, routes[rb].insert(pos, routes[rs][is])).update(rs, routes[rs].update(is, n))
}

/// The change in travelled distance of a split swap of the larger node at
/// position `ib` of route `rb` with the smaller node at position `is` of
/// route `rs`, the smaller node going to insertion position `pos` of route
/// `rb`: the smaller node leaves its place, the larger node's customer is
/// visited there instead, and the smaller node is visited at `pos`.
pub open spec fn split_swap_gain(instance: &Instance, sol: SolutionModel, ctx: ContextModel, rb: int, ib: int, rs: int, is: int, pos: int) -> int {
    let big = ctx.routes[rb][ib];
    let small = ctx.routes[rs][is];
    let ps = sol.cust[prev_in(ctx.routes[rs], is) as int];
    let ss = sol.cust[next_in(ctx.routes[rs], is) as int];
    -detour(instance, ps, sol.cust[small as int], ss) + detour(instance, ps, sol.cust[big as int], ss)
        + gap_cost(instance, sol, ctx.routes[rb], pos, sol.cust[small as int])
}

/// `(new_sol, new_ctx)` is `(sol, ctx)` after the split swap of the larger
/// node at position `ib` of route `rb` with the smaller node at position
/// `is` of route `rs`: the larger node keeps the difference of the two
/// loads, the smaller node goes to insertion position `pos` of route `rb`,
/// and a new node serving the larger node's customer with the smaller load
/// takes the smaller node's place.
pub open spec fn split_swap_applied(
    sol: SolutionModel,
    ctx: ContextModel,
    new_sol: SolutionModel,
    new_ctx: ContextModel,
    rb: int,
    ib: int,
    rs: int,
    is: int,
    pos: int,
) -> bool {
    let big = ctx.routes[rb][ib];
    let small = ctx.routes[rs][is];
    let n = sol.len() as Node;
    &&& new_ctx.routes == sd11_routes(ctx.routes, rb, rs, is, pos, n)
    &&& routes_valid(new_sol, new_ctx)
    &&& new_sol.cust == sol.cust.push(sol.cust[big as int])
    &&& new_sol.load == sol.load.update(big as int, (sol.load[big as int] - sol.load[small as int]) as i32).push(
        sol.load[small as int],
    )
    &&& new_ctx.loads == ctx.loads
    &&& new_ctx.tails == ctx.tails
}

/// `(new_sol, new_ctx)` is `(sol, ctx)` after the split swap of the pair:
/// the larger node keeps the difference of the two loads, the smaller node
/// moves next to it, and a new node serving the larger node's customer with
/// the smaller load takes the smaller node's place.
pub open spec fn sd11_applied(
    instance: &Instance,
    sol: SolutionModel,
    ctx: ContextModel,
    new_sol: SolutionModel,
    new_ctx: ContextModel,
    rx: int,
    ry: int,
    i: int,
    k: int,
) -> bool {
    let (rb, ib, rs, is) = sd_roles(sol, ctx, rx, ry, i, k);
    split_swap_applied(sol, ctx, new_sol, new_ctx, rb, ib, rs, is, sd11_position(instance, sol, ctx, rx, ry, i, k))
}

/// The writes of a split swap in the larger node's route (head `hb`): the
/// larger node `big` gets load `split` and `small` is linked between `p`
/// and `s`.
pub open spec fn sd11_writes_big(sol: SolutionModel, hb: Node, big: Node, split: i32, p: Node, small: Node, s: Node) -> SolutionModel {
    sol.with_succ(0, hb).with_load(big, split).link(p, small).link(small, s)
}

/// All writes of a split swap: then, in the smaller node's route (head
/// `hs`), its former neighbours `ps`, `ss` are linked and a new node serving
/// customer `c` with load `l` is inserted between them.
pub open spec fn sd11_writes(
    sol: SolutionModel,
    hb: Node,
    big: Node,
    split: i32,
    p: Node,
    small: Node,
    s: Node,
    hs: Node,
    ps: Node,
    ss: Node,
    c: Node,
    l: i32,
) -> SolutionModel {
    sd11_writes_big(sol, hb, big, split, p, small, s).with_succ(0, hs).link(ps, ss).inserted(c, l, ps, ss)
}

/// The larger node's route with the smaller node inserted is traced by the
/// final links.
proof fn lemma_sd11_route_big(
    sol: SolutionModel,
    rbig: Seq<Node>,
    pos: int,
    small: Node,
    hb: Node,
    big: Node,
    split: i32,
    hs: Node,
    ps: Node,
    ss: Node,
    c: Node,
    l: i32,
)
    requires
        sol.pred.len() == sol.succ.len(),
        sol.load.len() == sol.succ.len(),
        route_linked(sol, rbig),
        seq_distinct(rbig),
        0 <= pos <= rbig.len(),
        0 < small < sol.succ.len(),
        small != ps,
        small != ss,
        hb < sol.succ.len(),
        hs < sol.succ.len(),
        big < sol.succ.len(),
        ps < sol.succ.len(),
        ss < sol.succ.len(),
        gap_pred(rbig, pos) < sol.succ.len(),
        gap_succ(rbig, pos) < sol.succ.len(),
        forall|q: int| 0 <= q < rbig.len() ==> #[trigger] rbig[q] != small && rbig[q] != ps && rbig[q] != ss,
    ensures
        route_linked(
            sd11_writes(sol, hb, big, split, gap_pred(rbig, pos), small, gap_succ(rbig, pos), hs, ps, ss, c, l),
            rbig.insert(pos, small),
        ),
{
    reveal(route_linked);
    let p = gap_pred(rbig, pos);
    let s = gap_succ(rbig, pos);
    let s2 = sol.with_succ(0, hb).with_load(big, split);
    let s4 = sd11_writes_big(sol, hb, big, split, p, small, s);
    let s7 = sd11_writes(sol, hb, big, split, p, small, s, hs, ps, ss, c, l);
    lemma_linked_frame(sol, s2, rbig);
    lemma_linked_insert(s2, rbig, pos, small);
    let nr = rbig.insert(pos, small);
    assert forall|q: int| 0 <= q < nr.len() implies s7.succ[#[trigger] nr[q] as int] == s4.succ[nr[q] as int]
        && s7.pred[nr[q] as int] == s4.pred[nr[q] as int] by {
        if q < pos {
            assert(nr[q] == rbig[q]);
        } else if q > pos {
            assert(nr[q] == rbig[q - 1]);
        }
        assert(nr[q] != ps && nr[q] != ss);
        assert(nr[q] < sol.succ.len());
    }
    lemma_linked_frame(s4, s7, nr);
}

/// The smaller node's route with the new node in its place is traced by the
/// final links.
proof fn lemma_sd11_route_small(
    sol: SolutionModel,
    rsmall: Seq<Node>,
    is: int,
    hb: Node,
    big: Node,
    split: i32,
    p: Node,
    s: Node,
    hs: Node,
    c: Node,
    l: i32,
)
    requires
        sol.pred.len() == sol.succ.len(),
        sol.load.len() == sol.succ.len(),
        sol.cust.len() == sol.succ.len(),
        sol.succ.len() < 0x7fff_ffff,
        route_linked(sol, rsmall),
        seq_distinct(rsmall),
        0 <= is < rsmall.len(),
        hb < sol.succ.len(),
        hs < sol.succ.len(),
        big < sol.succ.len(),
        p < sol.succ.len(),
        s < sol.succ.len(),
        forall|q: int| 0 <= q < rsmall.len() ==> #[trigger] rsmall[q] != p && rsmall[q] != s,
    ensures
        route_linked(
            sd11_writes(
                sol,
                hb,
                big,
                split,
                p,
                rsmall[is],
                s,
                hs,
                prev_in(rsmall, is),
                next_in(rsmall, is),
                c,
                l,
            ),
            rsmall.update(is, sol.len() as Node),
        ),
{
    reveal(route_linked);
    let small = rsmall[is];
    let ps = prev_in(rsmall, is);
    let ss = next_in(rsmall, is);
    let n = sol.len() as Node;
    let s5 = sd11_writes_big(sol, hb, big, split, p, small, s).with_succ(0, hs);
    let s6 = s5.link(ps, ss);
    let s7 = sd11_writes(sol, hb, big, split, p, small, s, hs, ps, ss, c, l);
    assert(route_linked_except(s5, rsmall, is)) by {
        assert forall|q: int| 0 <= q < rsmall.len() && q != is implies {
            &&& 0 < #[trigger] rsmall[q] < s5.succ.len()
            &&& s5.succ[rsmall[q] as int] == next_in(rsmall, q)
            &&& s5.pred[rsmall[q] as int] == prev_in(rsmall, q)
        } by {
            assert(rsmall[q] != small);
            assert(rsmall[q] != p && rsmall[q] != s);
        }
    }
    lemma_linked_remove(s5, rsmall, is);
    let r2 = rsmall.remove(is);
    crate::model::lemma_remove_distinct(rsmall, is);
    let t = SolutionModel { succ: s6.succ.push(ss), pred: s6.pred.push(ps), cust: s6.cust.push(c), load: s6.load.push(l) };
    assert forall|q: int| 0 <= q < r2.len() implies t.succ[#[trigger] r2[q] as int] == s6.succ[r2[q] as int]
        && t.pred[r2[q] as int] == s6.pred[r2[q] as int] by {
        assert(r2[q] < s6.succ.len());
    }
    lemma_linked_frame(s6, t, r2);
    assert forall|q: int| 0 <= q < r2.len() implies r2[q] != n by {
        assert(r2[q] < s6.succ.len());
    }
    if is > 0 {
        assert(r2[is - 1] == rsmall[is - 1]);
    }
    if is < r2.len() {
        assert(r2[is] == rsmall[is + 1]);
    }
    assert(gap_pred(r2, is) == ps);
    assert(gap_succ(r2, is) == ss);
    lemma_linked_insert(t, r2, is, n);
    assert(t.link(ps, n).link(n, ss) =~= s7);
    assert(r2.insert(is, n) =~= rsmall.update(is, n));
}

/// A route that holds none of the written nodes keeps its links.
proof fn lemma_sd11_route_other(
    sol: SolutionModel,
    route: Seq<Node>,
    hb: Node,
    big: Node,
    split: i32,
    p: Node,
    small: Node,
    s: Node,
    hs: Node,
    ps: Node,
    ss: Node,
    c: Node,
    l: i32,
)
    requires
        sol.pred.len() == sol.succ.len(),
        sol.load.len() == sol.succ.len(),
        hb < sol.succ.len(),
        hs < sol.succ.len(),
        big < sol.succ.len(),
        p < sol.succ.len(),
        s < sol.succ.len(),
        small < sol.succ.len(),
        ps < sol.succ.len(),
        ss < sol.succ.len(),
        route_linked(sol, route),
        forall|q: int|
            0 <= q < route.len() ==> #[trigger] route[q] != p && route[q] != s && route[q] != small && route[q] != ps
                && route[q] != ss,
    ensures
        route_linked(sd11_writes(sol, hb, big, split, p, small, s, hs, ps, ss, c, l), route),
{
    reveal(route_linked);
    let s7 = sd11_writes(sol, hb, big, split, p, small, s, hs, ps, ss, c, l);
    assert forall|q: int| 0 <= q < route.len() implies s7.succ[#[trigger] route[q] as int] == sol.succ[route[q] as int]
        && s7.pred[route[q] as int] == sol.pred[route[q] as int] by {
        assert(route[q] != p && route[q] != s && route[q] != small && route[q] != ps && route[q] != ss);
        assert(route[q] < sol.succ.len());
    }
    lemma_linked_frame(sol, s7, route);
}

/// The routes after a split swap share no node.
proof fn lemma_sd11_disjoint(routes: Seq<Seq<Node>>, rb: int, rs: int, is: int, pos: int, n: Node)
    requires
        routes_disjoint(routes),
        0 <= rb < routes.len(),
        0 <= rs < routes.len(),
        rb != rs,
        0 <= is < routes[rs].len(),
        0 <= pos <= routes[rb].len(),
        forall|r: int, q: int| valid_pos(routes, r, q) ==> #[trigger] routes[r][q] != n,
    ensures
        routes_disjoint(sd11_routes(routes, rb, rs, is, pos, n)),
{
    let new_routes = sd11_routes(routes, rb, rs, is, pos, n);
    let origin = |r: int, q: int|
        if r == rb {
            if q < pos {
                (rb, q)
            } else if q == pos {
                (rs, is)
            } else {
                (rb, q - 1)
            }
        } else {
            (r, q)
        };
    assert forall|r: int, q: int| valid_pos(new_routes, r, q) && !(r == rs && q == is) implies {
        &&& valid_pos(routes, origin(r, q).0, origin(r, q).1)
        &&& routes[origin(r, q).0][origin(r, q).1] == #[trigger] new_routes[r][q]
        &&& (valid_pos(new_routes, rs, is) ==> new_routes[r][q] != new_routes[rs][is])
    } by {
        if r != rb && r != rs {
            assert(new_routes[r] == routes[r]);
        }
        assert(new_routes[rs][is] == n);
        assert(routes[origin(r, q).0][origin(r, q).1] != n);
    }
    lemma_disjoint_from_origin(routes, new_routes, origin, rs, is);
}

/// The links that a split swap writes produce the new routes, with the new
/// heads read off the depot's successor.
#[verifier::rlimit(60)]
#[verifier::spinoff_prover]
pub(crate) proof fn lemma_sd11(sol: SolutionModel, ctx: ContextModel, rb: int, ib: int, rs: int, is: int, pos: int, split: i32)
    requires
        routes_valid(sol, ctx),
        sol.len() < 0x7fff_ffff,
        0 <= rb < ctx.routes.len(),
        0 <= rs < ctx.routes.len(),
        rb != rs,
        0 <= ib < ctx.routes[rb].len(),
        0 <= is < ctx.routes[rs].len(),
        0 <= pos <= ctx.routes[rb].len(),
        0 <= split,
    ensures
        ({
            let rbig = ctx.routes[rb];
            let rsmall = ctx.routes[rs];
            let big = rbig[ib];
            let small = rsmall[is];
            let p = gap_pred(rbig, pos);
            let s = gap_succ(rbig, pos);
            let ps = prev_in(rsmall, is);
            let ss = next_in(rsmall, is);
            let n = sol.len() as Node;
            let s4 = sd11_writes_big(sol, ctx.heads[rb], big, split, p, small, s);
            let s7 = sd11_writes(sol, ctx.heads[rb], big, split, p, small, s, ctx.heads[rs], ps, ss, sol.cust[big as int], sol.load[small as int]);
            let routes = sd11_routes(ctx.routes, rb, rs, is, pos, n);
            let heads = ctx.heads.update(rb, s4.succ[0]).update(rs, s7.succ[0]);
            &&& ctx.heads[rb] < sol.len()
            &&& ctx.heads[rs] < sol.len()
            &&& 0 < big < sol.len()
            &&& 0 < small < sol.len()
            &&& p < sol.len()
            &&& s < sol.len()
            &&& big != small
            &&& s4.succ[0] == head_of(routes[rb])
            &&& s7.succ[0] == head_of(routes[rs])
            &&& routes_valid(s7, ContextModel { heads, routes, ..ctx })
        }),
{
    let rbig = ctx.routes[rb];
    let rsmall = ctx.routes[rs];
    let big = rbig[ib];
    let small = rsmall[is];
    let p = gap_pred(rbig, pos);
    let s = gap_succ(rbig, pos);
    let ps = prev_in(rsmall, is);
    let ss = next_in(rsmall, is);
    let n = sol.len() as Node;
    let hb = ctx.heads[rb];
    let hs = ctx.heads[rs];
    let c = sol.cust[big as int];
    let l = sol.load[small as int];
    let s4 = sd11_writes_big(sol, hb, big, split, p, small, s);
    let s7 = sd11_writes(sol, hb, big, split, p, small, s, hs, ps, ss, c, l);
    let routes = sd11_routes(ctx.routes, rb, rs, is, pos, n);
    let heads = ctx.heads.update(rb, s4.succ[0]).update(rs, s7.succ[0]);
    let new_ctx = ContextModel { heads, routes, ..ctx };
    lemma_route_facts(sol, ctx, rb);
    lemma_route_facts(sol, ctx, rs);
    lemma_linked_at(sol, rbig, ib);
    lemma_linked_at(sol, rsmall, is);
    lemma_disjoint_at(ctx.routes, rb, ib, rs, is);
    if pos > 0 { lemma_linked_at(sol, rbig, pos - 1); }
    if pos < rbig.len() { lemma_linked_at(sol, rbig, pos); }
    if is > 0 { lemma_linked_at(sol, rsmall, is - 1); lemma_disjoint_at(ctx.routes, rs, is - 1, rs, is); }
    if is + 1 < rsmall.len() { lemma_linked_at(sol, rsmall, is + 1); lemma_disjoint_at(ctx.routes, rs, is + 1, rs, is); }
    // The larger node's route.
    assert forall|q: int| 0 <= q < rbig.len() implies #[trigger] rbig[q] != small && rbig[q] != ps && rbig[q] != ss by {
        lemma_linked_at(sol, rbig, q);
        lemma_disjoint_at(ctx.routes, rb, q, rs, is);
        if is > 0 { lemma_disjoint_at(ctx.routes, rb, q, rs, is - 1); }
        if is + 1 < rsmall.len() { lemma_disjoint_at(ctx.routes, rb, q, rs, is + 1); }
    }
    lemma_sd11_route_big(sol, rbig, pos, small, hb, big, split, hs, ps, ss, c, l);
    // The smaller node's route.
    assert forall|q: int| 0 <= q < rsmall.len() implies #[trigger] rsmall[q] != p && rsmall[q] != s by {
        lemma_linked_at(sol, rsmall, q);
        if pos > 0 { lemma_disjoint_at(ctx.routes, rs, q, rb, pos - 1); }
        if pos < rbig.len() { lemma_disjoint_at(ctx.routes, rs, q, rb, pos); }
    }
    lemma_sd11_route_small(sol, rsmall, is, hb, big, split, p, s, hs, c, l);
    // Other routes.
    assert forall|r: int| 0 <= r < routes.len() implies route_linked(s7, #[trigger] routes[r]) by {
        if r != rb && r != rs {
            let route = ctx.routes[r];
            assert(route_linked(sol, route));
            assert forall|q: int| 0 <= q < route.len() implies #[trigger] route[q] != p && route[q] != s && route[q] != small
                && route[q] != ps && route[q] != ss by {
                lemma_linked_at(sol, route, q);
                lemma_disjoint_at(ctx.routes, r, q, rs, is);
                if pos > 0 { lemma_disjoint_at(ctx.routes, r, q, rb, pos - 1); }
                if pos < rbig.len() { lemma_disjoint_at(ctx.routes, r, q, rb, pos); }
                if is > 0 { lemma_disjoint_at(ctx.routes, r, q, rs, is - 1); }
                if is + 1 < rsmall.len() { lemma_disjoint_at(ctx.routes, r, q, rs, is + 1); }
            }
            lemma_sd11_route_other(sol, route, hb, big, split, p, small, s, hs, ps, ss, c, l);
        }
    }
    // Heads.
    if pos > 0 {
        assert(rbig.insert(pos, small)[0] == rbig[0]);
    }
    assert(head_of(routes[rb]) == if pos == 0 { small } else { rbig[0] });
    assert(head_of(routes[rs]) == if is == 0 { n } else { rsmall[0] });
    assert forall|r: int| 0 <= r < routes.len() implies #[trigger] new_ctx.heads[r] == head_of(new_ctx.routes[r]) by {
    }
    // Disjointness.
    assert forall|r: int, q: int| valid_pos(ctx.routes, r, q) implies #[trigger] ctx.routes[r][q] != n by {
        assert(route_linked(sol, ctx.routes[r]));
        lemma_linked_at(sol, ctx.routes[r], q);
    }
    lemma_sd11_disjoint(ctx.routes, rb, rs, is, pos, n);
    // The pool stays well formed.
    assert(s7.wf()) by {
        let s6 = s4.with_succ(0, hs).link(ps, ss);
        assert(s6.wf());
        assert forall|v: int| 0 <= v < s7.succ.len() implies #[trigger] s7.succ[v] < s7.succ.len() by {
            if v < s6.succ.len() && v != ps {
                assert(s7.succ[v] == s6.succ[v]);
            }
        }
        assert forall|v: int| 0 <= v < s7.succ.len() implies #[trigger] s7.pred[v] < s7.succ.len() by {
            if v < s6.succ.len() && v != ss {
                assert(s7.pred[v] == s6.pred[v]);
            }
        }
        assert forall|v: int| 0 <= v < s7.succ.len() implies 0 <= #[trigger] s7.load[v] by {
            if v < s6.succ.len() {
                assert(s7.load[v] == s6.load[v]);
            }
        }
    }
}

/// A split swap changes the travelled distance by exactly its gain.
pub proof fn lemma_split_swap_cost(
    instance: &Instance,
    sol: SolutionModel,
    ctx: ContextModel,
    new_sol: SolutionModel,
    rb: int,
    ib: int,
    rs: int,
    is: int,
    pos: int,
)
    requires
        routes_valid(sol, ctx),
        0 <= rb < ctx.routes.len(),
        0 <= rs < ctx.routes.len(),
        rb != rs,
        0 <= ib < ctx.routes[rb].len(),
        0 <= is < ctx.routes[rs].len(),
        0 <= pos <= ctx.routes[rb].len(),
        new_sol.cust == sol.cust.push(sol.cust[ctx.routes[rb][ib] as int]),
    ensures
        total_cost(instance, new_sol, sd11_routes(ctx.routes, rb, rs, is, pos, sol.len() as Node)) == total_cost(
            instance,
            sol,
            ctx.routes,
        ) + split_swap_gain(instance, sol, ctx, rb, ib, rs, is, pos),
{
    let n = sol.len() as Node;
    let routes = ctx.routes;
    let rbig = routes[rb];
    let rsmall = routes[rs];
    let big = rbig[ib];
    let small = rsmall[is];
    let new_b = rbig.insert(pos, small);
    let new_s = rsmall.update(is, n);
    let mid = routes.update(rb, new_b);
    assert forall|r: int, q: int| 0 <= r < routes.len() && 0 <= q < routes[r].len() implies #[trigger] routes[r][q] < sol.cust.len()
        && new_sol.cust[routes[r][q] as int] == sol.cust[routes[r][q] as int] by {
        lemma_route_facts(sol, ctx, r);
        lemma_linked_at(sol, routes[r], q);
    }
    lemma_total_cost_extended(instance, sol, new_sol, routes);
    lemma_total_cost_update(instance, new_sol, routes, rb, new_b);
    lemma_total_cost_update(instance, new_sol, mid, rs, new_s);
    lemma_route_cost_insert(instance, new_sol, rbig, pos, small);
    lemma_route_cost_remove(instance, new_sol, rsmall, is);
    lemma_route_cost_insert(instance, new_sol, rsmall.remove(is), is, n);
    assert(rsmall.remove(is).insert(is, n) =~= new_s);
    lemma_route_facts(sol, ctx, rb);
    lemma_route_facts(sol, ctx, rs);
    lemma_linked_at(sol, rbig, ib);
    lemma_linked_at(sol, rsmall, is);
    if is > 0 {
        assert(rsmall.remove(is)[is - 1] == rsmall[is - 1]);
        lemma_linked_at(sol, rsmall, is - 1);
    }
    if is + 1 < rsmall.len() {
        assert(rsmall.remove(is)[is] == rsmall[is + 1]);
        lemma_linked_at(sol, rsmall, is + 1);
    }
    if pos > 0 {
        lemma_linked_at(sol, rbig, pos - 1);
    }
    if pos < rbig.len() {
        lemma_linked_at(sol, rbig, pos);
    }
}


/// A split swap of the pair changes the travelled distance by exactly its
/// gain.
pub proof fn lemma_sd11_cost(instance: &Instance, sol: SolutionModel, ctx: ContextModel, new_sol: SolutionModel, rx: int, ry: int, i: int, k: int)
    requires
        routes_valid(sol, ctx),
        sd11_candidate(sol, ctx, rx, ry, i, k),
        ({
            let (rb, ib, rs, is) = sd_roles(sol, ctx, rx, ry, i, k);
            new_sol.cust == sol.cust.push(sol.cust[ctx.routes[rb][ib] as int])
        }),
    ensures
        ({
            let (rb, ib, rs, is) = sd_roles(sol, ctx, rx, ry, i, k);
            total_cost(instance, new_sol, sd11_routes(ctx.routes, rb, rs, is, sd11_position(instance, sol, ctx, rx, ry, i, k), sol.len() as Node))
                == total_cost(instance, sol, ctx.routes) + sd11_gain(instance, sol, ctx, rx, ry, i, k)
        }),
{
    let (rb, ib, rs, is) = sd_roles(sol, ctx, rx, ry, i, k);
    let pos = sd11_position(instance, sol, ctx, rx, ry, i, k);
    lemma_split_swap_cost(instance, sol, ctx, new_sol, rb, ib, rs, is, pos);
    assert(split_swap_gain(instance, sol, ctx, rb, ib, rs, is, pos) == sd11_gain(instance, sol, ctx, rx, ry, i, k));
}

/// `mv` records the split swap of the node at position `i` of route `rx`
/// with the node at position `k` of route `ry`.
spec fn move_matches(instance: &Instance, mv: SdSwapOneOneMove, sol: SolutionModel, ctx: ContextModel, rx: int, ry: int, i: int, k: int) -> bool {
    let (rb, ib, rs, is) = sd_roles(sol, ctx, rx, ry, i, k);
    let pos = sd11_position(instance, sol, ctx, rx, ry, i, k);
    &&& mv.route_x == rb
    &&& mv.route_y == rs
    &&& mv.node_x == ctx.routes[rb][ib]
    &&& mv.node_y == ctx.routes[rs][is]
    &&& mv.predecessor_y == gap_pred(ctx.routes[rb], pos)
    &&& mv.successor_y == gap_succ(ctx.routes[rb], pos)
    &&& mv.predecessor_x == prev_in(ctx.routes[rs], is)
    &&& mv.successor_x == next_in(ctx.routes[rs], is)
    &&& mv.split_load == sol.load[ctx.routes[rb][ib] as int] - sol.load[ctx.routes[rs][is] as int]
}

impl SdSwapOneOne {
    /// Applies a SD swap(1,1) move.
    fn do_sd_swap_one_one(
        mv: &SdSwapOneOneMove,
        solution: &mut AlkaidSolution,
        context: &mut RouteContext,
        Ghost(ib): Ghost<int>,
        Ghost(is): Ghost<int>,
        Ghost(pos): Ghost<int>,
    )
        requires
            routes_valid(old(solution)@, old(context)@),
            old(solution)@.len() < 0x7fff_ffff,
            mv.route_x < old(context)@.routes.len(),
            mv.route_y < old(context)@.routes.len(),
            mv.route_x != mv.route_y,
            0 <= ib < old(context)@.routes[mv.route_x as int].len(),
            0 <= is < old(context)@.routes[mv.route_y as int].len(),
            0 <= pos <= old(context)@.routes[mv.route_x as int].len(),
            mv.node_x == old(context)@.routes[mv.route_x as int][ib],
            mv.node_y == old(context)@.routes[mv.route_y as int][is],
            mv.predecessor_y == gap_pred(old(context)@.routes[mv.route_x as int], pos),
            mv.successor_y == gap_succ(old(context)@.routes[mv.route_x as int], pos),
            mv.predecessor_x == prev_in(old(context)@.routes[mv.route_y as int], is),
            mv.successor_x == next_in(old(context)@.routes[mv.route_y as int], is),
            0 <= mv.split_load,
        ensures
            final(context)@.routes == sd11_routes(
                old(context)@.routes,
                mv.route_x as int,
                mv.route_y as int,
                is,
                pos,
                old(solution)@.len() as Node,
            ),
            routes_valid(final(solution)@, final(context)@),
            final(solution)@.cust == old(solution)@.cust.push(old(solution)@.cust[mv.node_x as int]),
            final(solution)@.load == old(solution)@.load.update(mv.node_x as int, mv.split_load).push(
                old(solution)@.load[mv.node_y as int],
            ),
            final(context)@.loads == old(context)@.loads,
            final(context)@.tails == old(context)@.tails,
    {
        let ghost sol = solution@;
        let ghost ctx = context@;
        proof {
            lemma_sd11(sol, ctx, mv.route_x as int, ib, mv.route_y as int, is, pos, mv.split_load);
            lemma_linked_at(sol, ctx.routes[mv.route_y as int], is);
            assert(route_linked(sol, ctx.routes[mv.route_y as int])) by {
                lemma_route_facts(sol, ctx, mv.route_y as int);
            }
        }
        let predecessor_y = solution.predecessor(mv.node_y);
        let successor_y = solution.successor(mv.node_y);

        // Update route X
        solution.set_successor(0, context.head(mv.route_x));
        solution.set_load(mv.node_x, mv.split_load);
        solution.link(mv.predecessor_y, mv.node_y);
        solution.link(mv.node_y, mv.successor_y);
        context.set_head(mv.route_x, solution.successor(0));

        // Update route Y
        solution.set_successor(0, context.head(mv.route_y));
        solution.link(predecessor_y, successor_y);
        let customer_x = solution.customer(mv.node_x);
        let load_y = solution.load(mv.node_y);
        solution.insert(customer_x, load_y, mv.predecessor_x, mv.successor_x);
        context.set_head(mv.route_y, solution.successor(0));
        context.set_route_model(
            Ghost(sd11_routes(ctx.routes, mv.route_x as int, mv.route_y as int, is, pos, sol.len() as Node)),
        );
        proof {
            let routes = sd11_routes(ctx.routes, mv.route_x as int, mv.route_y as int, is, pos, sol.len() as Node);
            assert(context@ =~= ContextModel {
                heads: ctx.heads.update(mv.route_x as int, context@.heads[mv.route_x as int]).update(
                    mv.route_y as int,
                    context@.heads[mv.route_y as int],
                ),
                routes,
                ..ctx
            });
        }
    }
}

/// What the search loops of [`SdSwapOneOne::apply`] keep: the model is
/// untouched and the best move so far is recorded.
spec fn sd11_search_state(
    instance: &Instance,
    sol: SolutionModel,
    ctx: ContextModel,
    best_delta: Delta,
    best_move: SdSwapOneOneMove,
    bx: int,
    by: int,
    bi: int,
    bk: int,
) -> bool {
    &&& instance.wf()
    &&& customers_fit(instance, sol)
    &&& routes_valid(sol, ctx)
    &&& sol.len() < 0x7fff_ffff
    &&& best_delta.counter >= 0
    &&& best_delta.value <= 0
    &&& best_delta.value < 0 ==> sd11_candidate(sol, ctx, bx, by, bi, bk) && sd11_gain(instance, sol, ctx, bx, by, bi, bk)
        == best_delta.value && move_matches(instance, best_move, sol, ctx, bx, by, bi, bk)
}

impl InterOperator for SdSwapOneOne {
    /// Looks at every pair of nodes with different loads in two different
    /// routes, and performs the split swap that shortens the solution most,
    /// if any does.
    fn apply<C: Cache>(
        &self,
        instance: &Instance,
        solution: &mut AlkaidSolution,
        context: &mut RouteContext,
        random: &mut Random,
        _cache_map: &mut CacheMap<C>,
    ) -> (routes: Vec<Node>)
        ensures
            routes@.len() == 0 <==> forall|rx: int, ry: int, i: int, k: int|
                sd11_candidate(old(solution)@, old(context)@, rx, ry, i, k) ==> #[trigger] sd11_gain(
                    instance,
                    old(solution)@,
                    old(context)@,
                    rx,
                    ry,
                    i,
                    k,
                ) >= 0,
            routes@.len() != 0 ==> exists|rx: int, ry: int, i: int, k: int|
                {
                    &&& sd11_candidate(old(solution)@, old(context)@, rx, ry, i, k)
                    &&& sd11_gain(instance, old(solution)@, old(context)@, rx, ry, i, k) < 0
                    &&& forall|a: int, b: int, p: int, q: int|
                        sd11_candidate(old(solution)@, old(context)@, a, b, p, q) ==> sd11_gain(
                            instance,
                            old(solution)@,
                            old(context)@,
                            rx,
                            ry,
                            i,
                            k,
                        ) <= #[trigger] sd11_gain(instance, old(solution)@, old(context)@, a, b, p, q)
                    &&& routes@ == seq![
                        sd_roles(old(solution)@, old(context)@, rx, ry, i, k).0 as Node,
                        sd_roles(old(solution)@, old(context)@, rx, ry, i, k).2 as Node,
                    ]
                    &&& sd11_applied(instance, old(solution)@, old(context)@, final(solution)@, final(context)@, rx, ry, i, k)
                    &&& total_cost(instance, final(solution)@, final(context)@.routes) == total_cost(
                        instance,
                        old(solution)@,
                        old(context)@.routes,
                    ) + sd11_gain(instance, old(solution)@, old(context)@, rx, ry, i, k)
                },
            routes@.len() != 0 ==> total_cost(instance, final(solution)@, final(context)@.routes) < total_cost(
                instance,
                old(solution)@,
                old(context)@.routes,
            ),
    {
        let ghost sol = solution@;
        let ghost ctx = context@;
        let mut best_move = SdSwapOneOneMove {
            swapped: false,
            route_x: 0,
            route_y: 0,
            node_x: 0,
            predecessor_x: 0,
            successor_x: 0,
            node_y: 0,
            predecessor_y: 0,
            successor_y: 0,
            split_load: 0,
        };
        let mut best_delta = Delta::default();
        let ghost mut bx: int = 0;
        let ghost mut by: int = 0;
        let ghost mut bi: int = 0;
        let ghost mut bk: int = 0;

        let num_routes = context.num_routes();
        let mut route_x: Node = 0;
        while route_x < num_routes
            invariant
                sd11_search_state(instance, sol, ctx, best_delta, best_move, bx, by, bi, bk),
                solution@ == sol,
                context@ == ctx,
                num_routes == ctx.routes.len(),
                route_x <= num_routes,
                forall|a: int, b: int, p: int, q: int|
                    a < route_x && sd11_candidate(sol, ctx, a, b, p, q) ==> best_delta.value
                        <= #[trigger] sd11_gain(instance, sol, ctx, a, b, p, q),
            decreases num_routes - route_x,
        {
            let mut route_y: Node = route_x + 1;
            while route_y < num_routes
                invariant
                    sd11_search_state(instance, sol, ctx, best_delta, best_move, bx, by, bi, bk),
                    solution@ == sol,
                    context@ == ctx,
                    num_routes == ctx.routes.len(),
                    route_x < route_y <= num_routes,
                    forall|a: int, b: int, p: int, q: int|
                        visited_before4(a, b, p, q, route_x as int, route_y as int, 0, 0) && sd11_candidate(sol, ctx, a, b, p, q)
                            ==> best_delta.value <= #[trigger] sd11_gain(instance, sol, ctx, a, b, p, q),
                decreases num_routes - route_y,
            {
                let ghost rte_x = ctx.routes[route_x as int];
                let ghost rte_y = ctx.routes[route_y as int];
                proof {
                    lemma_route_facts(sol, ctx, route_x as int);
                    lemma_route_facts(sol, ctx, route_y as int);
                }
                let ghost mut i: int = 0;
                let mut node_x = context.head(route_x);

                while node_x != 0
                    invariant
                        sd11_search_state(instance, sol, ctx, best_delta, best_move, bx, by, bi, bk),
                        solution@ == sol,
                        context@ == ctx,
                        num_routes == ctx.routes.len(),
                        route_x < route_y < num_routes,
                        rte_x == ctx.routes[route_x as int],
                        rte_y == ctx.routes[route_y as int],
                        route_linked(sol, rte_x),
                        route_linked(sol, rte_y),
                        0 <= i <= rte_x.len(),
                        node_x == gap_succ(rte_x, i),
                        forall|a: int, b: int, p: int, q: int|
                            visited_before4(a, b, p, q, route_x as int, route_y as int, i, 0) && sd11_candidate(sol, ctx, a, b, p, q)
                                ==> best_delta.value <= #[trigger] sd11_gain(instance, sol, ctx, a, b, p, q),
                    decreases rte_x.len() - i,
                {
                    proof {
                        lemma_route_step(sol, rte_x, i);
                        lemma_linked_at(sol, rte_x, i);
                    }
                    let load_x = solution.load(node_x);

                    let ghost mut k: int = 0;
                    let mut node_y = context.head(route_y);
                    while node_y != 0
                        invariant
                            sd11_search_state(instance, sol, ctx, best_delta, best_move, bx, by, bi, bk),
                            solution@ == sol,
                            context@ == ctx,
                            num_routes == ctx.routes.len(),
                            route_x < route_y < num_routes,
                            rte_x == ctx.routes[route_x as int],
                            rte_y == ctx.routes[route_y as int],
                            route_linked(sol, rte_x),
                            route_linked(sol, rte_y),
                            0 <= i < rte_x.len(),
                            node_x == rte_x[i],
                            load_x == sol.load[node_x as int],
                            0 <= k <= rte_y.len(),
                            node_y == gap_succ(rte_y, k),
                            forall|a: int, b: int, p: int, q: int|
                                visited_before4(a, b, p, q, route_x as int, route_y as int, i, k) && sd11_candidate(
                                    sol,
                                    ctx,
                                    a,
                                    b,
                                    p,
                                    q,
                                ) ==> best_delta.value <= #[trigger] sd11_gain(instance, sol, ctx, a, b, p, q),
                        decreases rte_y.len() - k,
                    {
                        proof {
                            lemma_route_step(sol, rte_y, k);
                            lemma_linked_at(sol, rte_y, k);
                            lemma_linked_at(sol, rte_x, i);
                        }
                        let load_y = solution.load(node_y);

                        // Only process when loads differ
                        if load_x != load_y {
                            let (swapped, n_x, n_y, r_x, r_y, split_load) = if load_x > load_y {
                                (false, node_x, node_y, route_x, route_y, load_x - load_y)
                            } else {
                                (true, node_y, node_x, route_y, route_x, load_y - load_x)
                            };
                            let ghost (rb, ib, rs, is) = sd_roles(sol, ctx, route_x as int, route_y as int, i, k);
                            proof {
                                lemma_linked_at(sol, ctx.routes[rb], ib);
                                lemma_linked_at(sol, ctx.routes[rs], is);
                            }

                            let predecessor_x_local = solution.predecessor(n_x);
                            let successor_x_local = solution.successor(n_x);
                            let predecessor_y_local = solution.predecessor(n_y);
                            let successor_y_local = solution.successor(n_y);

                            let removal_y = -calc_delta(instance, solution, n_y, predecessor_y_local, successor_y_local);
                            let insert_x = calc_delta(instance, solution, n_x, predecessor_y_local, successor_y_local);

                            // Insert y adjacent to x (before or after)
                            let before = calc_delta(instance, solution, n_y, predecessor_x_local, n_x);
                            let after = calc_delta(instance, solution, n_y, n_x, successor_x_local);

                            let (predecessor, successor, insert_y) = if before <= after {
                                (predecessor_x_local, n_x, before)
                            } else {
                                (n_x, successor_x_local, after)
                            };

                            let delta = removal_y + insert_x + insert_y;
                            proof {
                                assert(sd11_candidate(sol, ctx, route_x as int, route_y as int, i, k));
                                assert(before == sd11_before_cost(instance, sol, ctx, route_x as int, route_y as int, i, k));
                                assert(after == sd11_after_cost(instance, sol, ctx, route_x as int, route_y as int, i, k));
                                assert(delta == sd11_gain(instance, sol, ctx, route_x as int, route_y as int, i, k));
                                let pos = sd11_position(instance, sol, ctx, route_x as int, route_y as int, i, k);
                                if ib + 1 < ctx.routes[rb].len() {
                                    lemma_linked_at(sol, ctx.routes[rb], ib + 1);
                                }
                                assert(predecessor == gap_pred(ctx.routes[rb], pos));
                                assert(successor == gap_succ(ctx.routes[rb], pos));
                            }

                            if best_delta.update(delta, random) {
                                best_move = SdSwapOneOneMove {
                                    swapped,
                                    route_x: r_x,
                                    route_y: r_y,
                                    node_x: n_x,
                                    predecessor_x: predecessor_y_local,
                                    successor_x: successor_y_local,
                                    node_y: n_y,
                                    predecessor_y: predecessor,
                                    successor_y: successor,
                                    split_load,
                                };
                                proof {
                                    bx = route_x as int;
                                    by = route_y as int;
                                    bi = i;
                                    bk = k;
                                }
                            }
                        }

                        node_y = solution.successor(node_y);
                        proof {
                            k = k + 1;
                        }
                    }
                    proof {
                        lemma_route_step(sol, rte_y, k);
                    }

                    node_x = solution.successor(node_x);
                    proof {
                        i = i + 1;
                    }
                }
                proof {
                    lemma_route_step(sol, rte_x, i);
                }
                route_y += 1;
            }
            route_x += 1;
        }

        if best_delta.value < 0 {
            let ghost (rb, ib, rs, is) = sd_roles(sol, ctx, bx, by, bi, bk);
            let ghost pos = sd11_position(instance, sol, ctx, bx, by, bi, bk);
            proof {
                lemma_route_facts(sol, ctx, rb);
            }
            Self::do_sd_swap_one_one(&best_move, solution, context, Ghost(ib), Ghost(is), Ghost(pos));
            proof {
                lemma_sd11_cost(instance, sol, ctx, solution@, bx, by, bi, bk);
                assert(sd11_applied(instance, sol, ctx, solution@, context@, bx, by, bi, bk));
                assert forall|v: int| 0 <= v < solution@.cust.len() implies #[trigger] solution@.cust[v] < instance.num_customers by {
                    if v < sol.cust.len() {
                        assert(solution@.cust[v] == sol.cust[v]);
                    } else {
                        lemma_linked_at(sol, ctx.routes[rb], ib);
                        assert(solution@.cust[v] == sol.cust[ctx.routes[rb][ib] as int]);
                    }
                }
            }
            vec![best_move.route_x, best_move.route_y]
        } else {
            Vec::new()
        }
    }
}

/// A split swap keeps every customer's delivered load, keeps every node
/// routed (the new node included), and leaves the total load of every route
/// unchanged: so exact recorded loads stay exact and routes within capacity
/// stay within capacity.
pub proof fn lemma_split_swap_keeps_feasibility(
    instance: &Instance,
    sol: SolutionModel,
    ctx: ContextModel,
    new_sol: SolutionModel,
    new_ctx: ContextModel,
    rb: int,
    ib: int,
    rs: int,
    is: int,
    pos: int,
)
    requires
        routes_valid(sol, ctx),
        sol.len() < 0x7fff_ffff,
        0 <= rb < ctx.routes.len(),
        0 <= rs < ctx.routes.len(),
        rb != rs,
        0 <= ib < ctx.routes[rb].len(),
        0 <= is < ctx.routes[rs].len(),
        0 <= pos <= ctx.routes[rb].len(),
        sol.load[ctx.routes[rb][ib] as int] > sol.load[ctx.routes[rs][is] as int],
        split_swap_applied(sol, ctx, new_sol, new_ctx, rb, ib, rs, is, pos),
    ensures
        forall|c: Node| #[trigger] delivered(new_sol, c, new_sol.len() as int) == delivered(sol, c, sol.len() as int),
        routes_cover(sol, ctx) ==> routes_cover(new_sol, new_ctx),
        forall|r: int| 0 <= r < new_ctx.routes.len() ==> #[trigger] load_sum(new_sol.load, new_ctx.routes[r]) == load_sum(
            sol.load,
            ctx.routes[r],
        ),
        loads_valid(sol, ctx) ==> loads_valid(new_sol, new_ctx),
        within_capacity(sol, ctx, instance.capacity as int) ==> within_capacity(new_sol, new_ctx, instance.capacity as int),
{
    let routes = ctx.routes;
    let new_routes = new_ctx.routes;
    let big = routes[rb][ib];
    let small = routes[rs][is];
    let split = (sol.load[big as int] - sol.load[small as int]) as i32;
    let mid = sol.with_load(big, split);
    let n = sol.len() as Node;
    crate::model::lemma_route_facts(sol, ctx, rb);
    crate::model::lemma_route_facts(sol, ctx, rs);
    lemma_linked_at(sol, routes[rb], ib);
    lemma_linked_at(sol, routes[rs], is);
    assert(split == sol.load[big as int] - sol.load[small as int]);
    // Deliveries.
    assert forall|c: Node| #[trigger] delivered(new_sol, c, new_sol.len() as int) == delivered(sol, c, sol.len() as int) by {
        lemma_delivered_with_load(sol, big, split, c, sol.len() as int);
        lemma_delivered_frame(mid, new_sol, c, sol.len() as int);
    }
    // Cover.
    if routes_cover(sol, ctx) {
        assert forall|v: Node| 0 < v < new_sol.len() implies #[trigger] routed(new_routes, v) by {
            if v == n {
                assert(new_routes[rs][is] == v);
            } else {
                assert(routed(routes, v));
                let (r, q) = choose|r: int, q: int| 0 <= r < routes.len() && 0 <= q < routes[r].len() && routes[r][q] == v;
                if r == rb {
                    if q < pos {
                        assert(new_routes[rb][q] == v);
                    } else {
                        assert(new_routes[rb][q + 1] == v);
                    }
                } else if r == rs && q == is {
                    assert(new_routes[rb][pos] == v);
                } else {
                    assert(new_routes[r][q] == v);
                }
            }
        }
    }
    // Route loads.
    assert forall|r: int| 0 <= r < new_routes.len() implies #[trigger] load_sum(new_sol.load, new_routes[r]) == load_sum(
        sol.load,
        routes[r],
    ) by {
        let route = routes[r];
        crate::model::lemma_route_facts(sol, ctx, r);
        lemma_disjoint_route_distinct(routes, r);
        assert forall|q: int| 0 <= q < route.len() implies #[trigger] route[q] < sol.load.len() by {
            lemma_linked_at(sol, route, q);
        }
        lemma_load_sum_with_load(sol.load, route, big, split);
        assert forall|q: int| 0 <= q < route.len() implies new_sol.load[#[trigger] route[q] as int] == mid.load[route[q] as int] by {
            lemma_linked_at(sol, route, q);
        }
        lemma_load_sum_frame(mid.load, new_sol.load, route);
        if r == rb {
            assert(route.contains(big)) by {
                assert(route[ib] == big);
            }
            lemma_load_sum_insert(new_sol.load, route, pos, small);
        } else {
            assert(!route.contains(big)) by {
                if route.contains(big) {
                    let q = choose|q: int| 0 <= q < route.len() && route[q] == big;
                    crate::model::lemma_disjoint_at(routes, r, q, rb, ib);
                }
            }
            if r == rs {
                lemma_load_sum_remove(new_sol.load, route, is);
                lemma_load_sum_insert(new_sol.load, route.remove(is), is, n);
                assert(route.remove(is).insert(is, n) =~= route.update(is, n));
            } else {
                assert(new_routes[r] == route);
            }
        }
    }
}


/// A split swap keeps, for every customer, the load that the nodes along
/// the routes deliver to it; it adds exactly one node to the routes (to the
/// larger node's route), and when every node carried a positive load, every
/// node still does. Unlike the delivered loads over the whole pool, this
/// needs no assumption that the routes visit every node.
pub proof fn lemma_split_swap_route_deliveries(
    sol: SolutionModel,
    ctx: ContextModel,
    new_sol: SolutionModel,
    new_ctx: ContextModel,
    rb: int,
    ib: int,
    rs: int,
    is: int,
    pos: int,
)
    requires
        routes_valid(sol, ctx),
        sol.len() < 0x7fff_ffff,
        0 <= rb < ctx.routes.len(),
        0 <= rs < ctx.routes.len(),
        rb != rs,
        0 <= ib < ctx.routes[rb].len(),
        0 <= is < ctx.routes[rs].len(),
        0 <= pos <= ctx.routes[rb].len(),
        sol.load[ctx.routes[rb][ib] as int] > sol.load[ctx.routes[rs][is] as int],
        split_swap_applied(sol, ctx, new_sol, new_ctx, rb, ib, rs, is, pos),
    ensures
        forall|c: Node| #[trigger] total_route_load(customer_loads(new_sol, c), new_ctx.routes) == total_route_load(
            customer_loads(sol, c),
            ctx.routes,
        ),
        new_ctx.routes.len() == ctx.routes.len(),
        new_ctx.routes[rb].len() == ctx.routes[rb].len() + 1,
        new_ctx.routes[rs].len() == ctx.routes[rs].len(),
        forall|r: int| 0 <= r < ctx.routes.len() && r != rb && r != rs ==> #[trigger] new_ctx.routes[r] == ctx.routes[r],
        (forall|v: int| 1 <= v < sol.len() ==> #[trigger] sol.load[v] > 0) ==> (forall|v: int|
            1 <= v < new_sol.len() ==> #[trigger] new_sol.load[v] > 0),
{
    let routes = ctx.routes;
    let rbig = routes[rb];
    let rsmall = routes[rs];
    let big = rbig[ib];
    let small = rsmall[is];
    let n = sol.len() as Node;
    let split = (sol.load[big as int] - sol.load[small as int]) as i32;
    let newb = rbig.insert(pos, small);
    let news = rsmall.update(is, n);
    let mid = routes.update(rb, newb);
    lemma_route_facts(sol, ctx, rb);
    lemma_route_facts(sol, ctx, rs);
    lemma_linked_at(sol, rbig, ib);
    lemma_linked_at(sol, rsmall, is);
    assert forall|c: Node| #[trigger] total_route_load(customer_loads(new_sol, c), new_ctx.routes) == total_route_load(
        customer_loads(sol, c),
        routes,
    ) by {
        let m = customer_loads(sol, c);
        let m2 = customer_loads(new_sol, c);
        let mb = m.update(big as int, m2[big as int]);
        // On the old routes, the new weights are the old ones with the larger node's changed.
        assert forall|r: int| 0 <= r < routes.len() implies #[trigger] load_sum(m2, routes[r]) == load_sum(mb, routes[r]) by {
            lemma_route_facts(sol, ctx, r);
            assert forall|q: int| 0 <= q < routes[r].len() implies m2[#[trigger] routes[r][q] as int] == mb[routes[r][q] as int] by {
                lemma_linked_at(sol, routes[r], q);
            }
            lemma_load_sum_frame(mb, m2, routes[r]);
        }
        assert forall|r: int| 0 <= r < routes.len() && r != rb implies #[trigger] load_sum(m2, routes[r]) == load_sum(m, routes[r]) by {
            lemma_route_facts(sol, ctx, r);
            assert forall|q: int| 0 <= q < routes[r].len() implies #[trigger] routes[r][q] < m.len() by {
                lemma_linked_at(sol, routes[r], q);
            }
            lemma_load_sum_with_load(m, routes[r], big, m2[big as int]);
            assert(!routes[r].contains(big)) by {
                if routes[r].contains(big) {
                    let q = choose|q: int| 0 <= q < routes[r].len() && routes[r][q] == big;
                    crate::model::lemma_disjoint_at(routes, r, q, rb, ib);
                }
            }
        }
        assert forall|q: int| 0 <= q < rbig.len() implies #[trigger] rbig[q] < m.len() by {
            lemma_linked_at(sol, rbig, q);
        }
        lemma_load_sum_with_load(m, rbig, big, m2[big as int]);
        assert(rbig.contains(big)) by {
            assert(rbig[ib] == big);
        }
        lemma_total_route_load_frame_except(m, m2, routes, rb);
        // The two changed routes.
        lemma_total_route_load_update(m2, routes, rb, newb);
        lemma_total_route_load_update(m2, mid, rs, news);
        lemma_load_sum_insert(m2, rbig, pos, small);
        lemma_load_sum_remove(m2, rsmall, is);
        lemma_load_sum_insert(m2, rsmall.remove(is), is, n);
        assert(rsmall.remove(is).insert(is, n) =~= news);
        assert(mid[rs] == rsmall);
        assert(new_ctx.routes == mid.update(rs, news));
        assert(m2[small as int] == m[small as int]);
    }
    assert forall|r: int| 0 <= r < ctx.routes.len() && r != rb && r != rs implies #[trigger] new_ctx.routes[r] == ctx.routes[r] by {
    }
}

/// A split swap of the pair keeps every customer's delivered load, keeps
/// every node routed (the new node included), and leaves the total load of
/// every route unchanged: so exact recorded loads stay exact and routes
/// within capacity stay within capacity.
pub proof fn lemma_sd11_keeps_feasibility(
    instance: &Instance,
    sol: SolutionModel,
    ctx: ContextModel,
    new_sol: SolutionModel,
    new_ctx: ContextModel,
    rx: int,
    ry: int,
    i: int,
    k: int,
)
    requires
        routes_valid(sol, ctx),
        sol.len() < 0x7fff_ffff,
        sd11_candidate(sol, ctx, rx, ry, i, k),
        sd11_applied(instance, sol, ctx, new_sol, new_ctx, rx, ry, i, k),
    ensures
        forall|c: Node| #[trigger] delivered(new_sol, c, new_sol.len() as int) == delivered(sol, c, sol.len() as int),
        routes_cover(sol, ctx) ==> routes_cover(new_sol, new_ctx),
        forall|r: int| 0 <= r < new_ctx.routes.len() ==> #[trigger] load_sum(new_sol.load, new_ctx.routes[r]) == load_sum(
            sol.load,
            ctx.routes[r],
        ),
        loads_valid(sol, ctx) ==> loads_valid(new_sol, new_ctx),
        within_capacity(sol, ctx, instance.capacity as int) ==> within_capacity(new_sol, new_ctx, instance.capacity as int),
{
    let (rb, ib, rs, is) = sd_roles(sol, ctx, rx, ry, i, k);
    let pos = sd11_position(instance, sol, ctx, rx, ry, i, k);
    lemma_split_swap_keeps_feasibility(instance, sol, ctx, new_sol, new_ctx, rb, ib, rs, is, pos);
}

/// On a solution whose routes visit every node, with no distance from the
/// depot to itself, a split swap changes the objective by exactly its gain.
pub proof fn lemma_sd11_objective(
    instance: &Instance,
    sol: SolutionModel,
    ctx: ContextModel,
    new_sol: SolutionModel,
    new_ctx: ContextModel,
    rx: int,
    ry: int,
    i: int,
    k: int,
)
    requires
        routes_valid(sol, ctx),
        routes_cover(sol, ctx),
        sol.len() < 0x7fff_ffff,
        instance.dist(0, 0) == 0,
        sd11_candidate(sol, ctx, rx, ry, i, k),
        sd11_applied(instance, sol, ctx, new_sol, new_ctx, rx, ry, i, k),
    ensures
        objective_sum(instance, new_sol, new_sol.len() as int) == objective_sum(instance, sol, sol.len() as int)
            + sd11_gain(instance, sol, ctx, rx, ry, i, k),
{
    lemma_sd11_keeps_feasibility(instance, sol, ctx, new_sol, new_ctx, rx, ry, i, k);
    lemma_objective_is_total_cost(instance, sol, ctx);
    lemma_objective_is_total_cost(instance, new_sol, new_ctx);
    lemma_sd11_cost(instance, sol, ctx, new_sol, rx, ry, i, k);
}

/// A split swap of the pair keeps, for every customer, the load that the
/// nodes along the routes deliver to it, adds exactly one node to the
/// larger node's route, and keeps node loads positive.
pub proof fn lemma_sd11_route_deliveries(
    sol: SolutionModel,
    ctx: ContextModel,
    new_sol: SolutionModel,
    new_ctx: ContextModel,
    instance: &Instance,
    rx: int,
    ry: int,
    i: int,
    k: int,
)
    requires
        routes_valid(sol, ctx),
        sol.len() < 0x7fff_ffff,
        sd11_candidate(sol, ctx, rx, ry, i, k),
        sd11_applied(instance, sol, ctx, new_sol, new_ctx, rx, ry, i, k),
    ensures
        forall|c: Node| #[trigger] total_route_load(customer_loads(new_sol, c), new_ctx.routes) == total_route_load(
            customer_loads(sol, c),
            ctx.routes,
        ),
        ({
            let (rb, ib, rs, is) = sd_roles(sol, ctx, rx, ry, i, k);
            &&& new_ctx.routes.len() == ctx.routes.len()
            &&& new_ctx.routes[rb].len() == ctx.routes[rb].len() + 1
            &&& new_ctx.routes[rs].len() == ctx.routes[rs].len()
            &&& forall|r: int| 0 <= r < ctx.routes.len() && r != rb && r != rs ==> #[trigger] new_ctx.routes[r] == ctx.routes[r]
        }),
        (forall|v: int| 1 <= v < sol.len() ==> #[trigger] sol.load[v] > 0) ==> (forall|v: int|
            1 <= v < new_sol.len() ==> #[trigger] new_sol.load[v] > 0),
{
    let (rb, ib, rs, is) = sd_roles(sol, ctx, rx, ry, i, k);
    lemma_split_swap_route_deliveries(sol, ctx, new_sol, new_ctx, rb, ib, rs, is, sd11_position(instance, sol, ctx, rx, ry, i, k));
}

/// Every pair of nodes in two different routes (the earlier one first) with
/// different loads is a candidate, whichever holds the larger load; the
/// larger one plays the larger role. Of the two places next to the larger
/// node, the smaller node goes to the cheaper: the travelled distance after
/// the split swap is no more than with the smaller node just before the
/// larger one, no more than with it just after, and equals the old distance
/// plus the swap's gain.
pub proof fn lemma_sd11_takes_cheaper_side(
    instance: &Instance,
    sol: SolutionModel,
    ctx: ContextModel,
    new_sol: SolutionModel,
    rx: int,
    ry: int,
    i: int,
    k: int,
)
    requires
        routes_valid(sol, ctx),
        0 <= rx < ry < ctx.routes.len(),
        0 <= i < ctx.routes[rx].len(),
        0 <= k < ctx.routes[ry].len(),
        sol.load[ctx.routes[rx][i] as int] != sol.load[ctx.routes[ry][k] as int],
        new_sol.cust == sol.cust.push(
            sol.cust[(if sol.load[ctx.routes[rx][i] as int] > sol.load[ctx.routes[ry][k] as int] {
                ctx.routes[rx][i]
            } else {
                ctx.routes[ry][k]
            }) as int],
        ),
    ensures
        sd11_candidate(sol, ctx, rx, ry, i, k),
        ({
            let x_big = sol.load[ctx.routes[rx][i] as int] > sol.load[ctx.routes[ry][k] as int];
            let rb = if x_big { rx } else { ry };
            let ib = if x_big { i } else { k };
            let rs = if x_big { ry } else { rx };
            let is = if x_big { k } else { i };
            let n = sol.len() as Node;
            let old_cost = total_cost(instance, sol, ctx.routes);
            let gain = sd11_gain(instance, sol, ctx, rx, ry, i, k);
            &&& sd_roles(sol, ctx, rx, ry, i, k) == (rb, ib, rs, is)
            &&& old_cost + gain <= total_cost(instance, new_sol, sd11_routes(ctx.routes, rb, rs, is, ib, n))
            &&& old_cost + gain <= total_cost(instance, new_sol, sd11_routes(ctx.routes, rb, rs, is, ib + 1, n))
            &&& (sd11_position(instance, sol, ctx, rx, ry, i, k) == ib || sd11_position(instance, sol, ctx, rx, ry, i, k) == ib + 1)
            &&& old_cost + gain == total_cost(
                instance,
                new_sol,
                sd11_routes(ctx.routes, rb, rs, is, sd11_position(instance, sol, ctx, rx, ry, i, k), n),
            )
        }),
{
    let (rb, ib, rs, is) = sd_roles(sol, ctx, rx, ry, i, k);
    lemma_split_swap_cost(instance, sol, ctx, new_sol, rb, ib, rs, is, ib);
    lemma_split_swap_cost(instance, sol, ctx, new_sol, rb, ib, rs, is, ib + 1);
    lemma_sd11_cost(instance, sol, ctx, new_sol, rx, ry, i, k);
    lemma_route_facts(sol, ctx, rb);
    lemma_linked_at(sol, ctx.routes[rb], ib);
    if ib > 0 {
        lemma_linked_at(sol, ctx.routes[rb], ib - 1);
    }
    if ib + 1 < ctx.routes[rb].len() {
        lemma_linked_at(sol, ctx.routes[rb], ib + 1);
    }
    assert(split_swap_gain(instance, sol, ctx, rb, ib, rs, is, ib) == -detour(
        instance,
        sol.cust[prev_in(ctx.routes[rs], is) as int],
        sol.cust[ctx.routes[rs][is] as int],
        sol.cust[next_in(ctx.routes[rs], is) as int],
    ) + detour(
        instance,
        sol.cust[prev_in(ctx.routes[rs], is) as int],
        sol.cust[ctx.routes[rb][ib] as int],
        sol.cust[next_in(ctx.routes[rs], is) as int],
    ) + sd11_before_cost(instance, sol, ctx, rx, ry, i, k));
    assert(split_swap_gain(instance, sol, ctx, rb, ib, rs, is, ib + 1) == -detour(
        instance,
        sol.cust[prev_in(ctx.routes[rs], is) as int],
        sol.cust[ctx.routes[rs][is] as int],
        sol.cust[next_in(ctx.routes[rs], is) as int],
    ) + detour(
        instance,
        sol.cust[prev_in(ctx.routes[rs], is) as int],
        sol.cust[ctx.routes[rb][ib] as int],
        sol.cust[next_in(ctx.routes[rs], is) as int],
    ) + sd11_after_cost(instance, sol, ctx, rx, ry, i, k));
}

} // verus!
