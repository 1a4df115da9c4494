//! Construction heuristic for initial solution generation.
//!
//! Builds an initial feasible solution using insertion heuristics.
use vstd::prelude::*;

verus! {

use crate::Node;
use crate::cost::detour;
use crate::delta::Delta;
use crate::instance::Instance;
use crate::inter_operator::customers_fit;
use crate::model::{
    SolutionModel, ContextModel, routes_valid, routes_cover, loads_valid, within_capacity, load_sum, gap_pred,
    gap_succ, route_linked, lemma_route_facts, lemma_route_step, lemma_linked_at, lemma_add_single_route,
    lemma_insert_new_node, lemma_insert_new_node_cover, lemma_load_sum_insert, lemma_load_sum_frame, delivered,
    lemma_delivered_frame, embeds, lemma_embeds_refl, lemma_embeds_insert, lemma_embeds_trans,
};
use crate::random::{Random, draw, mix, advance};
use crate::delta::count_up;
use crate::route_context::RouteContext;
use crate::solution::AlkaidSolution;
use crate::utils::{calc_fleet_lower_bound, fleet_lower_bound};

/// Insertion criteria.
#[derive(Clone, Copy)]
pub enum Criterion {
    /// Cheapest detour, less `2 * gamma` times the customer's distance from
    /// the depot; `gamma` is counted in steps of 0.05 and costs are scaled
    /// by 20 to stay integral.
    Mcfic { gamma: i32 },
    /// Distance from the preceding customer; positions right after the
    /// depot are never preferred.
    Nfic,
}

/// The cost that `criterion` assigns to visiting customer `c` between
/// customers `a` and `b`.
pub open spec fn criterion_cost(instance: &Instance, criterion: Criterion, a: Node, c: Node, b: Node) -> int {
    match criterion {
        Criterion::Mcfic { gamma } => 20 * detour(instance, a, c, b) - 2 * (gamma * instance.dist(0, c as int)),
        Criterion::Nfic => if a == 0 {
            i64::MAX as int
        } else {
            instance.dist(a as int, c as int)
        },
    }
}

pub open spec fn criterion_ok(criterion: Criterion) -> bool {
    match criterion {
        Criterion::Mcfic { gamma } => 0 <= gamma <= 34,
        Criterion::Nfic => true,
    }
}

/// The cost that `criterion` assigns to visiting `c` at insertion position
/// `j` of `route`.
pub open spec fn gap_criterion_cost(instance: &Instance, sol: SolutionModel, criterion: Criterion, route: Seq<Node>, j: int, c: Node) -> int {
    criterion_cost(instance, criterion, sol.cust[gap_pred(route, j) as int], c, sol.cust[gap_succ(route, j) as int])
}

/// How many of the insertion positions `0..=k` of `route` give customer `c`
/// the cost `v` under `criterion`.
spec fn tied_positions(
    instance: &Instance,
    sol: SolutionModel,
    criterion: Criterion,
    route: Seq<Node>,
    c: Node,
    k: int,
    v: int,
) -> int
    decreases k + 1,
{
    if k < 0 {
        0
    } else {
        tied_positions(instance, sol, criterion, route, c, k - 1, v) + if gap_criterion_cost(instance, sol, criterion, route, k, c)
            == v {
            1int
        } else {
            0int
        }
    }
}

/// When every position up to `k` costs more than `v`, none is counted.
proof fn lemma_tied_none(instance: &Instance, sol: SolutionModel, criterion: Criterion, route: Seq<Node>, c: Node, k: int, v: int)
    requires
        forall|j: int| 0 <= j <= k ==> v < #[trigger] gap_criterion_cost(instance, sol, criterion, route, j, c),
    ensures
        tied_positions(instance, sol, criterion, route, c, k, v) == 0,
    decreases k + 1,
{
    if k >= 0 {
        lemma_tied_none(instance, sol, criterion, route, c, k - 1, v);
    }
}

/// At most `k + 1` positions are counted up to `k`.
proof fn lemma_tied_bound(instance: &Instance, sol: SolutionModel, criterion: Criterion, route: Seq<Node>, c: Node, k: int, v: int)
    ensures
        0 <= tied_positions(instance, sol, criterion, route, c, k, v) <= if k < 0 { 0 } else { k + 1 },
    decreases k + 1,
{
    if k >= 0 {
        lemma_tied_bound(instance, sol, criterion, route, c, k - 1, v);
    }
}

/// The total demand of customer `c` still waiting in a candidate list.
pub open spec fn pending(list: Seq<(Node, i32)>, c: Node) -> int
    decreases list.len(),
{
    if list.len() == 0 {
        0
    } else {
        pending(list.drop_last(), c) + if list.last().0 == c {
            list.last().1 as int
        } else {
            0
        }
    }
}

/// What customer `c` asks for: its demand, or nothing for the depot or a
/// customer without positive demand.
pub open spec fn requested(instance: &Instance, c: Node) -> int {
    if 1 <= c < instance.num_customers && instance.demands@[c as int] > 0 {
        instance.demands@[c as int] as int
    } else {
        0
    }
}

/// Every node but the depot carries a positive load no larger than a
/// vehicle's capacity.
pub open spec fn node_loads_ok(sol: SolutionModel, capacity: int) -> bool {
    forall|v: int| 1 <= v < sol.len() ==> 0 < #[trigger] sol.load[v] <= capacity
}

/// Every candidate serves a customer of the instance with a positive
/// demand no larger than a vehicle's capacity.
pub open spec fn candidates_ok(instance: &Instance, list: Seq<(Node, i32)>) -> bool {
    forall|q: int|
        0 <= q < list.len() ==> 1 <= (#[trigger] list[q]).0 < instance.num_customers && 0 < list[q].1 <= instance.capacity
}

/// Changing one candidate changes the pending demand by the difference.
proof fn lemma_pending_update(list: Seq<(Node, i32)>, pos: int, x: (Node, i32), c: Node)
    requires
        0 <= pos < list.len(),
    ensures
        pending(list.update(pos, x), c) == pending(list, c) - (if list[pos].0 == c { list[pos].1 as int } else { 0 }) + (
        if x.0 == c {
            x.1 as int
        } else {
            0
        }),
    decreases list.len(),
{
    let up = list.update(pos, x);
    if pos == list.len() - 1 {
        assert(up.drop_last() =~= list.drop_last());
    } else {
        assert(up.drop_last() =~= list.drop_last().update(pos, x));
        lemma_pending_update(list.drop_last(), pos, x, c);
    }
}

/// Taking a candidate out by moving the last one into its place lowers the
/// pending demand by that candidate's demand.
proof fn lemma_pending_swap_remove(list: Seq<(Node, i32)>, pos: int, c: Node)
    requires
        0 <= pos < list.len(),
    ensures
        pending(list.update(pos, list.last()).drop_last(), c) == pending(list, c) - (if list[pos].0 == c {
            list[pos].1 as int
        } else {
            0
        }),
{
    let last = list.last();
    if pos == list.len() - 1 {
        assert(list.update(pos, last).drop_last() =~= list.drop_last());
    } else {
        assert(list.update(pos, last).drop_last() =~= list.drop_last().update(pos, last));
        lemma_pending_update(list.drop_last(), pos, last, c);
    }
}

/// Appending a candidate raises the pending demand by its demand.
proof fn lemma_pending_push(list: Seq<(Node, i32)>, x: (Node, i32), c: Node)
    ensures
        pending(list.push(x), c) == pending(list, c) + if x.0 == c { x.1 as int } else { 0 },
{
    assert(list.push(x).drop_last() =~= list);
}

/// Swap-removing keeps every candidate sound.
proof fn lemma_candidates_sound_swap_remove(instance: &Instance, list: Seq<(Node, i32)>, pos: int)
    requires
        candidates_sound(instance, list),
        0 <= pos < list.len(),
    ensures
        candidates_sound(instance, list.update(pos, list.last()).drop_last()),
{
    let nl = list.update(pos, list.last()).drop_last();
    assert forall|q: int| 0 <= q < nl.len() implies (#[trigger] nl[q]).0 < instance.num_customers && 0 <= nl[q].1 by {
        if q == pos {
            assert(nl[q] == list[list.len() - 1]);
        } else {
            assert(nl[q] == list[q]);
        }
    }
}

/// Swap-removing keeps every candidate admissible.
proof fn lemma_candidates_swap_remove(instance: &Instance, list: Seq<(Node, i32)>, pos: int)
    requires
        candidates_ok(instance, list),
        0 <= pos < list.len(),
    ensures
        candidates_ok(instance, list.update(pos, list.last()).drop_last()),
{
    let nl = list.update(pos, list.last()).drop_last();
    assert forall|q: int| 0 <= q < nl.len() implies 1 <= (#[trigger] nl[q]).0 < instance.num_customers && 0 < nl[q].1
        <= instance.capacity by {
        if q == pos {
            assert(nl[q] == list[list.len() - 1]);
        } else {
            assert(nl[q] == list[q]);
        }
    }
}

/// A new node adds its load to its customer's delivered load.
proof fn lemma_delivered_inserted(sol: SolutionModel, cust: Node, l: i32, p: Node, s: Node, c: Node)
    requires
        sol.wf(),
        p < sol.len(),
        s < sol.len(),
    ensures
        delivered(sol.inserted(cust, l, p, s), c, sol.len() + 1int) == delivered(sol, c, sol.len() as int) + if cust == c {
            l as int
        } else {
            0
        },
{
    let ns = sol.inserted(cust, l, p, s);
    lemma_delivered_frame(sol, ns, c, sol.len() as int);
}

/// The extra load and its bounds after a node gets inserted.
proof fn lemma_node_loads_inserted(sol: SolutionModel, capacity: int, cust: Node, l: i32, p: Node, s: Node)
    requires
        sol.wf(),
        p < sol.len(),
        s < sol.len(),
        node_loads_ok(sol, capacity),
        0 < l <= capacity,
    ensures
        node_loads_ok(sol.inserted(cust, l, p, s), capacity),
{
    let ns = sol.inserted(cust, l, p, s);
    assert forall|v: int| 1 <= v < ns.len() implies 0 < #[trigger] ns.load[v] <= capacity by {
        if v < sol.len() {
            assert(ns.load[v] == sol.load[v]);
        } else {
            assert(v == sol.load.len());
            assert(ns.load == sol.load.push(l));
            assert(ns.load[v] == l);
        }
    }
}

/// Calculates insertion cost based on criterion.
fn calc_insertion_cost(
    instance: &Instance,
    solution: &AlkaidSolution,
    predecessor: Node,
    successor: Node,
    customer: Node,
    criterion: Criterion,
) -> (cost: i64)
    requires
        instance.wf(),
        solution@.wf(),
        customers_fit(instance, solution@),
        predecessor < solution@.len(),
        successor < solution@.len(),
        customer < instance.num_customers,
        criterion_ok(criterion),
    ensures
        cost == criterion_cost(instance, criterion, solution@.cust[predecessor as int], customer, solution@.cust[successor as int]),
{
    let pre_customer = solution.customer(predecessor);
    let suc_customer = solution.customer(successor);

    match criterion {
        Criterion::Mcfic { gamma } => {
            let g = gamma as i64;
            let d0 = instance.distance(0, customer) as i64;
            proof {
                assert(-0x8000_0000 * 34 <= g * d0 <= 0x8000_0000 * 34) by (nonlinear_arith)
                    requires
                        0 <= g <= 34,
                        -0x8000_0000 <= d0 <= 0x7fff_ffff,
                ;
            }
            20 * (instance.distance(pre_customer, customer) as i64 + instance.distance(customer, suc_customer) as i64
                - instance.distance(pre_customer, suc_customer) as i64) - 2 * (g * d0)
        },
        Criterion::Nfic => {
            if pre_customer == 0 {
                i64::MAX
            } else {
                instance.distance(pre_customer, customer) as i64
            }
        },
    }
}

/// Finds best insertion for a customer in a route.
fn find_best_insertion(
    instance: &Instance,
    solution: &AlkaidSolution,
    context: &RouteContext,
    route_index: Node,
    customer: Node,
    criterion: Criterion,
    random: &mut Random,
) -> (res: (Node, Node, Delta))
    requires
        instance.wf(),
        customers_fit(instance, solution@),
        routes_valid(solution@, context@),
        route_index < context@.routes.len(),
        customer < instance.num_customers,
        criterion_ok(criterion),
    ensures
        res.2.counter >= 1,
        res.2.counter == tied_positions(instance, solution@, criterion, context@.routes[route_index as int], customer, context@.routes[route_index as int].len() as int, res.2.value as int),
        exists|j: int|
            0 <= j <= context@.routes[route_index as int].len() && res.0 == gap_pred(context@.routes[route_index as int], j)
                && res.1 == gap_succ(context@.routes[route_index as int], j) && res.2.value == gap_criterion_cost(
                instance,
                solution@,
                criterion,
                context@.routes[route_index as int],
                j,
                customer,
            ),
        forall|j: int|
            0 <= j <= context@.routes[route_index as int].len() ==> res.2.value <= #[trigger] gap_criterion_cost(
                instance,
                solution@,
                criterion,
                context@.routes[route_index as int],
                j,
                customer,
            ),
{
    let ghost route = context@.routes[route_index as int];
    let ghost sol = solution@;
    proof {
        lemma_route_facts(solution@, context@, route_index as int);
    }
    let head = context.head(route_index);
    let head_cost = calc_insertion_cost(instance, solution, 0, head, customer, criterion);

    let mut best_predecessor: Node = 0;
    let mut best_successor: Node = head;
    let mut best_delta = Delta::new(head_cost, 1);
    let ghost mut k: int = 0;
    let ghost mut jb: int = 0;
    proof {
        assert(tied_positions(instance, sol, criterion, route, customer, -1, head_cost as int) == 0);
        assert(tied_positions(instance, sol, criterion, route, customer, 0, head_cost as int) == 1);
    }

    let mut node_index: Node = head;
    while node_index != 0
        invariant
            instance.wf(),
            customers_fit(instance, sol),
            sol == solution@,
            sol.wf(),
            route_linked(sol, route),
            customer < instance.num_customers,
            criterion_ok(criterion),
            0 <= k <= route.len(),
            node_index == gap_succ(route, k),
            0 <= jb <= k,
            best_predecessor == gap_pred(route, jb),
            best_successor == gap_succ(route, jb),
            best_delta.counter >= 1,
            best_delta.counter == tied_positions(instance, sol, criterion, route, customer, k, best_delta.value as int),
            route.len() < 0x7fff_ffff,
            best_delta.value == gap_criterion_cost(instance, sol, criterion, route, jb, customer),
            forall|j: int| 0 <= j <= k ==> best_delta.value <= #[trigger] gap_criterion_cost(instance, sol, criterion, route, j, customer),
        decreases route.len() - k,
    {
        proof {
            lemma_route_step(sol, route, k);
            lemma_route_step(sol, route, k + 1);
        }
        let successor = solution.successor(node_index);
        let cost = calc_insertion_cost(instance, solution, node_index, successor, customer, criterion);
        assert(cost == gap_criterion_cost(instance, sol, criterion, route, k + 1, customer));

        let ghost old_value = best_delta.value;
        proof {
            lemma_tied_bound(instance, sol, criterion, route, customer, k, old_value as int);
            if cost < old_value {
                lemma_tied_none(instance, sol, criterion, route, customer, k, cost as int);
            }
        }
        if best_delta.update(cost, random) {
            best_predecessor = node_index;
            best_successor = successor;
            proof {
                jb = k + 1;
            }
        }
        node_index = successor;
        proof {
            k = k + 1;
        }
    }
    proof {
        lemma_route_step(sol, route, k);
    }

    (best_predecessor, best_successor, best_delta)
}

/// Adds a new route with a random candidate.
fn add_route(
    candidate_list: &mut Vec<(Node, i32)>,
    random: &mut Random,
    solution: &mut AlkaidSolution,
    context: &mut RouteContext,
) -> (position: usize)
    requires
        1 <= old(candidate_list)@.len() <= 0x7fff_ffff,
        routes_valid(old(solution)@, old(context)@),
        old(solution)@.len() < 0x7fff_ffff,
        old(context)@.routes.len() < 0xffff_ffff,
        forall|q: int| 0 <= q < old(candidate_list)@.len() ==> 0 <= (#[trigger] old(candidate_list)@[q]).1,
    ensures
        position == draw(old(random)@, 0, (old(candidate_list)@.len() - 1) as i32),
        final(random)@ == advance(old(random)@),
        position < old(candidate_list)@.len(),
        final(candidate_list)@ == old(candidate_list)@.update(position as int, old(candidate_list)@.last()).drop_last(),
        ({
            let (customer, demand) = old(candidate_list)@[position as int];
            let n = old(solution)@.len() as Node;
            &&& final(solution)@ == old(solution)@.inserted(customer, demand, 0, 0)
            &&& final(context)@ == (ContextModel {
                heads: old(context)@.heads.push(n),
                tails: old(context)@.tails.push(n),
                loads: old(context)@.loads.push(demand),
                routes: old(context)@.routes.push(seq![n]),
            })
        }),
        routes_valid(final(solution)@, final(context)@),
        routes_cover(old(solution)@, old(context)@) ==> routes_cover(final(solution)@, final(context)@),
{
    let position = random.next_int(0, candidate_list.len() as i32 - 1) as usize;
    let (customer, demand) = candidate_list[position];
    proof {
        lemma_add_single_route(solution@, context@, customer, demand);
    }
    let node_index = solution.insert(customer, demand, 0, 0);

    let last = candidate_list[candidate_list.len() - 1];
    candidate_list.set(position, last);
    candidate_list.pop();

    context.add_route(node_index, node_index, demand);
    position
}

/// Every candidate serves a customer of the instance with a load that a
/// node can carry (not negative).
pub open spec fn candidates_sound(instance: &Instance, list: Seq<(Node, i32)>) -> bool {
    forall|q: int| 0 <= q < list.len() ==> (#[trigger] list[q]).0 < instance.num_customers && 0 <= list[q].1
}

/// What the insertion phase needs to run: valid routes over nodes that
/// serve customers of the instance, sound candidates, and room for all
/// candidates in the node pool and in the route list.
pub open spec fn build_core(instance: &Instance, sol: SolutionModel, ctx: ContextModel, list: Seq<(Node, i32)>) -> bool {
    &&& instance.wf()
    &&& customers_fit(instance, sol)
    &&& routes_valid(sol, ctx)
    &&& candidates_sound(instance, list)
    &&& sol.len() + list.len() < 0x7fff_ffff
    &&& ctx.routes.len() + list.len() < 0x7fff_ffff
}

/// The partial construction is feasible: recorded loads that match, routes
/// within capacity, and candidates no larger than a vehicle's capacity.
pub open spec fn build_feasible(instance: &Instance, sol: SolutionModel, ctx: ContextModel, list: Seq<(Node, i32)>) -> bool {
    &&& loads_valid(sol, ctx)
    &&& within_capacity(sol, ctx, instance.capacity as int)
    &&& candidates_ok(instance, list)
}

/// A sound and feasible partial construction.
pub open spec fn build_ok(instance: &Instance, sol: SolutionModel, ctx: ContextModel, list: Seq<(Node, i32)>) -> bool {
    &&& build_core(instance, sol, ctx, list)
    &&& build_feasible(instance, sol, ctx, list)
}

/// The `(customer, load)` pairs of the nodes from `m` on.
pub open spec fn added_nodes(sol: SolutionModel, m: int) -> Seq<(Node, i32)> {
    Seq::new((sol.len() - m) as nat, |q: int| (sol.cust[m + q], sol.load[m + q]))
}

/// `(sol, ctx, list)` grew out of `(sol0, ctx0, list0)` by turning
/// candidates into nodes: the old nodes keep their customers and loads,
/// the new nodes and the candidates left are exactly the old candidates,
/// every old route keeps its nodes in order (new nodes may come between
/// them), routes are only added after the old ones, and no more routes
/// are added than candidates were taken.
pub open spec fn grown(
    sol0: SolutionModel,
    ctx0: ContextModel,
    list0: Seq<(Node, i32)>,
    sol: SolutionModel,
    ctx: ContextModel,
    list: Seq<(Node, i32)>,
) -> bool {
    &&& sol0.len() <= sol.len()
    &&& forall|v: int| 0 <= v < sol0.len() ==> #[trigger] sol.cust[v] == sol0.cust[v] && sol.load[v] == sol0.load[v]
    &&& added_nodes(sol, sol0.len() as int).to_multiset().add(list.to_multiset()) == list0.to_multiset()
    &&& ctx0.routes.len() <= ctx.routes.len()
    &&& forall|r: int| 0 <= r < ctx0.routes.len() ==> embeds(#[trigger] ctx0.routes[r], ctx.routes[r])
    &&& ctx.routes.len() - ctx0.routes.len() <= list0.len() - list.len()
}

/// Nothing has grown yet.
proof fn lemma_grown_refl(sol: SolutionModel, ctx: ContextModel, list: Seq<(Node, i32)>)
    ensures
        grown(sol, ctx, list, sol, ctx, list),
{
    broadcast use vstd::multiset::group_multiset_axioms;
    broadcast use vstd::multiset::group_multiset_properties;
    broadcast use vstd::seq_lib::group_to_multiset_ensures;

    assert(added_nodes(sol, sol.len() as int) =~= Seq::<(Node, i32)>::empty());
    assert(added_nodes(sol, sol.len() as int).to_multiset() =~= vstd::multiset::Multiset::<(Node, i32)>::empty());
    assert(vstd::multiset::Multiset::<(Node, i32)>::empty().add(list.to_multiset()) =~= list.to_multiset());
    assert forall|r: int| 0 <= r < ctx.routes.len() implies embeds(#[trigger] ctx.routes[r], ctx.routes[r]) by {
        lemma_embeds_refl(ctx.routes[r]);
    }
}

/// Taking candidate `pos` out of the list (moving the last one into its
/// place) and adding it as a new node, either into the existing routes
/// (each old route staying a subsequence of its new version) or into one
/// new route, keeps the growth relation.
proof fn lemma_grown_step(
    sol0: SolutionModel,
    ctx0: ContextModel,
    list0: Seq<(Node, i32)>,
    sol: SolutionModel,
    ctx: ContextModel,
    list: Seq<(Node, i32)>,
    new_sol: SolutionModel,
    new_ctx: ContextModel,
    pos: int,
    opened: bool,
)
    requires
        grown(sol0, ctx0, list0, sol, ctx, list),
        sol.wf(),
        0 <= pos < list.len(),
        new_sol.len() == sol.len() + 1,
        new_sol.cust == sol.cust.push(list[pos].0),
        new_sol.load == sol.load.push(list[pos].1),
        opened ==> new_ctx.routes.len() == ctx.routes.len() + 1 && forall|r: int|
            0 <= r < ctx.routes.len() ==> #[trigger] new_ctx.routes[r] == ctx.routes[r],
        !opened ==> new_ctx.routes.len() == ctx.routes.len() && forall|r: int|
            0 <= r < ctx.routes.len() ==> embeds(#[trigger] ctx.routes[r], new_ctx.routes[r]),
    ensures
        grown(sol0, ctx0, list0, new_sol, new_ctx, list.update(pos, list.last()).drop_last()),
{
    broadcast use vstd::multiset::group_multiset_axioms;
    broadcast use vstd::seq_lib::group_to_multiset_ensures;

    let m = sol0.len() as int;
    let x = list[pos];
    let last = list.last();
    let u = list.update(pos, last);
    let new_list = u.drop_last();
    assert(added_nodes(new_sol, m) =~= added_nodes(sol, m).push(x));
    vstd::seq_lib::to_multiset_update(list, pos, last);
    assert(u[u.len() - 1] == last);
    assert(new_list =~= u.remove(u.len() - 1));
    vstd::seq_lib::to_multiset_remove(u, u.len() - 1);
    assert(list.to_multiset().count(x) > 0) by {
        assert(list.contains(x));
    }
    assert(new_list.to_multiset() =~= list.to_multiset().remove(x));
    assert(added_nodes(new_sol, m).to_multiset().add(new_list.to_multiset()) =~= list0.to_multiset());
    assert forall|v: int| 0 <= v < sol0.len() implies #[trigger] new_sol.cust[v] == sol0.cust[v] && new_sol.load[v] == sol0.load[v] by {
        assert(sol.cust[v] == sol0.cust[v]);
    }
    assert forall|r: int| 0 <= r < ctx0.routes.len() implies embeds(#[trigger] ctx0.routes[r], new_ctx.routes[r]) by {
        assert(embeds(ctx0.routes[r], ctx.routes[r]));
        if opened {
            assert(new_ctx.routes[r] == ctx.routes[r]);
        } else {
            assert(embeds(ctx.routes[r], new_ctx.routes[r]));
            lemma_embeds_trans(ctx0.routes[r], ctx.routes[r], new_ctx.routes[r]);
        }
    }
}

/// Every customer's delivered plus pending load is what it was in
/// `(sol0, list0)`.
pub open spec fn conserved(sol: SolutionModel, list: Seq<(Node, i32)>, sol0: SolutionModel, list0: Seq<(Node, i32)>) -> bool {
    forall|c: Node|
        #[trigger] delivered(sol, c, sol.len() as int) + pending(list, c) == delivered(sol0, c, sol0.len() as int) + pending(
            list0,
            c,
        )
}

/// Growth composes.
proof fn lemma_grown_trans(
    sol0: SolutionModel,
    ctx0: ContextModel,
    list0: Seq<(Node, i32)>,
    sol1: SolutionModel,
    ctx1: ContextModel,
    list1: Seq<(Node, i32)>,
    sol2: SolutionModel,
    ctx2: ContextModel,
    list2: Seq<(Node, i32)>,
)
    requires
        grown(sol0, ctx0, list0, sol1, ctx1, list1),
        grown(sol1, ctx1, list1, sol2, ctx2, list2),
    ensures
        grown(sol0, ctx0, list0, sol2, ctx2, list2),
{
    broadcast use vstd::multiset::group_multiset_axioms;

    let m0 = sol0.len() as int;
    let m1 = sol1.len() as int;
    let a1 = added_nodes(sol1, m0);
    let a12 = added_nodes(sol2, m1);
    assert forall|q: int| 0 <= q < a1.len() implies #[trigger] added_nodes(sol2, m0)[q] == a1[q] by {
        assert(sol2.cust[m0 + q] == sol1.cust[m0 + q]);
    }
    assert(added_nodes(sol2, m0) =~= a1 + a12);
    vstd::seq_lib::lemma_multiset_commutative(a1, a12);
    assert(added_nodes(sol2, m0).to_multiset().add(list2.to_multiset()) =~= list0.to_multiset());
    assert forall|v: int| 0 <= v < sol0.len() implies #[trigger] sol2.cust[v] == sol0.cust[v] && sol2.load[v] == sol0.load[v] by {
        assert(sol1.cust[v] == sol0.cust[v]);
        assert(sol2.cust[v] == sol1.cust[v]);
    }
    assert forall|r: int| 0 <= r < ctx0.routes.len() implies embeds(#[trigger] ctx0.routes[r], ctx2.routes[r]) by {
        assert(embeds(ctx0.routes[r], ctx1.routes[r]));
        assert(embeds(ctx1.routes[r], ctx2.routes[r]));
        lemma_embeds_trans(ctx0.routes[r], ctx1.routes[r], ctx2.routes[r]);
    }
}

/// The pieces that a demand `d` of customer `c` is cut into: pieces of a
/// full `capacity` and a last, smaller piece, in that order.
pub open spec fn split_pieces(c: Node, d: int, capacity: int) -> Seq<(Node, i32)>
    decreases (if d > 0 { d } else { 0 }),
{
    if d <= 0 || capacity <= 0 {
        Seq::empty()
    } else {
        let p = if d < capacity { d } else { capacity };
        seq![(c, p as i32)] + split_pieces(c, d - p, capacity)
    }
}

/// The pieces of the demands of customers `1..m`, customer by customer.
pub open spec fn all_pieces(instance: &Instance, m: int) -> Seq<(Node, i32)>
    decreases m,
{
    if m <= 1 {
        Seq::empty()
    } else {
        all_pieces(instance, m - 1) + split_pieces((m - 1) as Node, instance.demands@[m - 1] as int, instance.capacity as int)
    }
}

/// Inserting candidate `pos` into route `r` at position `j`, when it fits,
/// keeps a partial construction sound and the loads conserved.
proof fn lemma_build_insert(
    instance: &Instance,
    sol: SolutionModel,
    ctx: ContextModel,
    list: Seq<(Node, i32)>,
    r: int,
    j: int,
    pos: int,
)
    requires
        build_core(instance, sol, ctx, list),
        0 <= r < ctx.routes.len(),
        0 <= j <= ctx.routes[r].len(),
        0 <= pos < list.len(),
        ctx.loads[r] + list[pos].1 <= instance.capacity,
    ensures
        ({
            let (customer, demand) = list[pos];
            let route = ctx.routes[r];
            let n = sol.len() as Node;
            let new_sol = sol.inserted(customer, demand, gap_pred(route, j), gap_succ(route, j));
            let new_list = list.update(pos, list.last()).drop_last();
            let heads = if j == 0 { ctx.heads.update(r, n) } else { ctx.heads };
            let new_ctx = ContextModel {
                heads,
                loads: ctx.loads.update(r, (ctx.loads[r] + demand) as i32),
                routes: ctx.routes.update(r, route.insert(j, n)),
                ..ctx
            };
            &&& gap_pred(route, j) < sol.len()
            &&& gap_succ(route, j) < sol.len()
            &&& (gap_pred(route, j) == 0) == (j == 0)
            &&& build_core(instance, new_sol, new_ctx, new_list)
            &&& (build_feasible(instance, sol, ctx, list) ==> build_feasible(instance, new_sol, new_ctx, new_list))
            &&& conserved(new_sol, new_list, sol, list)
            &&& (routes_cover(sol, ctx) ==> routes_cover(new_sol, new_ctx))
            &&& (node_loads_ok(sol, instance.capacity as int) && candidates_ok(instance, list) ==> node_loads_ok(
                new_sol,
                instance.capacity as int,
            ) && candidates_ok(instance, new_list))
        }),
{
    let (customer, demand) = list[pos];
    let route = ctx.routes[r];
    let n = sol.len() as Node;
    let p = gap_pred(route, j);
    let s = gap_succ(route, j);
    let new_sol = sol.inserted(customer, demand, p, s);
    let new_list = list.update(pos, list.last()).drop_last();
    let heads = if j == 0 { ctx.heads.update(r, n) } else { ctx.heads };
    let routes = ctx.routes.update(r, route.insert(j, n));
    let new_ctx = ContextModel { heads, loads: ctx.loads.update(r, (ctx.loads[r] + demand) as i32), routes, ..ctx };
    assert(0 <= list[pos].1);
    lemma_insert_new_node(sol, ctx, r, j, customer, demand);
    lemma_route_facts(sol, ctx, r);
    if j > 0 {
        lemma_linked_at(sol, route, j - 1);
    }
    assert(routes_valid(new_sol, new_ctx)) by {
        let mid = ContextModel { heads, routes, ..ctx };
        assert(routes_valid(new_sol, mid));
        assert(new_ctx.routes == mid.routes && new_ctx.heads == mid.heads && new_ctx.loads.len() == mid.loads.len());
    }
    assert(new_sol.succ.len() == sol.len() + 1);
    if routes_cover(sol, ctx) {
        lemma_insert_new_node_cover(sol, ctx, r, j, new_sol);
        assert(routes_cover(new_sol, ContextModel { routes, ..ctx }));
        assert(routes_cover(new_sol, new_ctx)) by {
            assert(new_ctx.routes == routes);
            assert forall|v: Node| 0 < v < new_sol.len() implies #[trigger] crate::model::routed(new_ctx.routes, v) by {
                assert(crate::model::routed(routes, v));
            }
        }
    }
    // Loads of the routes.
    if build_feasible(instance, sol, ctx, list) {
        assert forall|rr: int| #![trigger new_ctx.loads[rr]] #![trigger new_ctx.routes[rr]] 0 <= rr < routes.len() implies new_ctx.loads[rr] == load_sum(new_sol.load, new_ctx.routes[rr])
            && load_sum(new_sol.load, new_ctx.routes[rr]) <= instance.capacity by {
            let old_route = ctx.routes[rr];
            lemma_route_facts(sol, ctx, rr);
            assert forall|q: int| 0 <= q < old_route.len() implies new_sol.load[#[trigger] old_route[q] as int] == sol.load[old_route[q] as int] by {
                lemma_linked_at(sol, old_route, q);
            }
            lemma_load_sum_frame(sol.load, new_sol.load, old_route);
            if rr == r {
                lemma_load_sum_insert(new_sol.load, old_route, j, n);
            }
        }
        lemma_candidates_swap_remove(instance, list, pos);
        assert(loads_valid(new_sol, new_ctx));
        assert(within_capacity(new_sol, new_ctx, instance.capacity as int));
    }
    if node_loads_ok(sol, instance.capacity as int) && candidates_ok(instance, list) {
        lemma_node_loads_inserted(sol, instance.capacity as int, customer, demand, p, s);
        lemma_candidates_swap_remove(instance, list, pos);
    }
    lemma_candidates_sound_swap_remove(instance, list, pos);
    assert(customers_fit(instance, new_sol)) by {
        assert forall|v: int| 0 <= v < new_sol.cust.len() implies #[trigger] new_sol.cust[v] < instance.num_customers by {
            if v < sol.cust.len() {
                assert(new_sol.cust[v] == sol.cust[v]);
            }
        }
    }
    assert forall|c: Node| #[trigger] delivered(new_sol, c, new_sol.len() as int) + pending(new_list, c) == delivered(sol, c, sol.len() as int)
        + pending(list, c) by {
        lemma_delivered_inserted(sol, customer, demand, p, s, c);
        lemma_pending_swap_remove(list, pos, c);
    }
    assert(instance.wf());
    assert(customers_fit(instance, new_sol));
    assert(routes_valid(new_sol, new_ctx));
    assert(new_sol.len() + new_list.len() < 0x7fff_ffff);
}

/// Opening a new route for candidate `pos` keeps a partial construction
/// sound and the loads conserved.
proof fn lemma_build_add_route(instance: &Instance, sol: SolutionModel, ctx: ContextModel, list: Seq<(Node, i32)>, pos: int)
    requires
        build_core(instance, sol, ctx, list),
        0 <= pos < list.len(),
    ensures
        ({
            let (customer, demand) = list[pos];
            let n = sol.len() as Node;
            let new_sol = sol.inserted(customer, demand, 0, 0);
            let new_list = list.update(pos, list.last()).drop_last();
            let new_ctx = ContextModel {
                heads: ctx.heads.push(n),
                tails: ctx.tails.push(n),
                loads: ctx.loads.push(demand),
                routes: ctx.routes.push(seq![n]),
            };
            &&& build_core(instance, new_sol, new_ctx, new_list)
            &&& (build_feasible(instance, sol, ctx, list) ==> build_feasible(instance, new_sol, new_ctx, new_list))
            &&& conserved(new_sol, new_list, sol, list)
            &&& (routes_cover(sol, ctx) ==> routes_cover(new_sol, new_ctx))
            &&& (node_loads_ok(sol, instance.capacity as int) && candidates_ok(instance, list) ==> node_loads_ok(
                new_sol,
                instance.capacity as int,
            ) && candidates_ok(instance, new_list))
        }),
{
    let (customer, demand) = list[pos];
    let n = sol.len() as Node;
    let new_sol = sol.inserted(customer, demand, 0, 0);
    let new_list = list.update(pos, list.last()).drop_last();
    let new_ctx = ContextModel {
        heads: ctx.heads.push(n),
        tails: ctx.tails.push(n),
        loads: ctx.loads.push(demand),
        routes: ctx.routes.push(seq![n]),
    };
    assert(0 <= list[pos].1);
    lemma_add_single_route(sol, ctx, customer, demand);
    if build_feasible(instance, sol, ctx, list) {
    assert forall|rr: int| #![trigger new_ctx.loads[rr]] #![trigger new_ctx.routes[rr]] 0 <= rr < new_ctx.routes.len() implies new_ctx.loads[rr] == load_sum(new_sol.load, new_ctx.routes[rr])
        && load_sum(new_sol.load, new_ctx.routes[rr]) <= instance.capacity by {
        if rr < ctx.routes.len() {
            let old_route = ctx.routes[rr];
            assert(new_ctx.routes[rr] == old_route);
            lemma_route_facts(sol, ctx, rr);
            assert forall|q: int| 0 <= q < old_route.len() implies new_sol.load[#[trigger] old_route[q] as int] == sol.load[old_route[q] as int] by {
                lemma_linked_at(sol, old_route, q);
            }
            lemma_load_sum_frame(sol.load, new_sol.load, old_route);
        } else {
            let single = seq![n];
            assert(single.drop_last() =~= Seq::<Node>::empty());
            assert(load_sum(new_sol.load, single) == load_sum(new_sol.load, single.drop_last()) + new_sol.load[n as int]);
        }
    }
    lemma_candidates_swap_remove(instance, list, pos);
    }
    if node_loads_ok(sol, instance.capacity as int) && candidates_ok(instance, list) {
        lemma_node_loads_inserted(sol, instance.capacity as int, customer, demand, 0, 0);
        lemma_candidates_swap_remove(instance, list, pos);
    }
    lemma_candidates_sound_swap_remove(instance, list, pos);
    assert(customers_fit(instance, new_sol)) by {
        assert forall|v: int| 0 <= v < new_sol.cust.len() implies #[trigger] new_sol.cust[v] < instance.num_customers by {
            if v < sol.cust.len() {
                assert(new_sol.cust[v] == sol.cust[v]);
            }
        }
    }
    assert forall|c: Node| #[trigger] delivered(new_sol, c, new_sol.len() as int) + pending(new_list, c) == delivered(sol, c, sol.len() as int)
        + pending(list, c) by {
        lemma_delivered_inserted(sol, customer, demand, 0, 0, c);
        lemma_pending_swap_remove(list, pos, c);
    }
}

/// A state of the insertion phase: the pool, the routes and the candidates
/// left.
pub type BuildState = (SolutionModel, ContextModel, Seq<(Node, i32)>);

/// Candidate `q` fits into route `r` by the route's recorded load.
pub open spec fn fits(instance: &Instance, ctx: ContextModel, list: Seq<(Node, i32)>, r: int, q: int) -> bool {
    ctx.loads[r] + list[q].1 <= instance.capacity
}

/// No candidate fits into any route.
pub open spec fn none_fits(instance: &Instance, a: BuildState) -> bool {
    forall|r: int, q: int| 0 <= r < a.1.routes.len() && 0 <= q < a.2.len() ==> !#[trigger] fits(instance, a.1, a.2, r, q)
}

/// The state after candidate `pos` is inserted at position `j` of route `r`.
pub open spec fn insert_result(a: BuildState, r: int, pos: int, j: int) -> BuildState {
    let (sol, ctx, list) = a;
    let (c, d) = list[pos];
    let route = ctx.routes[r];
    let n = sol.len() as Node;
    (
        sol.inserted(c, d, gap_pred(route, j), gap_succ(route, j)),
        ContextModel {
            heads: if j == 0 { ctx.heads.update(r, n) } else { ctx.heads },
            loads: ctx.loads.update(r, (ctx.loads[r] + d) as i32),
            routes: ctx.routes.update(r, route.insert(j, n)),
            ..ctx
        },
        list.update(pos, list.last()).drop_last(),
    )
}

/// The state after a new route is opened with candidate `pos`.
pub open spec fn open_result(a: BuildState, pos: int) -> BuildState {
    let (sol, ctx, list) = a;
    let (c, d) = list[pos];
    let n = sol.len() as Node;
    (
        sol.inserted(c, d, 0, 0),
        ContextModel {
            heads: ctx.heads.push(n),
            tails: ctx.tails.push(n),
            loads: ctx.loads.push(d),
            routes: ctx.routes.push(seq![n]),
        },
        list.update(pos, list.last()).drop_last(),
    )
}

/// Candidate `pos` fits into route `r`, and position `j` of that route is,
/// by `criterion`, a cheapest place for it among all places of all
/// candidates that fit into the route.
pub open spec fn cheapest_insertion(instance: &Instance, criterion: Criterion, a: BuildState, r: int, pos: int, j: int) -> bool {
    let (sol, ctx, list) = a;
    &&& 0 <= r < ctx.routes.len()
    &&& 0 <= pos < list.len()
    &&& 0 <= j <= ctx.routes[r].len()
    &&& fits(instance, ctx, list, r, pos)
    &&& forall|q: int, l: int|
        0 <= q < list.len() && fits(instance, ctx, list, r, q) && 0 <= l <= ctx.routes[r].len() ==> gap_criterion_cost(
            instance,
            sol,
            criterion,
            ctx.routes[r],
            j,
            list[pos].0,
        ) <= #[trigger] gap_criterion_cost(instance, sol, criterion, ctx.routes[r], l, list[q].0)
}

/// One step of the insertion phase: a route receives a cheapest candidate
/// and place that fits it, or, when no candidate fits any route, a new
/// route is opened with one candidate.
pub open spec fn fill_step(instance: &Instance, criterion: Criterion, a: BuildState, b: BuildState) -> bool {
    ||| exists|r: int, pos: int, j: int| cheapest_insertion(instance, criterion, a, r, pos, j) && b == insert_result(a, r, pos, j)
    ||| exists|pos: int| none_fits(instance, a) && 0 <= pos < a.2.len() && b == #[trigger] open_result(a, pos)
}

/// `t` is a run of the insertion phase, step by step.
pub open spec fn fill_trace(instance: &Instance, criterion: Criterion, t: Seq<BuildState>) -> bool {
    &&& t.len() >= 1
    &&& forall|i: int| 0 <= i < t.len() - 1 ==> fill_step(instance, criterion, #[trigger] t[i], t[i + 1])
}

/// The fleet bound, held at the largest node index.
pub open spec fn fleet_cap(instance: &Instance) -> int {
    if fleet_lower_bound(instance) > u32::MAX {
        u32::MAX as int
    } else {
        fleet_lower_bound(instance)
    }
}

/// `b` follows from `a` by opening a new route with one of the candidates
/// left.
pub open spec fn open_step(a: BuildState, b: BuildState) -> bool {
    exists|pos: int| 0 <= pos < a.2.len() && b == #[trigger] open_result(a, pos)
}

/// `t` is a run of route openings: each step opens a new route with one
/// of the candidates left.
pub open spec fn open_trace(t: Seq<BuildState>) -> bool {
    &&& t.len() >= 1
    &&& forall|i: int| 0 <= i < t.len() - 1 ==> open_step(#[trigger] t[i], t[i + 1])
}

/// Opening one more route extends a run of route openings.
proof fn lemma_open_trace_push(t: Seq<BuildState>, pos: int, next: BuildState)
    requires
        open_trace(t),
        0 <= pos < t.last().2.len(),
        next == open_result(t.last(), pos),
    ensures
        open_trace(t.push(next)),
        t.push(next)[0] == t[0],
        t.push(next).last() == next,
{
    let t2 = t.push(next);
    assert forall|q: int| 0 <= q < t2.len() - 1 implies open_step(#[trigger] t2[q], t2[q + 1]) by {
        if q < t.len() - 1 {
            assert(t2[q] == t[q] && t2[q + 1] == t[q + 1]);
            assert(open_step(t[q], t[q + 1]));
        } else {
            assert(t2[q] == t.last());
            assert(0 <= pos < t2[q].2.len() && t2[q + 1] == open_result(t2[q], pos));
        }
    }
}

/// The generator state after `n` draws from state `g`.
pub open spec fn advance_n(g: u64, n: nat) -> u64
    decreases n,
{
    if n == 0 {
        g
    } else {
        advance(advance_n(g, (n - 1) as nat))
    }
}

/// The criterion that the draws from generator state `g` choose: the
/// cheapest-detour criterion with a drawn `gamma` when the first draw in
/// `[0, 1]` gives 0, the nearest-neighbour criterion otherwise.
pub open spec fn drawn_criterion(g: u64) -> Criterion {
    if draw(g, 0, 1) == 0 {
        Criterion::Mcfic { gamma: draw(advance(g), 0, 34) as i32 }
    } else {
        Criterion::Nfic
    }
}

/// Each route opening of `t0` takes the candidate at the position drawn
/// from the generator, starting in state `g0` and drawing once per opening;
/// the criterion is then drawn from the state that follows.
pub open spec fn drawn_openings(t0: Seq<BuildState>, g0: u64, criterion: Criterion) -> bool {
    &&& forall|i: int|
        0 <= i < t0.len() - 1 ==> t0[i + 1] == open_result(
            #[trigger] t0[i],
            draw(advance_n(g0, i as nat), 0, (t0[i].2.len() - 1) as i32),
        )
    &&& criterion == drawn_criterion(advance_n(g0, (t0.len() - 1) as nat))
}

/// How the construction went: starting from the depot alone, no routes
/// and all pieces of the demands as candidates, up to the fleet bound of
/// routes were opened with one candidate each (fewer only when the
/// candidates ran out); then, by `criterion`, the insertion phase ran until
/// no candidate was left, the routes taking turns (`rts`), ending in `sol`.
pub open spec fn construction_run(
    instance: &Instance,
    criterion: Criterion,
    t0: Seq<BuildState>,
    t: Seq<BuildState>,
    rts: Seq<int>,
    sol: SolutionModel,
) -> bool {
    &&& criterion_ok(criterion)
    &&& open_trace(t0)
    &&& t0[0].0 == (SolutionModel { succ: seq![0], pred: seq![0], cust: seq![0], load: seq![0] })
    &&& t0[0].1.routes.len() == 0
    &&& t0[0].2 == all_pieces(instance, instance.num_customers as int)
    &&& t0.len() - 1 <= fleet_cap(instance)
    &&& (t0.len() - 1 < fleet_cap(instance) ==> t0.last().2.len() == 0)
    &&& insertion_turns(instance, criterion, t, rts)
    &&& t[0] == t0.last()
    &&& t.last().0 == sol
    &&& t.last().2.len() == 0
}

/// `b` follows from `a` by the step that route `r` takes: when `r` is a
/// route, it receives a cheapest candidate and place that fit it; when `r`
/// is negative, no candidate fits any route and a new route is opened with
/// one candidate.
pub open spec fn turn_step(instance: &Instance, criterion: Criterion, a: BuildState, b: BuildState, r: int) -> bool {
    if r >= 0 {
        exists|pos: int, j: int| cheapest_insertion(instance, criterion, a, r, pos, j) && b == #[trigger] insert_result(a, r, pos, j)
    } else {
        none_fits(instance, a) && exists|pos: int| 0 <= pos < a.2.len() && b == #[trigger] open_result(a, pos)
    }
}

/// No candidate fits into any of the routes `lo..hi`.
pub open spec fn no_fit_between(instance: &Instance, a: BuildState, lo: int, hi: int) -> bool {
    forall|r: int, q: int| lo <= r < hi && 0 <= r < a.1.routes.len() && 0 <= q < a.2.len() ==> !#[trigger] fits(instance, a.1, a.2, r, q)
}

/// The first route that step `i` may have passed over in its round: right
/// after the route of the previous insertion when that one comes earlier,
/// otherwise the first route.
pub open spec fn round_start(rts: Seq<int>, i: int) -> int {
    if i > 0 && 0 <= rts[i - 1] < rts[i] {
        rts[i - 1] + 1
    } else {
        0
    }
}

/// `t` is a run of the insertion phase in which the routes take turns:
/// step `i` is taken by route `rts[i]` (a negative value when a new route
/// is opened); the routes passed over before it in its round take no
/// candidate, and when a step starts a new round after an insertion, the
/// routes after that insertion took none either.
pub open spec fn insertion_turns(instance: &Instance, criterion: Criterion, t: Seq<BuildState>, rts: Seq<int>) -> bool {
    &&& rts.len() + 1 == t.len()
    &&& forall|i: int| 0 <= i < rts.len() ==> turn_step(instance, criterion, #[trigger] t[i], t[i + 1], rts[i])
    &&& forall|i: int| 0 <= i < rts.len() && rts[i] >= 0 ==> no_fit_between(instance, #[trigger] t[i], round_start(rts, i), rts[i])
    &&& forall|i: int|
        1 <= i < rts.len() && 0 <= rts[i] <= rts[i - 1] ==> no_fit_between(instance, #[trigger] t[i], rts[i - 1] + 1, t[i].1.routes.len() as int)
}

/// One more turn extends a run in which the routes take turns.
proof fn lemma_turns_push(instance: &Instance, criterion: Criterion, t: Seq<BuildState>, rts: Seq<int>, next: BuildState, r: int)
    requires
        insertion_turns(instance, criterion, t, rts),
        turn_step(instance, criterion, t.last(), next, r),
        r >= 0 ==> no_fit_between(instance, t.last(), round_start(rts.push(r), rts.len() as int), r),
        rts.len() >= 1 && 0 <= r <= rts.last() ==> no_fit_between(instance, t.last(), rts.last() + 1, t.last().1.routes.len() as int),
    ensures
        insertion_turns(instance, criterion, t.push(next), rts.push(r)),
{
    let t2 = t.push(next);
    let r2 = rts.push(r);
    let n = rts.len() as int;
    assert(t.len() >= 1);
    assert forall|i: int| 0 <= i < r2.len() implies turn_step(instance, criterion, #[trigger] t2[i], t2[i + 1], r2[i]) by {
        if i < n {
            assert(t2[i] == t[i] && t2[i + 1] == t[i + 1] && r2[i] == rts[i]);
        } else {
            assert(t2[i] == t.last());
        }
    }
    assert forall|i: int| 0 <= i < r2.len() && r2[i] >= 0 implies no_fit_between(instance, #[trigger] t2[i], round_start(r2, i), r2[i]) by {
        if i < n {
            assert(t2[i] == t[i] && r2[i] == rts[i]);
            if i > 0 {
                assert(r2[i - 1] == rts[i - 1]);
            }
            assert(round_start(r2, i) == round_start(rts, i));
        } else {
            assert(t2[i] == t.last());
        }
    }
    assert forall|i: int| 1 <= i < r2.len() && 0 <= r2[i] <= r2[i - 1] implies no_fit_between(
        instance,
        #[trigger] t2[i],
        r2[i - 1] + 1,
        t2[i].1.routes.len() as int,
    ) by {
        if i < n {
            assert(t2[i] == t[i] && r2[i] == rts[i] && r2[i - 1] == rts[i - 1]);
        } else {
            assert(t2[i] == t.last());
            assert(r2[i - 1] == rts.last());
        }
    }
}

/// Taking a candidate out leaves only candidates that were there before.
proof fn lemma_swap_remove_from(list: Seq<(Node, i32)>, pos: int, q: int)
    requires
        0 <= pos < list.len(),
        0 <= q < list.len() - 1,
    ensures
        exists|q0: int| 0 <= q0 < list.len() && list.update(pos, list.last()).drop_last()[q] == list[q0],
{
    if q == pos {
        assert(list.update(pos, list.last()).drop_last()[q] == list[list.len() - 1]);
    } else {
        assert(list.update(pos, list.last()).drop_last()[q] == list[q]);
    }
}

/// The routes marked full take none of the candidates.
spec fn full_routes_full(instance: &Instance, is_full: Seq<bool>, ctx: ContextModel, list: Seq<(Node, i32)>) -> bool {
    forall|r: int, q: int|
        0 <= r < is_full.len() && is_full[r] && 0 <= q < list.len() ==> !#[trigger] fits(instance, ctx, list, r, q)
}

/// Taking a candidate out, while the full routes keep their loads, keeps
/// them full.
proof fn lemma_full_kept(
    instance: &Instance,
    is_full: Seq<bool>,
    ctx: ContextModel,
    list: Seq<(Node, i32)>,
    ctx2: ContextModel,
    pos: int,
)
    requires
        full_routes_full(instance, is_full, ctx, list),
        0 <= pos < list.len(),
        forall|r: int| 0 <= r < is_full.len() && is_full[r] ==> #[trigger] ctx2.loads[r] == ctx.loads[r],
    ensures
        full_routes_full(instance, is_full, ctx2, list.update(pos, list.last()).drop_last()),
{
    let list2 = list.update(pos, list.last()).drop_last();
    assert forall|r: int, q: int| 0 <= r < is_full.len() && is_full[r] && 0 <= q < list2.len() implies !#[trigger] fits(
        instance,
        ctx2,
        list2,
        r,
        q,
    ) by {
        lemma_swap_remove_from(list, pos, q);
        let q0 = choose|q0: int| 0 <= q0 < list.len() && list2[q] == list[q0];
        assert(!fits(instance, ctx, list, r, q0));
        assert(ctx2.loads[r] == ctx.loads[r]);
    }
}

/// Insertion with metadata: where the best candidate so far goes, what it
/// costs, and its position in the candidate list.
pub struct InsertionInfo {
    pub predecessor: Node,
    pub successor: Node,
    pub route_index: Node,
    pub cost: Delta,
    pub candidate_position: Option<usize>,
}

impl Default for InsertionInfo {
    /// No candidate yet, at the highest cost, seen zero times.
    fn default() -> (info: Self)
        ensures
            info.predecessor == 0,
            info.successor == 0,
            info.route_index == 0,
            info.cost.value == i64::MAX,
            info.cost.counter == 0,
            info.candidate_position is None,
    {
        Self { predecessor: 0, successor: 0, route_index: 0, cost: Delta::new(i64::MAX, 0), candidate_position: None }
    }
}

/// Sequential insertion strategy: routes take turns to receive the
/// cheapest candidate that fits; when no route can take any, a new route is
/// opened with a random candidate.
fn sequential_insertion(
    instance: &Instance,
    criterion: Criterion,
    candidate_list: &mut Vec<(Node, i32)>,
    random: &mut Random,
    solution: &mut AlkaidSolution,
    context: &mut RouteContext,
)
    requires
        build_core(instance, old(solution)@, old(context)@, old(candidate_list)@),
        criterion_ok(criterion),
    ensures
        build_core(instance, final(solution)@, final(context)@, final(candidate_list)@),
        build_feasible(instance, old(solution)@, old(context)@, old(candidate_list)@) ==> build_feasible(
            instance,
            final(solution)@,
            final(context)@,
            final(candidate_list)@,
        ),
        final(candidate_list)@.len() == 0,
        conserved(final(solution)@, final(candidate_list)@, old(solution)@, old(candidate_list)@),
        grown(old(solution)@, old(context)@, old(candidate_list)@, final(solution)@, final(context)@, final(candidate_list)@),
        routes_cover(old(solution)@, old(context)@) ==> routes_cover(final(solution)@, final(context)@),
        node_loads_ok(old(solution)@, instance.capacity as int) && candidates_ok(instance, old(candidate_list)@) ==> node_loads_ok(
            final(solution)@,
            instance.capacity as int,
        ),
        exists|t: Seq<BuildState>|
            #[trigger] fill_trace(instance, criterion, t) && t[0] == (old(solution)@, old(context)@, old(candidate_list)@)
                && t.last() == (final(solution)@, final(context)@, final(candidate_list)@),
        exists|t: Seq<BuildState>, rts: Seq<int>|
            #[trigger] insertion_turns(instance, criterion, t, rts) && t[0] == (old(solution)@, old(context)@, old(candidate_list)@)
                && t.last() == (final(solution)@, final(context)@, final(candidate_list)@),
{
    let ghost sol0 = solution@;
    let ghost ctx0 = context@;
    let ghost list0 = candidate_list@;
    let ghost cover0 = routes_cover(sol0, ctx0);
    let ghost loads0 = node_loads_ok(sol0, instance.capacity as int) && candidates_ok(instance, list0);
    let ghost feas0 = build_feasible(instance, sol0, ctx0, list0);
    let ghost mut trace: Seq<BuildState> = seq![(sol0, ctx0, list0)];
    let ghost mut rts: Seq<int> = Seq::empty();
    proof {
        lemma_grown_refl(sol0, ctx0, list0);
    }
    let mut is_full: Vec<bool> = Vec::new();
    let mut k: Node = 0;
    let initial_routes = context.num_routes();
    while k < initial_routes
        invariant
            is_full@.len() == k,
            k <= initial_routes,
            forall|r: int| 0 <= r < k ==> !#[trigger] is_full@[r],
        decreases initial_routes - k,
    {
        is_full.push(false);
        k += 1;
    }

    while !candidate_list.is_empty()
        invariant
            build_core(instance, solution@, context@, candidate_list@),
            feas0 ==> build_feasible(instance, solution@, context@, candidate_list@),
            conserved(solution@, candidate_list@, sol0, list0),
            grown(sol0, ctx0, list0, solution@, context@, candidate_list@),
            cover0 ==> routes_cover(solution@, context@),
            loads0 ==> node_loads_ok(solution@, instance.capacity as int) && candidates_ok(instance, candidate_list@),
            criterion_ok(criterion),
            is_full@.len() == context@.routes.len(),
            full_routes_full(instance, is_full@, context@, candidate_list@),
            fill_trace(instance, criterion, trace),
            trace[0] == (sol0, ctx0, list0),
            trace.last() == (solution@, context@, candidate_list@),
            insertion_turns(instance, criterion, trace, rts),
            rts.len() > 0 && rts.last() >= 0 ==> no_fit_between(
                instance,
                trace.last(),
                rts.last() + 1,
                trace.last().1.routes.len() as int,
            ),
        decreases candidate_list@.len(),
    {
        let mut inserted = false;
        let ghost round_list = candidate_list@;

        let num_routes = context.num_routes();
        let mut route_index: Node = 0;
        while route_index < num_routes
            invariant
                build_core(instance, solution@, context@, candidate_list@),
            feas0 ==> build_feasible(instance, solution@, context@, candidate_list@),
                conserved(solution@, candidate_list@, sol0, list0),
            grown(sol0, ctx0, list0, solution@, context@, candidate_list@),
            cover0 ==> routes_cover(solution@, context@),
            loads0 ==> node_loads_ok(solution@, instance.capacity as int) && candidates_ok(instance, candidate_list@),
                criterion_ok(criterion),
                is_full@.len() == context@.routes.len(),
                num_routes == context@.routes.len(),
                route_index <= num_routes,
                !inserted ==> candidate_list@ == round_list,
                inserted ==> candidate_list@.len() < round_list.len(),
                candidate_list@.len() <= round_list.len(),
                full_routes_full(instance, is_full@, context@, candidate_list@),
                !inserted ==> forall|r: int, q: int|
                    0 <= r < route_index && 0 <= q < candidate_list@.len() ==> !#[trigger] fits(
                        instance,
                        context@,
                        candidate_list@,
                        r,
                        q,
                    ),
                fill_trace(instance, criterion, trace),
                trace[0] == (sol0, ctx0, list0),
                trace.last() == (solution@, context@, candidate_list@),
                insertion_turns(instance, criterion, trace, rts),
                inserted ==> rts.len() > 0 && 0 <= rts.last() < route_index,
                no_fit_between(instance, trace.last(), if inserted { rts.last() + 1 } else { 0 }, route_index as int),
                !inserted ==> (rts.len() > 0 && rts.last() >= 0 ==> no_fit_between(
                    instance,
                    trace.last(),
                    rts.last() + 1,
                    trace.last().1.routes.len() as int,
                )),
            decreases num_routes - route_index,
        {
            if !is_full[route_index as usize] {
                let mut best = InsertionInfo::default();
                let ghost mut jb: int = 0;
                let ghost sol = solution@;
                let ghost ctx = context@;
                let ghost list = candidate_list@;

                let mut i: usize = 0;
                while i < candidate_list.len()
                    invariant
                        build_core(instance, sol, ctx, list),
                        feas0 ==> build_feasible(instance, sol, ctx, list),
                        grown(sol0, ctx0, list0, sol, ctx, list),
                        cover0 ==> routes_cover(sol, ctx),
                        loads0 ==> node_loads_ok(sol, instance.capacity as int) && candidates_ok(instance, list),
                        solution@ == sol,
                        context@ == ctx,
                        candidate_list@ == list,
                        criterion_ok(criterion),
                        route_index < ctx.routes.len(),
                        i <= list.len(),
                        best.cost.counter >= 0,
                        best.candidate_position matches Some(pos) ==> pos < i && ctx.loads[route_index as int] + list[pos as int].1
                            <= instance.capacity && 0 <= jb <= ctx.routes[route_index as int].len() && best.predecessor == gap_pred(
                            ctx.routes[route_index as int],
                            jb,
                        ) && best.successor == gap_succ(ctx.routes[route_index as int], jb) && best.cost.value
                            == gap_criterion_cost(instance, sol, criterion, ctx.routes[route_index as int], jb, list[pos as int].0),
                        forall|q: int, l: int|
                            0 <= q < i && fits(instance, ctx, list, route_index as int, q) && 0 <= l <= ctx.routes[route_index as int].len()
                                ==> best.cost.value <= #[trigger] gap_criterion_cost(
                                instance,
                                sol,
                                criterion,
                                ctx.routes[route_index as int],
                                l,
                                list[q].0,
                            ),
                        best.candidate_position is None ==> best.cost.value == i64::MAX && best.cost.counter == 0 && forall|q: int|
                            0 <= q < i ==> !#[trigger] fits(instance, ctx, list, route_index as int, q),
                        full_routes_full(instance, is_full@, ctx, list),
                        !is_full@[route_index as int],
                        is_full@.len() == ctx.routes.len(),
                        fill_trace(instance, criterion, trace),
                        trace[0] == (sol0, ctx0, list0),
                        trace.last() == (sol, ctx, list),
                        insertion_turns(instance, criterion, trace, rts),
                        inserted ==> rts.len() > 0 && 0 <= rts.last() < route_index,
                        no_fit_between(instance, trace.last(), if inserted { rts.last() + 1 } else { 0 }, route_index as int),
                        !inserted ==> (rts.len() > 0 && rts.last() >= 0 ==> no_fit_between(
                            instance,
                            trace.last(),
                            rts.last() + 1,
                            trace.last().1.routes.len() as int,
                        )),
                        route_index < num_routes,
                        num_routes == ctx.routes.len(),
                    decreases list.len() - i,
                {
                    let (customer, demand) = candidate_list[i];
                    if context.load(route_index) as i64 + demand as i64 <= instance.capacity as i64 {
                        let (pred, succ, delta) = find_best_insertion(
                            instance,
                            solution,
                            context,
                            route_index,
                            customer,
                            criterion,
                            random,
                        );
                        let ghost j = choose|j: int|
                            0 <= j <= ctx.routes[route_index as int].len() && pred == gap_pred(ctx.routes[route_index as int], j)
                                && succ == gap_succ(ctx.routes[route_index as int], j) && delta.value == gap_criterion_cost(
                                instance,
                                sol,
                                criterion,
                                ctx.routes[route_index as int],
                                j,
                                customer,
                            );

                        let ghost r0 = random@;
                        let ghost old_best = best.cost;
                        proof {
                            if best.candidate_position is None && delta.value == old_best.value {
                                let x = mix(advance(r0)) as int;
                                let c = delta.counter as int;
                                assert(x % c < c) by (nonlinear_arith)
                                    requires
                                        c > 0,
                                        x >= 0,
                                ;
                                assert(count_up(old_best.counter, delta.counter) == delta.counter);
                                assert(draw(r0, 1, delta.counter) <= delta.counter);
                            }
                        }
                        if best.cost.update_from(&delta, random) {
                            best.predecessor = pred;
                            best.successor = succ;
                            best.route_index = route_index;
                            best.candidate_position = Some(i);
                            proof {
                                jb = j;
                            }
                        }
                    }
                    i += 1;
                }

                if let Some(pos) = best.candidate_position {
                    let ghost route = ctx.routes[route_index as int];
                    proof {
                        assert(cheapest_insertion(instance, criterion, (sol, ctx, list), route_index as int, pos as int, jb));
                        lemma_build_insert(instance, sol, ctx, list, route_index as int, jb, pos as int);
                    }
                    let (customer, demand) = candidate_list[pos];
                    let last = candidate_list[candidate_list.len() - 1];
                    candidate_list.set(pos, last);
                    candidate_list.pop();

                    let node_index = solution.insert(customer, demand, best.predecessor, best.successor);

                    if best.predecessor == 0 {
                        context.set_head(route_index, node_index);
                    }
                    context.add_load(route_index, demand);
                    context.set_route_model(Ghost(ctx.routes.update(route_index as int, route.insert(jb, node_index))));
                    proof {
                        let heads = if jb == 0 { ctx.heads.update(route_index as int, node_index) } else { ctx.heads };
                        assert(context@ =~= ContextModel {
                            heads,
                            loads: ctx.loads.update(route_index as int, (ctx.loads[route_index as int] + demand) as i32),
                            routes: ctx.routes.update(route_index as int, route.insert(jb, node_index)),
                            ..ctx
                        });
                        assert(candidate_list@ =~= list.update(pos as int, list.last()).drop_last());
                        assert(solution@.cust == sol.cust.push(list[pos as int].0));
                        assert(solution@.load == sol.load.push(list[pos as int].1));
                        assert forall|r: int| 0 <= r < ctx.routes.len() implies embeds(#[trigger] ctx.routes[r], context@.routes[r]) by {
                            lemma_embeds_refl(ctx.routes[r]);
                            if r == route_index as int {
                                lemma_embeds_insert(route, route, jb, node_index);
                            }
                        }
                        lemma_grown_step(sol0, ctx0, list0, sol, ctx, list, solution@, context@, pos as int, false);
                        let new_state = (solution@, context@, candidate_list@);
                        assert(new_state == insert_result((sol, ctx, list), route_index as int, pos as int, jb));
                        assert(fill_step(instance, criterion, (sol, ctx, list), new_state));
                        assert(turn_step(instance, criterion, (sol, ctx, list), new_state, route_index as int));
                        lemma_turns_push(instance, criterion, trace, rts, new_state, route_index as int);
                        rts = rts.push(route_index as int);
                        let t2 = trace.push(new_state);
                        assert forall|k: int| 0 <= k < t2.len() - 1 implies fill_step(instance, criterion, #[trigger] t2[k], t2[k + 1]) by {
                            if k < trace.len() - 1 {
                                assert(t2[k] == trace[k] && t2[k + 1] == trace[k + 1]);
                            }
                        }
                        trace = t2;
                        assert forall|r: int| 0 <= r < is_full@.len() && is_full@[r] implies #[trigger] context@.loads[r] == ctx.loads[r] by {
                        }
                        lemma_full_kept(instance, is_full@, ctx, list, context@, pos as int);
                    }
                    inserted = true;
                } else {
                    let ghost full_before = is_full@;
                    is_full.set(route_index as usize, true);
                    proof {
                        assert forall|r: int, q: int|
                            0 <= r < is_full@.len() && is_full@[r] && 0 <= q < list.len() implies !#[trigger] fits(instance, ctx, list, r, q) by {
                            if r != route_index as int {
                                assert(full_before[r]);
                            }
                        }
                    }
                }
            }
            route_index += 1;
        }

        if !inserted {
            let ghost sol = solution@;
            let ghost ctx = context@;
            let ghost list = candidate_list@;
            let position = add_route(candidate_list, random, solution, context);
            proof {
                lemma_build_add_route(instance, sol, ctx, list, position as int);
                lemma_grown_step(sol0, ctx0, list0, sol, ctx, list, solution@, context@, position as int, true);
                assert(none_fits(instance, (sol, ctx, list)));
                let new_state = (solution@, context@, candidate_list@);
                assert(new_state == open_result((sol, ctx, list), position as int));
                assert(fill_step(instance, criterion, (sol, ctx, list), new_state));
                assert(turn_step(instance, criterion, (sol, ctx, list), new_state, -1));
                lemma_turns_push(instance, criterion, trace, rts, new_state, -1);
                rts = rts.push(-1);
                let t2 = trace.push(new_state);
                assert forall|k: int| 0 <= k < t2.len() - 1 implies fill_step(instance, criterion, #[trigger] t2[k], t2[k + 1]) by {
                    if k < trace.len() - 1 {
                        assert(t2[k] == trace[k] && t2[k + 1] == trace[k + 1]);
                    }
                }
                trace = t2;
                assert forall|r: int| 0 <= r < is_full@.len() && is_full@[r] implies #[trigger] context@.loads[r] == ctx.loads[r] by {
                }
                lemma_full_kept(instance, is_full@, ctx, list, context@, position as int);
            }
            is_full.push(false);
        }
    }
    proof {
        assert(fill_trace(instance, criterion, trace));
        assert(insertion_turns(instance, criterion, trace, rts));
    }
}

/// How many candidates a demand `d` is split into with vehicles of
/// capacity `capacity`: pieces of `capacity` and a last, smaller piece.
pub open spec fn split_count(d: int, capacity: int) -> int
    decreases (if d > 0 { d } else { 0 }),
{
    if d <= 0 || capacity <= 0 {
        0
    } else {
        1 + split_count(d - capacity, capacity)
    }
}

/// How many candidates the demands of customers `1..m` are split into.
pub open spec fn total_splits(instance: &Instance, m: int) -> int
    decreases m,
{
    if m <= 1 {
        0
    } else {
        total_splits(instance, m - 1) + split_count(instance.demands@[m - 1] as int, instance.capacity as int)
    }
}

proof fn lemma_split_count_nonneg(d: int, capacity: int)
    ensures
        split_count(d, capacity) >= 0,
    decreases (if d > 0 { d } else { 0 }),
{
    if d > 0 && capacity > 0 {
        lemma_split_count_nonneg(d - capacity, capacity);
    }
}

proof fn lemma_total_splits_monotone(instance: &Instance, a: int, b: int)
    requires
        a <= b,
    ensures
        total_splits(instance, a) <= total_splits(instance, b),
    decreases b - a,
{
    if a < b {
        lemma_total_splits_monotone(instance, a, b - 1);
        if b > 1 {
            lemma_split_count_nonneg(instance.demands@[b - 1] as int, instance.capacity as int);
        }
    }
}

/// `sol` is a feasible solution of `instance`: its nodes serve customers of
/// the instance with loads in `(0, capacity]`, each customer receives
/// exactly its demand, and the nodes form valid routes that visit every node
/// and stay within capacity.
pub open spec fn constructed(instance: &Instance, sol: SolutionModel) -> bool {
    &&& sol.wf()
    &&& customers_fit(instance, sol)
    &&& node_loads_ok(sol, instance.capacity as int)
    &&& forall|c: Node| #[trigger] delivered(sol, c, sol.len() as int) == requested(instance, c)
    &&& exists|ctx: ContextModel|
        routes_valid(sol, ctx) && routes_cover(sol, ctx) && loads_valid(sol, ctx) && within_capacity(
            sol,
            ctx,
            instance.capacity as int,
        )
}

/// Constructs an initial solution using randomized insertion heuristics.
///
/// Every customer's demand is split into pieces of a vehicle's capacity and
/// one smaller remainder; a fleet of routes is opened with random pieces,
/// and the other pieces are inserted where a randomly chosen criterion finds
/// them cheapest, opening new routes when no route has room. The nodes of
/// the result are exactly those pieces: each customer receives exactly its
/// demand, with every route within capacity. The pieces that open routes
/// and the criterion are the ones that the generator's draws pick. An
/// instance without customers gives an empty solution.
///
/// # Arguments
///
/// * `instance` - The problem instance
/// * `random` - Random number generator
///
/// # Returns
///
/// An initial feasible solution
pub fn construct(instance: &Instance, random: &mut Random) -> (solution: AlkaidSolution)
    requires
        instance.shaped(),
        total_splits(instance, instance.num_customers as int) < 0x7fff_fff0,
    ensures
        instance.num_customers >= 1 ==> constructed(instance, solution@),
        instance.num_customers >= 1 ==> added_nodes(solution@, 1).to_multiset() == all_pieces(
            instance,
            instance.num_customers as int,
        ).to_multiset(),
        instance.num_customers == 0 ==> solution@.len() == 1,
        instance.num_customers >= 1 ==> exists|criterion: Criterion, t0: Seq<BuildState>, t: Seq<BuildState>, rts: Seq<int>|
            #[trigger] construction_run(instance, criterion, t0, t, rts, solution@) && drawn_openings(
                t0,
                old(random)@,
                criterion,
            ),
{
    let mut candidate_list: Vec<(Node, i32)> = Vec::new();
    let num_fleets = calc_fleet_lower_bound(instance);

    let mut i: Node = 1;
    while i < instance.num_customers
        invariant
            instance.shaped(),
            total_splits(instance, instance.num_customers as int) < 0x7fff_fff0,
            1 <= i,
            i <= instance.num_customers || i == 1,
            candidates_ok(instance, candidate_list@),
            candidate_list@.len() == total_splits(instance, i as int),
            candidate_list@ == all_pieces(instance, i as int),
            forall|c: Node| #[trigger] pending(candidate_list@, c) == if c < i { requested(instance, c) } else { 0 },
        decreases instance.num_customers - i,
    {
        let mut demand = instance.demands[i as usize];
        let ghost d0 = demand as int;
        proof {
            assert(all_pieces(instance, i + 1) == all_pieces(instance, i as int) + split_pieces(
                i,
                d0,
                instance.capacity as int,
            ));
        }
        proof {
            lemma_total_splits_monotone(instance, i + 1, instance.num_customers as int);
        }
        while demand > 0
            invariant
                instance.shaped(),
                1 <= i < instance.num_customers,
                d0 == instance.demands@[i as int],
                d0 > 0 ==> 0 <= demand <= d0,
                d0 <= 0 ==> demand == d0,
                candidates_ok(instance, candidate_list@),
                candidate_list@.len() + split_count(demand as int, instance.capacity as int) == total_splits(instance, i + 1),
                candidate_list@ + split_pieces(i, demand as int, instance.capacity as int) == all_pieces(instance, i + 1),
                total_splits(instance, i + 1) < 0x7fff_fff0,
                forall|c: Node| #[trigger] pending(candidate_list@, c) == if c < i {
                    requested(instance, c)
                } else if c == i {
                    if d0 > 0 { d0 - demand } else { 0 }
                } else {
                    0
                },
            decreases demand,
        {
            let split_demand = if demand < instance.capacity { demand } else { instance.capacity };
            proof {
                lemma_split_count_nonneg(demand - split_demand, instance.capacity as int);
                assert forall|c: Node| #[trigger] pending(candidate_list@.push((i, split_demand)), c) == pending(candidate_list@, c)
                    + if c == i { split_demand as int } else { 0 } by {
                    lemma_pending_push(candidate_list@, (i, split_demand), c);
                }
                assert(split_count(demand as int, instance.capacity as int) == 1 + split_count(
                    demand - instance.capacity,
                    instance.capacity as int,
                ));
                if demand < instance.capacity {
                    assert(split_count(demand - instance.capacity, instance.capacity as int) == 0);
                    assert(split_count(0, instance.capacity as int) == 0);
                }
            }
            proof {
                let x = (i, split_demand);
                assert(split_pieces(i, demand as int, instance.capacity as int) == seq![x] + split_pieces(
                    i,
                    demand - split_demand,
                    instance.capacity as int,
                ));
                assert(candidate_list@.push(x) + split_pieces(i, demand - split_demand, instance.capacity as int)
                    =~= candidate_list@ + (seq![x] + split_pieces(i, demand - split_demand, instance.capacity as int)));
            }
            candidate_list.push((i, split_demand));
            demand -= split_demand;
        }
        proof {
            assert(split_pieces(i, demand as int, instance.capacity as int) == Seq::<(Node, i32)>::empty());
            assert(candidate_list@ + Seq::<(Node, i32)>::empty() =~= candidate_list@);
        }
        i += 1;
    }

    let mut solution = AlkaidSolution::new();
    let mut context = RouteContext::new();
    let ghost sol0 = solution@;
    let ghost ctx0 = context@;
    let ghost list0 = candidate_list@;
    let ghost mut t0: Seq<BuildState> = seq![(sol0, ctx0, list0)];
    let ghost g0 = random@;
    proof {
        lemma_grown_refl(sol0, ctx0, list0);
        assert(node_loads_ok(solution@, instance.capacity as int));
        assert(loads_valid(solution@, context@));
        assert(routes_cover(solution@, context@)) by {
            assert forall|v: Node| 0 < v < solution@.len() implies #[trigger] crate::model::routed(context@.routes, v) by {
            }
        }
        crate::model::lemma_empty_routes_valid(solution@, context@);
        if instance.num_customers == 0 {
            assert(candidate_list@ =~= Seq::<(Node, i32)>::empty());
        }
    }

    let mut fleet: Node = 0;
    while fleet < num_fleets && !candidate_list.is_empty()
        invariant
            instance.num_customers >= 1 ==> build_ok(instance, solution@, context@, candidate_list@),
            instance.shaped(),
            instance.num_customers == 0 ==> candidate_list@.len() == 0 && solution@ == sol0,
            conserved(solution@, candidate_list@, sol0, list0),
            grown(sol0, ctx0, list0, solution@, context@, candidate_list@),
            routes_cover(solution@, context@),
            node_loads_ok(solution@, instance.capacity as int),
            open_trace(t0),
            t0[0] == (sol0, ctx0, list0),
            t0.len() - 1 == fleet,
            fleet <= num_fleets,
            num_fleets == fleet_cap(instance),
            t0.last() == (solution@, context@, candidate_list@),
            random@ == advance_n(g0, fleet as nat),
            forall|i: int|
                0 <= i < t0.len() - 1 ==> t0[i + 1] == open_result(
                    #[trigger] t0[i],
                    draw(advance_n(g0, i as nat), 0, (t0[i].2.len() - 1) as i32),
                ),
        decreases num_fleets - fleet,
    {
        let ghost sol = solution@;
        let ghost ctx = context@;
        let ghost list = candidate_list@;
        let position = add_route(&mut candidate_list, random, &mut solution, &mut context);
        proof {
            lemma_build_add_route(instance, sol, ctx, list, position as int);
            assert(candidates_ok(instance, list));
            assert(node_loads_ok(solution@, instance.capacity as int));
            lemma_grown_step(sol0, ctx0, list0, sol, ctx, list, solution@, context@, position as int, true);
            let new_state = (solution@, context@, candidate_list@);
            assert(new_state == open_result((sol, ctx, list), position as int));
            lemma_open_trace_push(t0, position as int, new_state);
            let t2 = t0.push(new_state);
            assert forall|i: int| 0 <= i < t2.len() - 1 implies t2[i + 1] == open_result(
                #[trigger] t2[i],
                draw(advance_n(g0, i as nat), 0, (t2[i].2.len() - 1) as i32),
            ) by {
                if i < t0.len() - 1 {
                    assert(t2[i] == t0[i] && t2[i + 1] == t0[i + 1]);
                } else {
                    assert(t2[i] == (sol, ctx, list));
                }
            }
            t0 = t2;
        }
        fleet += 1;
    }

    // Select criterion
    let ghost g1 = random@;
    let criterion = if random.next_int(0, 1) == 0 {
        let gamma = random.next_int(0, 34);
        Criterion::Mcfic { gamma }
    } else {
        Criterion::Nfic
    };

    let ghost sol1 = solution@;
    let ghost ctx1 = context@;
    let ghost list1 = candidate_list@;
    if instance.num_customers == 0 {
        // Without customers there is nothing left to insert.
        return solution;
    }
    sequential_insertion(instance, criterion, &mut candidate_list, random, &mut solution, &mut context);
    proof {
        let (t, rts) = choose|t: Seq<BuildState>, rts: Seq<int>|
            #[trigger] insertion_turns(instance, criterion, t, rts) && t[0] == (sol1, ctx1, list1) && t.last() == (
                solution@,
                context@,
                candidate_list@,
            );
        assert(t.len() >= 1);
        assert(construction_run(instance, criterion, t0, t, rts, solution@));
        assert(criterion == drawn_criterion(g1));
        assert(drawn_openings(t0, g0, criterion));
        lemma_grown_trans(sol0, ctx0, list0, sol1, ctx1, list1, solution@, context@, candidate_list@);
        assert(candidate_list@ =~= Seq::<(Node, i32)>::empty());
        assert(added_nodes(solution@, 1).to_multiset() =~= list0.to_multiset()) by {
            broadcast use vstd::multiset::group_multiset_axioms;
            broadcast use vstd::multiset::group_multiset_properties;
            broadcast use vstd::seq_lib::group_to_multiset_ensures;

            assert(candidate_list@.to_multiset() =~= vstd::multiset::Multiset::<(Node, i32)>::empty());
        }
        assert forall|c: Node| #[trigger] delivered(solution@, c, solution@.len() as int) == requested(instance, c) by {
            assert(delivered(solution@, c, solution@.len() as int) + pending(candidate_list@, c) == delivered(sol1, c, sol1.len() as int)
                + pending(list1, c));
            assert(delivered(sol1, c, sol1.len() as int) + pending(list1, c) == delivered(sol0, c, sol0.len() as int) + pending(list0, c));
            assert(pending(candidate_list@, c) == 0);
            assert(delivered(sol0, c, 1) == 0);
        }
        assert(routes_valid(solution@, context@) && routes_cover(solution@, context@) && loads_valid(solution@, context@)
            && within_capacity(solution@, context@, instance.capacity as int));
    }
    solution
}

} // verus!
