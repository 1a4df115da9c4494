//! Mathematical model of a set of routes stored as doubly linked lists.
//!
//! A solution is a pool of nodes; node 0 is the depot and serves as scratch
//! space while routes are rewired. Each route is a sequence of node indices;
//! the successor of the last node and the predecessor of the first node are
//! the depot.
use vstd::prelude::*;

verus! {

use crate::Node;

/// The node pool of a solution: successor, predecessor, customer and load of
/// each node, indexed by node.
#[verifier::ext_equal]
pub struct SolutionModel {
    pub succ: Seq<Node>,
    pub pred: Seq<Node>,
    pub cust: Seq<Node>,
    pub load: Seq<i32>,
}

/// The routes of a solution: the head, tail and recorded load of each route,
/// and the sequence of nodes that the route visits.
#[verifier::ext_equal]
pub struct ContextModel {
    pub heads: Seq<Node>,
    pub tails: Seq<Node>,
    pub loads: Seq<i32>,
    pub routes: Seq<Seq<Node>>,
}

impl SolutionModel {
    pub open spec fn len(self) -> nat {
        self.succ.len()
    }

    /// All arrays have one entry per node, node 0 is the depot with customer
    /// 0, every link points inside the pool, and no load is negative.
    pub open spec fn wf(self) -> bool {
        &&& self.pred.len() == self.succ.len()
        &&& self.cust.len() == self.succ.len()
        &&& self.load.len() == self.succ.len()
        &&& 1 <= self.succ.len() <= 0x7fff_ffff
        &&& self.cust[0] == 0
        &&& forall|v: int| 0 <= v < self.succ.len() ==> #[trigger] self.succ[v] < self.succ.len()
        &&& forall|v: int| 0 <= v < self.succ.len() ==> #[trigger] self.pred[v] < self.succ.len()
        &&& forall|v: int| 0 <= v < self.succ.len() ==> 0 <= #[trigger] self.load[v]
    }

    /// `a` is followed by `b`, and `b` preceded by `a`.
    pub open spec fn link(self, a: Node, b: Node) -> SolutionModel {
        SolutionModel {
            succ: self.succ.update(a as int, b),
            pred: self.pred.update(b as int, a),
            cust: self.cust,
            load: self.load,
        }
    }

    /// The successor of `a` becomes `b`.
    pub open spec fn with_succ(self, a: Node, b: Node) -> SolutionModel {
        SolutionModel {
            succ: self.succ.update(a as int, b),
            pred: self.pred,
            cust: self.cust,
            load: self.load,
        }
    }

    /// The load of `a` becomes `l`.
    pub open spec fn with_load(self, a: Node, l: i32) -> SolutionModel {
        SolutionModel {
            succ: self.succ,
            pred: self.pred,
            cust: self.cust,
            load: self.load.update(a as int, l),
        }
    }

    /// A new node (index `self.len()`) serving customer `c` with load `l` is
    /// added and linked between `p` and `s`.
    pub open spec fn inserted(self, c: Node, l: i32, p: Node, s: Node) -> SolutionModel {
        let n = self.len() as Node;
        SolutionModel {
            succ: self.succ.push(s).update(p as int, n),
            pred: self.pred.push(p).update(s as int, n),
            cust: self.cust.push(c),
            load: self.load.push(l),
        }
    }
}

/// The node after position `i` of `route`, or the depot after the last one.
pub open spec fn next_in(route: Seq<Node>, i: int) -> Node {
    if i + 1 < route.len() {
        route[i + 1]
    } else {
        0
    }
}

/// The node before position `i` of `route`, or the depot before the first.
pub open spec fn prev_in(route: Seq<Node>, i: int) -> Node {
    if i > 0 {
        route[i - 1]
    } else {
        0
    }
}

/// The first node of `route`, or the depot for an empty route.
pub open spec fn head_of(route: Seq<Node>) -> Node {
    if route.len() > 0 {
        route[0]
    } else {
        0
    }
}

/// The last node of `route`, or the depot for an empty route.
pub open spec fn tail_of(route: Seq<Node>) -> Node {
    if route.len() > 0 {
        route.last()
    } else {
        0
    }
}

/// The node before insertion position `j` (between `route[j-1]` and `route[j]`).
pub open spec fn gap_pred(route: Seq<Node>, j: int) -> Node {
    if j > 0 {
        route[j - 1]
    } else {
        0
    }
}

/// The node after insertion position `j`.
pub open spec fn gap_succ(route: Seq<Node>, j: int) -> Node {
    if j < route.len() {
        route[j]
    } else {
        0
    }
}

/// The links stored in `sol` trace exactly the node sequence `route`.
#[verifier::opaque]
pub open spec fn route_linked(sol: SolutionModel, route: Seq<Node>) -> bool {
    forall|i: int|
        0 <= i < route.len() ==> {
            &&& 0 < #[trigger] route[i] < sol.succ.len()
            &&& sol.succ[route[i] as int] == next_in(route, i)
            &&& sol.pred[route[i] as int] == prev_in(route, i)
        }
}

/// No node appears twice, in one route or in two.
#[verifier::opaque]
pub open spec fn routes_disjoint(routes: Seq<Seq<Node>>) -> bool {
    forall|r1: int, i1: int, r2: int, i2: int|
        0 <= r1 < routes.len() && 0 <= r2 < routes.len() && 0 <= i1 < routes[r1].len() && 0
            <= i2 < routes[r2].len() && (r1 != r2 || i1 != i2) ==> #[trigger] routes[r1][i1]
            != #[trigger] routes[r2][i2]
}

/// `v` is visited by some route.
pub open spec fn routed(routes: Seq<Seq<Node>>, v: Node) -> bool {
    exists|r: int, i: int| 0 <= r < routes.len() && 0 <= i < routes[r].len() && routes[r][i] == v
}

/// The context's routes are traced by the solution's links, start at the
/// recorded heads, and share no node.
pub open spec fn routes_valid(sol: SolutionModel, ctx: ContextModel) -> bool {
    &&& sol.wf()
    &&& ctx.heads.len() == ctx.routes.len()
    &&& ctx.tails.len() == ctx.routes.len()
    &&& ctx.loads.len() == ctx.routes.len()
    &&& ctx.routes.len() <= 0xffff_ffff
    &&& forall|r: int| 0 <= r < ctx.routes.len() ==> #[trigger] ctx.heads[r] == head_of(ctx.routes[r])
    &&& forall|r: int| 0 <= r < ctx.routes.len() ==> route_linked(sol, #[trigger] ctx.routes[r])
    &&& routes_disjoint(ctx.routes)
}

/// Every node of the pool but the depot is visited by a route.
pub open spec fn routes_cover(sol: SolutionModel, ctx: ContextModel) -> bool {
    forall|v: Node| 0 < v < sol.len() ==> #[trigger] routed(ctx.routes, v)
}

/// The total load of the nodes of `route`.
pub open spec fn load_sum(load: Seq<i32>, route: Seq<Node>) -> int
    decreases route.len(),
{
    if route.len() == 0 {
        0
    } else {
        load_sum(load, route.drop_last()) + load[route.last() as int]
    }
}

/// The recorded load of every route is the total load of its nodes.
pub open spec fn loads_valid(sol: SolutionModel, ctx: ContextModel) -> bool {
    forall|r: int| 0 <= r < ctx.routes.len() ==> #[trigger] ctx.loads[r] == load_sum(sol.load, ctx.routes[r])
}

/// No route carries more than `capacity`.
pub open spec fn within_capacity(sol: SolutionModel, ctx: ContextModel, capacity: int) -> bool {
    forall|r: int| 0 <= r < ctx.routes.len() ==> load_sum(sol.load, #[trigger] ctx.routes[r]) <= capacity
}

/// The customers visited along `route`.
pub open spec fn customers_of(sol: SolutionModel, route: Seq<Node>) -> Seq<Node> {
    route.map_values(|v: Node| sol.cust[v as int])
}

// ---------------------------------------------------------------------
// Lemmas on linked routes
// ---------------------------------------------------------------------

/// Changing the links of nodes outside `route` leaves it traced.
pub proof fn lemma_linked_frame(sol: SolutionModel, sol2: SolutionModel, route: Seq<Node>)
    requires
        route_linked(sol, route),
        sol2.succ.len() >= sol.succ.len(),
        forall|i: int|
            0 <= i < route.len() ==> sol2.succ[#[trigger] route[i] as int] == sol.succ[route[i] as int]
                && sol2.pred[route[i] as int] == sol.pred[route[i] as int],
    ensures
        route_linked(sol2, route),
{
    reveal(route_linked);
}

/// The links at position `i` of a traced route.
pub proof fn lemma_linked_at(sol: SolutionModel, route: Seq<Node>, i: int)
    requires
        route_linked(sol, route),
        0 <= i < route.len(),
    ensures
        0 < route[i] < sol.succ.len(),
        sol.succ[route[i] as int] == next_in(route, i),
        sol.pred[route[i] as int] == prev_in(route, i),
{
    reveal(route_linked);
}

/// No node appears twice in `route`.
pub open spec fn seq_distinct(route: Seq<Node>) -> bool {
    forall|a: int, b: int| 0 <= a < route.len() && 0 <= b < route.len() && a != b ==> #[trigger] route[a] != #[trigger] route[b]
}

/// Every node of `route` but the one at position `i` has the links the
/// route prescribes; the one at `i` is a proper node of the pool.
pub open spec fn route_linked_except(sol: SolutionModel, route: Seq<Node>, i: int) -> bool {
    &&& 0 < route[i] < sol.succ.len()
    &&& forall|k: int|
        0 <= k < route.len() && k != i ==> {
            &&& 0 < #[trigger] route[k] < sol.succ.len()
            &&& sol.succ[route[k] as int] == next_in(route, k)
            &&& sol.pred[route[k] as int] == prev_in(route, k)
        }
}

/// Linking the neighbours of position `i` unlinks the node there.
pub proof fn lemma_linked_remove(sol: SolutionModel, route: Seq<Node>, i: int)
    requires
        0 <= i < route.len(),
        route_linked_except(sol, route, i),
        seq_distinct(route),
        sol.pred.len() == sol.succ.len(),
    ensures
        route_linked(sol.link(prev_in(route, i), next_in(route, i)), route.remove(i)),
{
    reveal(route_linked);
    let p = prev_in(route, i);
    let n = next_in(route, i);
    let sol2 = sol.link(p, n);
    let r2 = route.remove(i);
    assert forall|k: int| 0 <= k < r2.len() implies {
        &&& 0 < #[trigger] r2[k] < sol2.succ.len()
        &&& sol2.succ[r2[k] as int] == next_in(r2, k)
        &&& sol2.pred[r2[k] as int] == prev_in(r2, k)
    } by {
        if k < i {
            assert(r2[k] == route[k]);
            if k + 1 < i {
                assert(route[k] != route[i - 1]);
            }
            if i + 1 < route.len() {
                assert(route[k] != route[i + 1]);
            }
            if k > 0 {
                assert(r2[k - 1] == route[k - 1]);
            }
            if k + 1 < i {
                assert(r2[k + 1] == route[k + 1]);
            } else if k + 1 < r2.len() {
                assert(r2[k + 1] == route[k + 2]);
            }
        } else {
            assert(r2[k] == route[k + 1]);
            if i > 0 {
                assert(route[k + 1] != route[i - 1]);
            }
            if k > i {
                assert(route[k + 1] != route[i + 1]);
                assert(r2[k - 1] == route[k]);
            }
            if k + 1 < r2.len() {
                assert(r2[k + 1] == route[k + 2]);
            }
        }
    }
}

/// Linking `v` between the nodes around insertion position `j` puts it there.
pub proof fn lemma_linked_insert(sol: SolutionModel, route: Seq<Node>, j: int, v: Node)
    requires
        0 <= j <= route.len(),
        route_linked(sol, route),
        seq_distinct(route),
        sol.pred.len() == sol.succ.len(),
        0 < v < sol.succ.len(),
        forall|k: int| 0 <= k < route.len() ==> route[k] != v,
    ensures
        route_linked(sol.link(gap_pred(route, j), v).link(v, gap_succ(route, j)), route.insert(j, v)),
{
    reveal(route_linked);
    let p = gap_pred(route, j);
    let s = gap_succ(route, j);
    let sol2 = sol.link(p, v).link(v, s);
    let r2 = route.insert(j, v);
    assert forall|k: int| 0 <= k < r2.len() implies {
        &&& 0 < #[trigger] r2[k] < sol2.succ.len()
        &&& sol2.succ[r2[k] as int] == next_in(r2, k)
        &&& sol2.pred[r2[k] as int] == prev_in(r2, k)
    } by {
        if k < j {
            assert(r2[k] == route[k]);
            if k + 1 < j {
                assert(route[k] != route[j - 1]);
            }
            if j < route.len() {
                assert(route[k] != route[j]);
            }
            if k > 0 {
                assert(r2[k - 1] == route[k - 1]);
            }
            if k + 1 < j {
                assert(r2[k + 1] == route[k + 1]);
            }
        } else if k == j {
            assert(r2[k] == v);
            if j > 0 {
                assert(r2[k - 1] == route[j - 1]);
            }
            if j < route.len() {
                assert(r2[k + 1] == route[j]);
            }
        } else {
            assert(r2[k] == route[k - 1]);
            if j > 0 {
                assert(route[k - 1] != route[j - 1]);
            }
            if k - 1 > j {
                assert(route[k - 1] != route[j]);
                assert(r2[k - 1] == route[k - 2]);
            }
            if k + 1 < r2.len() {
                assert(r2[k + 1] == route[k]);
            }
        }
    }
}

/// Two positions of a disjoint family hold different nodes.
pub proof fn lemma_disjoint_at(routes: Seq<Seq<Node>>, r1: int, i1: int, r2: int, i2: int)
    requires
        routes_disjoint(routes),
        valid_pos(routes, r1, i1),
        valid_pos(routes, r2, i2),
        r1 != r2 || i1 != i2,
    ensures
        routes[r1][i1] != routes[r2][i2],
{
    reveal(routes_disjoint);
}

/// A route inside a disjoint family has no repeated node.
pub proof fn lemma_disjoint_route_distinct(routes: Seq<Seq<Node>>, r: int)
    requires
        routes_disjoint(routes),
        0 <= r < routes.len(),
    ensures
        seq_distinct(routes[r]),
{
    reveal(routes_disjoint);
    assert forall|a: int, b: int| 0 <= a < routes[r].len() && 0 <= b < routes[r].len() && a != b implies #[trigger] routes[r][a] != #[trigger] routes[r][b] by {
    }
}

/// `(r, k)` is a position of `routes`.
pub open spec fn valid_pos(routes: Seq<Seq<Node>>, r: int, k: int) -> bool {
    0 <= r < routes.len() && 0 <= k < routes[r].len()
}

/// A new family of routes is disjoint when each position but one fresh
/// position holds the node of a distinct position of a disjoint family, and
/// the fresh position holds a node found nowhere else.
pub proof fn lemma_disjoint_from_origin(
    old_routes: Seq<Seq<Node>>,
    new_routes: Seq<Seq<Node>>,
    origin: spec_fn(int, int) -> (int, int),
    fresh_r: int,
    fresh_k: int,
)
    requires
        routes_disjoint(old_routes),
        forall|r: int, k: int|
            valid_pos(new_routes, r, k) && !(r == fresh_r && k == fresh_k) ==> {
                &&& valid_pos(old_routes, origin(r, k).0, origin(r, k).1)
                &&& old_routes[origin(r, k).0][origin(r, k).1] == #[trigger] new_routes[r][k]
                &&& (valid_pos(new_routes, fresh_r, fresh_k) ==> new_routes[r][k] != new_routes[fresh_r][fresh_k])
            },
        forall|r1: int, k1: int, r2: int, k2: int|
            valid_pos(new_routes, r1, k1) && valid_pos(new_routes, r2, k2) && !(r1 == fresh_r && k1
                == fresh_k) && !(r2 == fresh_r && k2 == fresh_k) && (r1 != r2 || k1 != k2) ==> #[trigger] origin(r1, k1)
                != #[trigger] origin(r2, k2),
    ensures
        routes_disjoint(new_routes),
{
    reveal(routes_disjoint);
    assert forall|r1: int, i1: int, r2: int, i2: int|
        0 <= r1 < new_routes.len() && 0 <= r2 < new_routes.len() && 0 <= i1 < new_routes[r1].len() && 0
            <= i2 < new_routes[r2].len() && (r1 != r2 || i1 != i2) implies #[trigger] new_routes[r1][i1]
            != #[trigger] new_routes[r2][i2] by {
        assert(valid_pos(new_routes, r1, i1));
        assert(valid_pos(new_routes, r2, i2));
        if !(r1 == fresh_r && i1 == fresh_k) && !(r2 == fresh_r && i2 == fresh_k) {
            let o1 = origin(r1, i1);
            let o2 = origin(r2, i2);
            let w1 = new_routes[r1][i1];
            let w2 = new_routes[r2][i2];
            assert(valid_pos(old_routes, o1.0, o1.1) && old_routes[o1.0][o1.1] == w1);
            assert(valid_pos(old_routes, o2.0, o2.1) && old_routes[o2.0][o2.1] == w2);
            assert(o1 != o2);
            assert(old_routes[o1.0][o1.1] != old_routes[o2.0][o2.1]);
        }
    }
}

/// A route of distinct proper nodes of a pool of `n` nodes has fewer than
/// `n` nodes.
pub proof fn lemma_route_shorter_than_pool(route: Seq<Node>, n: int)
    requires
        seq_distinct(route),
        forall|k: int| 0 <= k < route.len() ==> 0 < #[trigger] route[k] < n,
    ensures
        route.len() < n || route.len() == 0,
{
    if route.len() > 0 {
        let ints = route.map_values(|v: Node| v as int);
        assert(ints.no_duplicates()) by {
            assert forall|a: int, b: int| 0 <= a < ints.len() && 0 <= b < ints.len() && a != b implies ints[a] != ints[b] by {
                assert(route[a] != route[b]);
            }
        }
        ints.unique_seq_to_set();
        assert(0 < route[0] < n);
        vstd::set_lib::lemma_int_range(1, n);
        assert forall|v: int| ints.to_set().contains(v) implies vstd::set_lib::set_int_range(1, n).contains(v) by {
            let k = choose|k: int| 0 <= k < ints.len() && ints[k] == v;
            assert(0 < route[k] < n);
        }
        vstd::set_lib::lemma_len_subset(ints.to_set(), vstd::set_lib::set_int_range(1, n));
    }
}

/// What every route of a valid solution satisfies.
pub proof fn lemma_route_facts(sol: SolutionModel, ctx: ContextModel, r: int)
    requires
        routes_valid(sol, ctx),
        0 <= r < ctx.routes.len(),
    ensures
        route_linked(sol, ctx.routes[r]),
        seq_distinct(ctx.routes[r]),
        ctx.routes[r].len() < sol.len(),
        ctx.heads[r] == gap_succ(ctx.routes[r], 0),
        ctx.heads[r] < sol.len(),
{
    let route = ctx.routes[r];
    assert(route_linked(sol, route));
    lemma_disjoint_route_distinct(ctx.routes, r);
    assert forall|k: int| 0 <= k < route.len() implies 0 < #[trigger] route[k] < sol.len() by {
        lemma_linked_at(sol, route, k);
    }
    lemma_route_shorter_than_pool(route, sol.len() as int);
    assert(ctx.heads[r] == head_of(route));
    if route.len() > 0 {
        assert(route[0] < sol.len());
    }
}

/// Walking a traced route: the node at position `k` is a proper node before
/// the end and the depot at the end, and its successor is the node at
/// position `k + 1`.
pub proof fn lemma_route_step(sol: SolutionModel, route: Seq<Node>, k: int)
    requires
        route_linked(sol, route),
        0 <= k <= route.len(),
    ensures
        (gap_succ(route, k) == 0) == (k == route.len()),
        k < route.len() ==> gap_succ(route, k) < sol.len() && sol.succ[gap_succ(route, k) as int] == gap_succ(route, k + 1),
        k < route.len() ==> gap_pred(route, k + 1) == gap_succ(route, k),
        k < route.len() ==> sol.pred[gap_succ(route, k) as int] == gap_pred(route, k),
{
    if k < route.len() {
        lemma_linked_at(sol, route, k);
    }
}

/// Removing an entry keeps a sequence free of repeats.
pub proof fn lemma_remove_distinct(route: Seq<Node>, i: int)
    requires
        seq_distinct(route),
        0 <= i < route.len(),
    ensures
        seq_distinct(route.remove(i)),
{
    let r2 = route.remove(i);
    assert forall|a: int, b: int| 0 <= a < r2.len() && 0 <= b < r2.len() && a != b implies #[trigger] r2[a] != #[trigger] r2[b] by {
        let aa = if a < i { a } else { a + 1 };
        let bb = if b < i { b } else { b + 1 };
        assert(r2[a] == route[aa]);
        assert(r2[b] == route[bb]);
    }
}

/// The total load of a route with a node inserted grows by that node's load.
pub proof fn lemma_load_sum_insert(load: Seq<i32>, route: Seq<Node>, j: int, v: Node)
    requires
        0 <= j <= route.len(),
    ensures
        load_sum(load, route.insert(j, v)) == load_sum(load, route) + load[v as int],
    decreases route.len(),
{
    let ins = route.insert(j, v);
    if j == route.len() {
        assert(ins.drop_last() =~= route);
        assert(ins.last() == v);
    } else {
        assert(ins.drop_last() =~= route.drop_last().insert(j, v));
        assert(ins.last() == route.last());
        lemma_load_sum_insert(load, route.drop_last(), j, v);
    }
}

/// The total load of a route depends only on the loads of its nodes.
pub proof fn lemma_load_sum_frame(load: Seq<i32>, load2: Seq<i32>, route: Seq<Node>)
    requires
        forall|q: int| 0 <= q < route.len() ==> load2[#[trigger] route[q] as int] == load[route[q] as int],
    ensures
        load_sum(load2, route) == load_sum(load, route),
    decreases route.len(),
{
    if route.len() > 0 {
        let rest = route.drop_last();
        assert forall|q: int| 0 <= q < rest.len() implies load2[#[trigger] rest[q] as int] == load[rest[q] as int] by {
            assert(rest[q] == route[q]);
        }
        lemma_load_sum_frame(load, load2, rest);
        assert(route.last() == route[route.len() - 1]);
    }
}

/// Inserting a new node into route `r` at position `j` keeps the routes
/// valid; the route's head becomes the new node when it goes first.
pub proof fn lemma_insert_new_node(sol: SolutionModel, ctx: ContextModel, r: int, j: int, c: Node, l: i32)
    requires
        routes_valid(sol, ctx),
        sol.len() < 0x7fff_ffff,
        0 <= r < ctx.routes.len(),
        0 <= j <= ctx.routes[r].len(),
        0 <= l,
    ensures
        ({
            let route = ctx.routes[r];
            let n = sol.len() as Node;
            let new_sol = sol.inserted(c, l, gap_pred(route, j), gap_succ(route, j));
            let routes = ctx.routes.update(r, route.insert(j, n));
            let heads = if j == 0 { ctx.heads.update(r, n) } else { ctx.heads };
            &&& gap_pred(route, j) < sol.len()
            &&& gap_succ(route, j) < sol.len()
            &&& routes_valid(new_sol, ContextModel { heads, routes, ..ctx })
        }),
{
    let route = ctx.routes[r];
    let n = sol.len() as Node;
    let p = gap_pred(route, j);
    let s = gap_succ(route, j);
    let new_sol = sol.inserted(c, l, p, s);
    let routes = ctx.routes.update(r, route.insert(j, n));
    let heads = if j == 0 { ctx.heads.update(r, n) } else { ctx.heads };
    let new_ctx = ContextModel { heads, routes, ..ctx };
    lemma_route_facts(sol, ctx, r);
    if j > 0 { lemma_linked_at(sol, route, j - 1); }
    if j < route.len() { lemma_linked_at(sol, route, j); }
    let t = SolutionModel { succ: sol.succ.push(s), pred: sol.pred.push(p), cust: sol.cust.push(c), load: sol.load.push(l) };
    assert forall|q: int| 0 <= q < route.len() implies t.succ[#[trigger] route[q] as int] == sol.succ[route[q] as int]
        && t.pred[route[q] as int] == sol.pred[route[q] as int] by {
        lemma_linked_at(sol, route, q);
    }
    lemma_linked_frame(sol, t, route);
    assert forall|q: int| 0 <= q < route.len() implies route[q] != n by {
        lemma_linked_at(sol, route, q);
    }
    lemma_linked_insert(t, route, j, n);
    assert(t.link(p, n).link(n, s) =~= new_sol);
    assert forall|rr: int| 0 <= rr < routes.len() implies route_linked(new_sol, #[trigger] routes[rr]) by {
        if rr != r {
            let other = ctx.routes[rr];
            assert(route_linked(sol, other));
            assert forall|q: int| 0 <= q < other.len() implies new_sol.succ[#[trigger] other[q] as int] == sol.succ[other[q] as int]
                && new_sol.pred[other[q] as int] == sol.pred[other[q] as int] by {
                lemma_linked_at(sol, other, q);
                if j > 0 { lemma_disjoint_at(ctx.routes, rr, q, r, j - 1); }
                if j < route.len() { lemma_disjoint_at(ctx.routes, rr, q, r, j); }
            }
            lemma_linked_frame(sol, new_sol, other);
        }
    }
    if j > 0 {
        assert(route.insert(j, n)[0] == route[0]);
    }
    assert forall|rr: int| 0 <= rr < routes.len() implies #[trigger] new_ctx.heads[rr] == head_of(new_ctx.routes[rr]) by {
    }
    // Disjointness: the new node is fresh.
    let origin = |rr: int, q: int|
        if rr == r {
            if q < j { (r, q) } else { (r, q - 1) }
        } else {
            (rr, q)
        };
    assert forall|rr: int, q: int| valid_pos(routes, rr, q) && !(rr == r && q == j) implies {
        &&& valid_pos(ctx.routes, origin(rr, q).0, origin(rr, q).1)
        &&& ctx.routes[origin(rr, q).0][origin(rr, q).1] == #[trigger] routes[rr][q]
        &&& (valid_pos(routes, r, j) ==> routes[rr][q] != routes[r][j])
    } by {
        let o = origin(rr, q);
        assert(route_linked(sol, ctx.routes[o.0]));
        lemma_linked_at(sol, ctx.routes[o.0], o.1);
    }
    lemma_disjoint_from_origin(ctx.routes, routes, origin, r, j);
    assert(new_sol.wf()) by {
        assert forall|v: int| 0 <= v < new_sol.succ.len() implies #[trigger] new_sol.succ[v] < new_sol.succ.len() by {
            if v < sol.len() && v != p {
                assert(new_sol.succ[v] == sol.succ[v]);
            }
        }
        assert forall|v: int| 0 <= v < new_sol.succ.len() implies #[trigger] new_sol.pred[v] < new_sol.succ.len() by {
            if v < sol.len() && v != s {
                assert(new_sol.pred[v] == sol.pred[v]);
            }
        }
        assert forall|v: int| 0 <= v < new_sol.succ.len() implies 0 <= #[trigger] new_sol.load[v] by {
            if v < sol.len() {
                assert(new_sol.load[v] == sol.load[v]);
            }
        }
    }
}

/// Inserting a new node into a route keeps every node routed.
pub proof fn lemma_insert_new_node_cover(sol: SolutionModel, ctx: ContextModel, r: int, j: int, new_sol: SolutionModel)
    requires
        routes_cover(sol, ctx),
        0 <= r < ctx.routes.len(),
        0 <= j <= ctx.routes[r].len(),
        new_sol.succ.len() == sol.len() + 1,
    ensures
        routes_cover(new_sol, ContextModel { routes: ctx.routes.update(r, ctx.routes[r].insert(j, sol.len() as Node)), ..ctx }),
{
    let n = sol.len() as Node;
    let routes = ctx.routes.update(r, ctx.routes[r].insert(j, n));
    assert forall|v: Node| 0 < v < new_sol.len() implies #[trigger] routed(routes, v) by {
        if v == n {
            assert(routes[r][j] == n);
        } else {
            assert(routed(ctx.routes, v));
            let (rr, q) = choose|rr: int, q: int| 0 <= rr < ctx.routes.len() && 0 <= q < ctx.routes[rr].len() && ctx.routes[rr][q] == v;
            if rr == r {
                let qq = if q < j { q } else { q + 1 };
                assert(routes[r][qq] == v);
            } else {
                assert(routes[rr][q] == v);
            }
        }
    }
}

/// A new node linked to the depot on both sides forms a valid new route.
pub proof fn lemma_add_single_route(sol: SolutionModel, ctx: ContextModel, c: Node, l: i32)
    requires
        routes_valid(sol, ctx),
        sol.len() < 0x7fff_ffff,
        ctx.routes.len() < 0xffff_ffff,
        0 <= l,
    ensures
        ({
            let n = sol.len() as Node;
            let new_sol = sol.inserted(c, l, 0, 0);
            let new_ctx = ContextModel {
                heads: ctx.heads.push(n),
                tails: ctx.tails.push(n),
                loads: ctx.loads.push(l),
                routes: ctx.routes.push(seq![n]),
            };
            &&& routes_valid(new_sol, new_ctx)
            &&& (routes_cover(sol, ctx) ==> routes_cover(new_sol, new_ctx))
        }),
{
    let n = sol.len() as Node;
    let new_sol = sol.inserted(c, l, 0, 0);
    let routes = ctx.routes.push(seq![n]);
    let new_ctx = ContextModel {
        heads: ctx.heads.push(n),
        tails: ctx.tails.push(n),
        loads: ctx.loads.push(l),
        routes,
    };
    assert(route_linked(new_sol, seq![n])) by {
        reveal(route_linked);
    }
    assert forall|rr: int| 0 <= rr < routes.len() implies route_linked(new_sol, #[trigger] routes[rr]) by {
        if rr < ctx.routes.len() {
            let other = ctx.routes[rr];
            assert(routes[rr] == other);
            assert(route_linked(sol, other));
            assert forall|q: int| 0 <= q < other.len() implies new_sol.succ[#[trigger] other[q] as int] == sol.succ[other[q] as int]
                && new_sol.pred[other[q] as int] == sol.pred[other[q] as int] by {
                lemma_linked_at(sol, other, q);
            }
            lemma_linked_frame(sol, new_sol, other);
        }
    }
    assert forall|rr: int| 0 <= rr < routes.len() implies #[trigger] new_ctx.heads[rr] == head_of(new_ctx.routes[rr]) by {
    }
    let origin = |rr: int, q: int| (rr, q);
    assert forall|rr: int, q: int| valid_pos(routes, rr, q) && !(rr == ctx.routes.len() && q == 0) implies {
        &&& valid_pos(ctx.routes, origin(rr, q).0, origin(rr, q).1)
        &&& ctx.routes[origin(rr, q).0][origin(rr, q).1] == #[trigger] routes[rr][q]
        &&& (valid_pos(routes, ctx.routes.len() as int, 0) ==> routes[rr][q] != routes[ctx.routes.len() as int][0])
    } by {
        assert(rr < ctx.routes.len());
        assert(routes[rr] == ctx.routes[rr]);
        assert(route_linked(sol, ctx.routes[rr]));
        lemma_linked_at(sol, ctx.routes[rr], q);
    }
    lemma_disjoint_from_origin(ctx.routes, routes, origin, ctx.routes.len() as int, 0);
    assert(new_sol.wf()) by {
        assert forall|v: int| 0 <= v < new_sol.succ.len() implies #[trigger] new_sol.succ[v] < new_sol.succ.len() by {
            if 0 < v < sol.len() {
                assert(new_sol.succ[v] == sol.succ[v]);
            }
        }
        assert forall|v: int| 0 <= v < new_sol.succ.len() implies #[trigger] new_sol.pred[v] < new_sol.succ.len() by {
            if 0 < v < sol.len() {
                assert(new_sol.pred[v] == sol.pred[v]);
            }
        }
        assert forall|v: int| 0 <= v < new_sol.succ.len() implies 0 <= #[trigger] new_sol.load[v] by {
            if v < sol.len() {
                assert(new_sol.load[v] == sol.load[v]);
            }
        }
    }
    if routes_cover(sol, ctx) {
        assert forall|v: Node| 0 < v < new_sol.len() implies #[trigger] routed(routes, v) by {
            if v == n {
                assert(routes[ctx.routes.len() as int][0] == n);
            } else {
                assert(routed(ctx.routes, v));
                let (rr, q) = choose|rr: int, q: int| 0 <= rr < ctx.routes.len() && 0 <= q < ctx.routes[rr].len() && ctx.routes[rr][q] == v;
                assert(routes[rr][q] == v);
            }
        }
    }
}

/// A pool without routes is valid.
pub proof fn lemma_empty_routes_valid(sol: SolutionModel, ctx: ContextModel)
    requires
        sol.wf(),
        ctx.heads.len() == 0,
        ctx.tails.len() == 0,
        ctx.loads.len() == 0,
        ctx.routes.len() == 0,
    ensures
        routes_valid(sol, ctx),
{
    reveal(routes_disjoint);
}

/// The load delivered to customer `c` by the nodes `1..m` of the pool.
pub open spec fn delivered(sol: SolutionModel, c: Node, m: int) -> int
    decreases m,
{
    if m <= 1 {
        0
    } else {
        delivered(sol, c, m - 1) + if sol.cust[m - 1] == c {
            sol.load[m - 1] as int
        } else {
            0
        }
    }
}

/// Delivered loads depend only on the nodes counted.
pub proof fn lemma_delivered_frame(sol: SolutionModel, sol2: SolutionModel, c: Node, m: int)
    requires
        m <= sol.cust.len(),
        m <= sol.load.len(),
        m <= sol2.cust.len(),
        m <= sol2.load.len(),
        forall|v: int| 0 <= v < m ==> sol2.cust[v] == sol.cust[v] && sol2.load[v] == sol.load[v],
    ensures
        delivered(sol2, c, m) == delivered(sol, c, m),
    decreases m,
{
    if m > 1 {
        lemma_delivered_frame(sol, sol2, c, m - 1);
    }
}

/// Changing the load of node `v` changes its customer's delivered load by
/// the difference.
pub proof fn lemma_delivered_with_load(sol: SolutionModel, v: Node, x: i32, c: Node, m: int)
    requires
        sol.wf(),
        0 < v < m <= sol.len(),
    ensures
        delivered(sol.with_load(v, x), c, m) == delivered(sol, c, m) + if sol.cust[v as int] == c {
            x - sol.load[v as int]
        } else {
            0
        },
    decreases m,
{
    if m - 1 > v {
        lemma_delivered_with_load(sol, v, x, c, m - 1);
    } else {
        lemma_delivered_frame(sol, sol.with_load(v, x), c, m - 1);
    }
}

/// Removing the node at position `i` lowers the route's total load by its load.
pub proof fn lemma_load_sum_remove(load: Seq<i32>, route: Seq<Node>, i: int)
    requires
        0 <= i < route.len(),
    ensures
        load_sum(load, route.remove(i)) == load_sum(load, route) - load[route[i] as int],
{
    lemma_load_sum_insert(load, route.remove(i), i, route[i]);
    assert(route.remove(i).insert(i, route[i]) =~= route);
}

/// Changing the load of a node that a route visits once changes the route's
/// total load by the difference; a route that does not visit it keeps its
/// total.
pub proof fn lemma_load_sum_with_load(load: Seq<i32>, route: Seq<Node>, v: Node, x: i32)
    requires
        seq_distinct(route),
        v < load.len(),
        forall|q: int| 0 <= q < route.len() ==> #[trigger] route[q] < load.len(),
    ensures
        load_sum(load.update(v as int, x), route) == load_sum(load, route) + if route.contains(v) {
            x - load[v as int]
        } else {
            0
        },
    decreases route.len(),
{
    if route.len() > 0 {
        let rest = route.drop_last();
        assert(seq_distinct(rest)) by {
            assert forall|a: int, b: int| 0 <= a < rest.len() && 0 <= b < rest.len() && a != b implies #[trigger] rest[a] != #[trigger] rest[b] by {
                assert(rest[a] == route[a] && rest[b] == route[b]);
            }
        }
        lemma_load_sum_with_load(load, rest, v, x);
        assert(route.last() == route[route.len() - 1]);
        assert(route.last() < load.len());
        if route.last() == v {
            assert(!rest.contains(v)) by {
                if rest.contains(v) {
                    let q = choose|q: int| 0 <= q < rest.len() && rest[q] == v;
                    assert(route[q] == route[route.len() - 1]);
                }
            }
            assert(route.contains(v)) by {
                assert(route[route.len() - 1] == v);
            }
        } else {
            assert(route.contains(v) == rest.contains(v)) by {
                if route.contains(v) {
                    let q = choose|q: int| 0 <= q < route.len() && route[q] == v;
                    assert(q < route.len() - 1);
                    assert(rest[q] == v);
                }
                if rest.contains(v) {
                    let q = choose|q: int| 0 <= q < rest.len() && rest[q] == v;
                    assert(route[q] == v);
                }
            }
        }
    }
}

/// `f` places the positions of `a` at increasing positions of `b` holding
/// the same nodes.
pub open spec fn embedding(a: Seq<Node>, b: Seq<Node>, f: spec_fn(int) -> int) -> bool {
    &&& forall|i: int, k: int| 0 <= i < k < a.len() ==> #[trigger] f(i) < #[trigger] f(k)
    &&& forall|i: int| 0 <= i < a.len() ==> 0 <= #[trigger] f(i) < b.len() && b[f(i)] == a[i]
}

/// `a` is a subsequence of `b`: `b` holds the nodes of `a` in the same
/// order, possibly with other nodes between them.
pub open spec fn embeds(a: Seq<Node>, b: Seq<Node>) -> bool {
    exists|f: spec_fn(int) -> int| embedding(a, b, f)
}

/// Every route is a subsequence of itself.
pub proof fn lemma_embeds_refl(a: Seq<Node>)
    ensures
        embeds(a, a),
{
    let f = |i: int| i;
    assert(embedding(a, a, f));
}

/// Inserting a node into `b` keeps `a` a subsequence of it.
pub proof fn lemma_embeds_insert(a: Seq<Node>, b: Seq<Node>, j: int, x: Node)
    requires
        embeds(a, b),
        0 <= j <= b.len(),
    ensures
        embeds(a, b.insert(j, x)),
{
    let f = choose|f: spec_fn(int) -> int| embedding(a, b, f);
    let g = |i: int| if f(i) < j { f(i) } else { f(i) + 1 };
    let nb = b.insert(j, x);
    assert forall|i: int, k: int| 0 <= i < k < a.len() implies #[trigger] g(i) < #[trigger] g(k) by {
        assert(f(i) < f(k));
    }
    assert forall|i: int| 0 <= i < a.len() implies 0 <= #[trigger] g(i) < nb.len() && nb[g(i)] == a[i] by {
        assert(0 <= f(i) < b.len() && b[f(i)] == a[i]);
    }
    assert(embedding(a, nb, g));
}

/// Being a subsequence is transitive.
pub proof fn lemma_embeds_trans(a: Seq<Node>, b: Seq<Node>, c: Seq<Node>)
    requires
        embeds(a, b),
        embeds(b, c),
    ensures
        embeds(a, c),
{
    let f = choose|f: spec_fn(int) -> int| embedding(a, b, f);
    let g = choose|g: spec_fn(int) -> int| embedding(b, c, g);
    let h = |i: int| g(f(i));
    assert forall|i: int, k: int| 0 <= i < k < a.len() implies #[trigger] h(i) < #[trigger] h(k) by {
        assert(f(i) < f(k));
        assert(0 <= f(i) < b.len());
        assert(0 <= f(k) < b.len());
        assert(g(f(i)) < g(f(k)));
    }
    assert forall|i: int| 0 <= i < a.len() implies 0 <= #[trigger] h(i) < c.len() && c[h(i)] == a[i] by {
        assert(0 <= f(i) < b.len() && b[f(i)] == a[i]);
        assert(0 <= g(f(i)) < c.len() && c[g(f(i))] == b[f(i)]);
    }
    assert(embedding(a, c, h));
}

/// The loads of the nodes that serve customer `c`; other nodes count zero.
pub open spec fn customer_loads(sol: SolutionModel, c: Node) -> Seq<i32> {
    Seq::new(sol.load.len(), |v: int| if sol.cust[v] == c { sol.load[v] } else { 0i32 })
}

/// The total of `load` over the nodes of all `routes`.
pub open spec fn total_route_load(load: Seq<i32>, routes: Seq<Seq<Node>>) -> int
    decreases routes.len(),
{
    if routes.len() == 0 {
        0
    } else {
        total_route_load(load, routes.drop_last()) + load_sum(load, routes.last())
    }
}

/// Replacing one route changes the total by the difference of the two
/// routes' totals.
pub proof fn lemma_total_route_load_update(load: Seq<i32>, routes: Seq<Seq<Node>>, r: int, route: Seq<Node>)
    requires
        0 <= r < routes.len(),
    ensures
        total_route_load(load, routes.update(r, route)) == total_route_load(load, routes) - load_sum(load, routes[r])
            + load_sum(load, route),
    decreases routes.len(),
{
    let up = routes.update(r, route);
    if r == routes.len() - 1 {
        assert(up.drop_last() =~= routes.drop_last());
    } else {
        assert(up.drop_last() =~= routes.drop_last().update(r, route));
        lemma_total_route_load_update(load, routes.drop_last(), r, route);
    }
}

/// Totals over two load sequences that agree on every route but `r` differ
/// by what they give route `r`.
pub proof fn lemma_total_route_load_frame_except(load: Seq<i32>, load2: Seq<i32>, routes: Seq<Seq<Node>>, r: int)
    requires
        0 <= r < routes.len(),
        forall|r2: int| 0 <= r2 < routes.len() && r2 != r ==> #[trigger] load_sum(load2, routes[r2]) == load_sum(load, routes[r2]),
    ensures
        total_route_load(load2, routes) == total_route_load(load, routes) - load_sum(load, routes[r]) + load_sum(load2, routes[r]),
    decreases routes.len(),
{
    let rest = routes.drop_last();
    if r == routes.len() - 1 {
        lemma_total_route_load_same(load, load2, rest);
    } else {
        assert forall|r2: int| 0 <= r2 < rest.len() && r2 != r implies #[trigger] load_sum(load2, rest[r2]) == load_sum(load, rest[r2]) by {
            assert(rest[r2] == routes[r2]);
        }
        lemma_total_route_load_frame_except(load, load2, rest, r);
        assert(load_sum(load2, routes.last()) == load_sum(load, routes.last())) by {
            assert(routes.last() == routes[routes.len() - 1]);
        }
        assert(rest[r] == routes[r]);
    }
}

/// Totals over two load sequences that agree on every route are equal.
pub proof fn lemma_total_route_load_same(load: Seq<i32>, load2: Seq<i32>, routes: Seq<Seq<Node>>)
    requires
        forall|r2: int| 0 <= r2 < routes.len() ==> #[trigger] load_sum(load2, routes[r2]) == load_sum(load, routes[r2]),
    ensures
        total_route_load(load2, routes) == total_route_load(load, routes),
    decreases routes.len(),
{
    if routes.len() > 0 {
        let rest = routes.drop_last();
        assert forall|r2: int| 0 <= r2 < rest.len() implies #[trigger] load_sum(load2, rest[r2]) == load_sum(load, rest[r2]) by {
            assert(rest[r2] == routes[r2]);
        }
        lemma_total_route_load_same(load, load2, rest);
        assert(routes.last() == routes[routes.len() - 1]);
    }
}

} // verus!
