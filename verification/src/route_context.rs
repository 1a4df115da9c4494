//! Per-route summaries: head, tail and load of every route.
use vstd::prelude::*;

verus! {

use crate::Node;
use crate::model::{ContextModel, SolutionModel, routes_valid, load_sum, tail_of, route_linked, gap_succ, gap_pred, lemma_route_facts, lemma_route_step, lemma_linked_at, lemma_insert_new_node};
use crate::solution::AlkaidSolution;

/// The routes of a solution: where each starts, where it ends and what it
/// carries. The node sequence of each route is kept as a ghost model.
pub struct RouteContext {
    heads: Vec<Node>,
    tails: Vec<Node>,
    loads: Vec<i32>,
    routes: Ghost<Seq<Seq<Node>>>,
}

impl View for RouteContext {
    type V = ContextModel;

    closed spec fn view(&self) -> ContextModel {
        ContextModel {
            heads: self.heads@,
            tails: self.tails@,
            loads: self.loads@,
            routes: self.routes@,
        }
    }
}

impl RouteContext {
    /// A context without routes.
    pub fn new() -> (c: Self)
        ensures
            c@.heads.len() == 0,
            c@.tails.len() == 0,
            c@.loads.len() == 0,
            c@.routes.len() == 0,
    {
        RouteContext { heads: Vec::new(), tails: Vec::new(), loads: Vec::new(), routes: Ghost(Seq::empty()) }
    }

    /// The number of routes.
    pub fn num_routes(&self) -> (n: Node)
        requires
            self@.heads.len() <= 0xffff_ffff,
        ensures
            n == self@.heads.len(),
    {
        self.heads.len() as Node
    }

    /// The first node of `route`, or the depot if it is empty.
    pub fn head(&self, route: Node) -> (h: Node)
        requires
            route < self@.heads.len(),
        ensures
            h == self@.heads[route as int],
    {
        self.heads[route as usize]
    }

    /// The last node recorded for `route`.
    pub fn tail(&self, route: Node) -> (t: Node)
        requires
            route < self@.tails.len(),
        ensures
            t == self@.tails[route as int],
    {
        self.tails[route as usize]
    }

    /// The load recorded for `route`.
    pub fn load(&self, route: Node) -> (l: i32)
        requires
            route < self@.loads.len(),
        ensures
            l == self@.loads[route as int],
    {
        self.loads[route as usize]
    }

    /// Records `head` as the first node of `route`.
    pub fn set_head(&mut self, route: Node, head: Node)
        requires
            route < old(self)@.heads.len(),
        ensures
            final(self)@ == (ContextModel { heads: old(self)@.heads.update(route as int, head), ..old(self)@ }),
    {
        self.heads.set(route as usize, head);
        assert(self@ =~= (ContextModel { heads: old(self)@.heads.update(route as int, head), ..old(self)@ }));
    }

    /// Adds `delta` to the load recorded for `route`.
    pub fn add_load(&mut self, route: Node, delta: i32)
        requires
            route < old(self)@.loads.len(),
            i32::MIN <= old(self)@.loads[route as int] + delta <= i32::MAX,
        ensures
            final(self)@ == (ContextModel {
                loads: old(self)@.loads.update(route as int, (old(self)@.loads[route as int] + delta) as i32),
                ..old(self)@
            }),
    {
        let l = self.loads[route as usize] + delta;
        self.loads.set(route as usize, l);
        assert(self@ =~= (ContextModel {
            loads: old(self)@.loads.update(route as int, (old(self)@.loads[route as int] + delta) as i32),
            ..old(self)@
        }));
    }

    /// Adds a route that visits the single node `head` (which is also its
    /// `tail`) and carries `load`. A route of several nodes is built by
    /// adding its first node here and the others with
    /// [`RouteContext::append_node`], which also links them in the solution.
    pub fn add_route(&mut self, head: Node, tail: Node, load: i32)
        requires
            head == tail,
            old(self)@.heads.len() < 0xffff_ffff,
        ensures
            final(self)@ == (ContextModel {
                heads: old(self)@.heads.push(head),
                tails: old(self)@.tails.push(tail),
                loads: old(self)@.loads.push(load),
                routes: old(self)@.routes.push(seq![head]),
            }),
    {
        self.heads.push(head);
        self.tails.push(tail);
        self.loads.push(load);
        self.routes = Ghost(self.routes@.push(seq![head]));
    }

    /// Adds a node serving `customer` with `load` at the end of `route`,
    /// adds `load` to the route's recorded load, records the node as the
    /// route's tail, and returns the node's index.
    pub fn append_node(&mut self, solution: &mut AlkaidSolution, route: Node, customer: Node, load: i32) -> (n: Node)
        requires
            routes_valid(old(solution)@, old(self)@),
            route < old(self)@.routes.len(),
            old(solution)@.len() < 0x7fff_ffff,
            0 <= load,
            i32::MIN <= old(self)@.loads[route as int] + load <= i32::MAX,
        ensures
            n == old(solution)@.len(),
            final(solution)@ == old(solution)@.inserted(customer, load, tail_of(old(self)@.routes[route as int]), 0),
            final(self)@ == (ContextModel {
                heads: if old(self)@.routes[route as int].len() == 0 {
                    old(self)@.heads.update(route as int, n)
                } else {
                    old(self)@.heads
                },
                tails: old(self)@.tails.update(route as int, n),
                loads: old(self)@.loads.update(route as int, (old(self)@.loads[route as int] + load) as i32),
                routes: old(self)@.routes.update(route as int, old(self)@.routes[route as int].push(n)),
            }),
            routes_valid(final(solution)@, final(self)@),
    {
        let ghost nodes = self@.routes[route as int];
        let ghost sol = solution@;
        let ghost ctx = self@;
        proof {
            lemma_route_facts(sol, ctx, route as int);
            lemma_insert_new_node(sol, ctx, route as int, nodes.len() as int, customer, load);
        }
        let mut tail: Node = 0;
        let mut node = self.heads[route as usize];
        let ghost mut k: int = 0;
        while node != 0
            invariant
                sol == solution@,
                sol.wf(),
                route_linked(sol, nodes),
                nodes.len() < sol.len(),
                0 <= k <= nodes.len(),
                node == gap_succ(nodes, k),
                tail == gap_pred(nodes, k),
            decreases nodes.len() - k,
        {
            proof {
                lemma_route_step(sol, nodes, k);
                lemma_linked_at(sol, nodes, k);
            }
            tail = node;
            node = solution.successor(node);
            proof {
                k = k + 1;
            }
        }
        proof {
            lemma_route_step(sol, nodes, k);
            assert(tail == tail_of(nodes));
            if nodes.len() > 0 {
                lemma_linked_at(sol, nodes, nodes.len() - 1);
            }
            assert((tail == 0) == (nodes.len() == 0));
        }
        let n = solution.insert(customer, load, tail, 0);
        if tail == 0 {
            self.heads.set(route as usize, n);
        }
        self.tails.set(route as usize, n);
        let l = self.loads[route as usize] + load;
        self.loads.set(route as usize, l);
        self.routes = Ghost(self.routes@.update(route as int, nodes.push(n)));
        proof {
            assert(nodes.insert(nodes.len() as int, n) =~= nodes.push(n));
            assert(self@ =~= ContextModel {
                heads: if nodes.len() == 0 { ctx.heads.update(route as int, n) } else { ctx.heads },
                tails: ctx.tails.update(route as int, n),
                loads: ctx.loads.update(route as int, (ctx.loads[route as int] + load) as i32),
                routes: ctx.routes.update(route as int, nodes.push(n)),
            });
        }
        n
    }

    /// Recomputes the load and the tail recorded for `route` from its nodes.
    pub fn update_route(&mut self, solution: &AlkaidSolution, route: Node)
        requires
            routes_valid(solution@, old(self)@),
            route < old(self)@.routes.len(),
            load_sum(solution@.load, old(self)@.routes[route as int]) <= i32::MAX,
        ensures
            final(self)@ == (ContextModel {
                loads: old(self)@.loads.update(route as int, load_sum(solution@.load, old(self)@.routes[route as int]) as i32),
                tails: old(self)@.tails.update(route as int, tail_of(old(self)@.routes[route as int])),
                ..old(self)@
            }),
    {
        let ghost nodes = self@.routes[route as int];
        let ghost sol = solution@;
        proof {
            lemma_route_facts(sol, self@, route as int);
        }
        let mut load: i64 = 0;
        let mut tail: Node = 0;
        let mut node = self.heads[route as usize];
        let ghost mut k: int = 0;
        while node != 0
            invariant
                sol == solution@,
                sol.wf(),
                route_linked(sol, nodes),
                nodes.len() < sol.len(),
                0 <= k <= nodes.len(),
                node == gap_succ(nodes, k),
                load == load_sum(sol.load, nodes.take(k)),
                0 <= load <= k * 0x8000_0000,
                tail == tail_of(nodes.take(k)),
            decreases nodes.len() - k,
        {
            proof {
                lemma_route_step(sol, nodes, k);
                lemma_linked_at(sol, nodes, k);
                assert(nodes.take(k + 1).drop_last() =~= nodes.take(k));
            }
            load = load + solution.load(node) as i64;
            tail = node;
            node = solution.successor(node);
            proof {
                k = k + 1;
            }
        }
        proof {
            lemma_route_step(sol, nodes, k);
            assert(nodes.take(k) =~= nodes);
        }
        self.loads.set(route as usize, load as i32);
        self.tails.set(route as usize, tail);
        assert(self@ =~= (ContextModel {
            loads: old(self)@.loads.update(route as int, load_sum(solution@.load, old(self)@.routes[route as int]) as i32),
            tails: old(self)@.tails.update(route as int, tail_of(old(self)@.routes[route as int])),
            ..old(self)@
        }));
    }

    /// Replaces the node sequences recorded for the routes.
    pub(crate) fn set_route_model(&mut self, routes: Ghost<Seq<Seq<Node>>>)
        ensures
            final(self)@ == (ContextModel { routes: routes@, ..old(self)@ }),
    {
        self.routes = routes;
    }
}

} // verus!
