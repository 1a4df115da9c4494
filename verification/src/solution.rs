//! The node pool of a solution: every node serves one customer with a load
//! and is linked to a predecessor and a successor.
use vstd::prelude::*;

verus! {

use crate::Node;
use crate::model::SolutionModel;
use crate::instance::Instance;
use crate::inter_operator::customers_fit;

/// A solution stored as doubly linked lists over a pool of nodes.
///
/// Node 0 is the depot. Routes themselves (their heads) are kept by
/// [`crate::route_context::RouteContext`].
pub struct AlkaidSolution {
    successors: Vec<Node>,
    predecessors: Vec<Node>,
    customers: Vec<Node>,
    loads: Vec<i32>,
}

impl View for AlkaidSolution {
    type V = SolutionModel;

    closed spec fn view(&self) -> SolutionModel {
        SolutionModel {
            succ: self.successors@,
            pred: self.predecessors@,
            cust: self.customers@,
            load: self.loads@,
        }
    }
}

/// The distance counted for nodes `1..m`: each node's leg to its
/// successor, plus the leg from the depot for a node that follows the depot.
pub open spec fn objective_sum(instance: &Instance, sol: SolutionModel, m: int) -> int
    decreases m,
{
    if m <= 1 {
        0
    } else {
        let v = m - 1;
        let c = sol.cust[v] as int;
        objective_sum(instance, sol, m - 1) + instance.dist(c, sol.cust[sol.succ[v] as int] as int) + if sol.pred[v] == 0 {
            instance.dist(0, c)
        } else {
            0
        }
    }
}

impl AlkaidSolution {
    /// A solution holding only the depot.
    pub fn new() -> (s: Self)
        ensures
            s@ == (SolutionModel { succ: seq![0], pred: seq![0], cust: seq![0], load: seq![0] }),
            s@.wf(),
    {
        let s = AlkaidSolution {
            successors: vec![0],
            predecessors: vec![0],
            customers: vec![0],
            loads: vec![0],
        };
        assert(s@.succ =~= seq![0u32]);
        assert(s@.pred =~= seq![0u32]);
        assert(s@.cust =~= seq![0u32]);
        assert(s@.load =~= seq![0i32]);
        s
    }

    /// The number of nodes in the pool, the depot included.
    pub fn num_nodes(&self) -> (n: usize)
        ensures
            n == self@.len(),
    {
        self.successors.len()
    }

    /// The customer served by `node`.
    pub fn customer(&self, node: Node) -> (c: Node)
        requires
            self@.wf(),
            node < self@.len(),
        ensures
            c == self@.cust[node as int],
    {
        self.customers[node as usize]
    }

    /// The load delivered by `node`.
    pub fn load(&self, node: Node) -> (l: i32)
        requires
            self@.wf(),
            node < self@.len(),
        ensures
            l == self@.load[node as int],
    {
        self.loads[node as usize]
    }

    /// The node after `node`.
    pub fn successor(&self, node: Node) -> (s: Node)
        requires
            self@.wf(),
            node < self@.len(),
        ensures
            s == self@.succ[node as int],
    {
        self.successors[node as usize]
    }

    /// The node before `node`.
    pub fn predecessor(&self, node: Node) -> (p: Node)
        requires
            self@.wf(),
            node < self@.len(),
        ensures
            p == self@.pred[node as int],
    {
        self.predecessors[node as usize]
    }

    /// Sets the node after `node` to `succ`.
    pub fn set_successor(&mut self, node: Node, succ: Node)
        requires
            old(self)@.wf(),
            node < old(self)@.len(),
            succ < old(self)@.len(),
        ensures
            final(self)@ == old(self)@.with_succ(node, succ),
            final(self)@.wf(),
    {
        self.successors.set(node as usize, succ);
        assert(self@ =~= old(self)@.with_succ(node, succ));
    }

    /// Sets the load of `node` to `load`.
    pub fn set_load(&mut self, node: Node, load: i32)
        requires
            old(self)@.wf(),
            node < old(self)@.len(),
            0 <= load,
        ensures
            final(self)@ == old(self)@.with_load(node, load),
            final(self)@.wf(),
    {
        self.loads.set(node as usize, load);
        assert(self@ =~= old(self)@.with_load(node, load));
    }

    /// Makes `succ` follow `pred`.
    pub fn link(&mut self, pred: Node, succ: Node)
        requires
            old(self)@.wf(),
            pred < old(self)@.len(),
            succ < old(self)@.len(),
        ensures
            final(self)@ == old(self)@.link(pred, succ),
            final(self)@.wf(),
    {
        self.successors.set(pred as usize, succ);
        self.predecessors.set(succ as usize, pred);
        assert(self@ =~= old(self)@.link(pred, succ));
    }

    /// Adds a node serving `customer` with `load`, linked between
    /// `predecessor` and `successor`, and returns its index.
    pub fn insert(&mut self, customer: Node, load: i32, predecessor: Node, successor: Node) -> (n: Node)
        requires
            old(self)@.wf(),
            predecessor < old(self)@.len(),
            successor < old(self)@.len(),
            old(self)@.len() < 0x7fff_ffff,
            0 <= load,
        ensures
            n == old(self)@.len(),
            final(self)@ == old(self)@.inserted(customer, load, predecessor, successor),
            final(self)@.wf(),
    {
        let n = self.successors.len() as Node;
        self.successors.push(successor);
        self.predecessors.push(predecessor);
        self.customers.push(customer);
        self.loads.push(load);
        self.successors.set(predecessor as usize, n);
        self.predecessors.set(successor as usize, n);
        assert(self@ =~= old(self)@.inserted(customer, load, predecessor, successor));
        n
    }

    /// The total distance travelled: for every node but the depot, the leg
    /// to its successor, and the leg from the depot when it comes first in
    /// its route.
    pub fn calc_objective(&self, instance: &Instance) -> (objective: i64)
        requires
            instance.wf(),
            self@.wf(),
            customers_fit(instance, self@),
        ensures
            objective == objective_sum(instance, self@, self@.len() as int),
    {
        let n = self.successors.len();
        let mut objective: i64 = 0;
        let mut v: usize = 1;
        while v < n
            invariant
                instance.wf(),
                self@.wf(),
                customers_fit(instance, self@),
                n == self@.len(),
                1 <= v <= n,
                objective == objective_sum(instance, self@, v as int),
                -(v as int) * 0x1_0000_0000 <= objective <= (v as int) * 0x1_0000_0000,
            decreases n - v,
        {
            let c = self.customers[v];
            let succ = self.successors[v];
            let leg = instance.distance(c, self.customers[succ as usize]) as i64;
            let from_depot = if self.predecessors[v] == 0 { instance.distance(0, c) as i64 } else { 0 };
            objective = objective + leg + from_depot;
            v = v + 1;
        }
        objective
    }

    /// The indices of all nodes but the depot.
    pub fn node_indices(&self) -> (v: Vec<Node>)
        requires
            self@.wf(),
        ensures
            v@ == Seq::new((self@.len() - 1) as nat, |i: int| (i + 1) as Node),
    {
        let n = self.successors.len();
        let mut v: Vec<Node> = Vec::new();
        let mut i: usize = 1;
        while i < n
            invariant
                self@.wf(),
                n == self@.len(),
                1 <= i <= n,
                v@ == Seq::new((i - 1) as nat, |k: int| (k + 1) as Node),
            decreases n - i,
        {
            v.push(i as Node);
            i = i + 1;
            assert(v@ =~= Seq::new((i - 1) as nat, |k: int| (k + 1) as Node));
        }
        v
    }
}

} // verus!
