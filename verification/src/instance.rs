//! A split delivery vehicle routing problem instance.
use vstd::prelude::*;

pub use crate::Node;

verus! {

/// Customers `1..num_customers` with their demands, the depot (customer 0),
/// the vehicle capacity and the travel distances between any two of them.
pub struct Instance {
    pub num_customers: Node,
    pub capacity: i32,
    pub demands: Vec<i32>,
    pub distance_matrix: Vec<Vec<i32>>,
}

impl Instance {
    /// The demand vector and the distance matrix cover every customer, the
    /// matrix is square, and vehicles can carry something.
    pub open spec fn shaped(&self) -> bool {
        &&& self.capacity > 0
        &&& self.demands@.len() >= self.num_customers
        &&& self.distance_matrix@.len() == self.num_customers
        &&& forall|i: int|
            0 <= i < self.num_customers ==> (#[trigger] self.distance_matrix@[i])@.len()
                == self.num_customers
    }

    /// A shaped instance with a depot (customer 0).
    pub open spec fn wf(&self) -> bool {
        &&& self.num_customers >= 1
        &&& self.capacity > 0
        &&& self.demands@.len() >= self.num_customers
        &&& self.distance_matrix@.len() == self.num_customers
        &&& forall|i: int|
            0 <= i < self.num_customers ==> (#[trigger] self.distance_matrix@[i])@.len()
                == self.num_customers
    }

    /// The distance from customer `i` to customer `j`.
    pub open spec fn dist(&self, i: int, j: int) -> int {
        self.distance_matrix@[i]@[j] as int
    }

    /// The distance from customer `from` to customer `to`.
    pub fn distance(&self, from: Node, to: Node) -> (d: i32)
        requires
            self.wf(),
            from < self.num_customers,
            to < self.num_customers,
        ensures
            d == self.dist(from as int, to as int),
    {
        self.distance_matrix[from as usize][to as usize]
    }
}

} // verus!
