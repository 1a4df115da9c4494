//! Variant-specific operations for different VRP variants.
use vstd::prelude::*;

verus! {

use crate::Node;
use crate::construction::{construct, constructed, total_splits, added_nodes, all_pieces};
use crate::instance::Instance;
use crate::inter_operator::customers_fit;
use crate::random::Random;
use crate::solution::{AlkaidSolution, objective_sum};
use crate::utils::{calc_fleet_lower_bound, fleet_lower_bound};

/// SDVRP-specific operations.
pub struct SdvrpOps;

impl SdvrpOps {
    /// Builds an initial feasible solution (see [`construct`]).
    pub fn construct(&self, instance: &Instance, random: &mut Random) -> (solution: AlkaidSolution)
        requires
            instance.shaped(),
            total_splits(instance, instance.num_customers as int) < 0x7fff_fff0,
        ensures
            instance.num_customers >= 1 ==> constructed(instance, solution@),
            instance.num_customers >= 1 ==> added_nodes(solution@, 1).to_multiset() == all_pieces(
                instance,
                instance.num_customers as int,
            ).to_multiset(),
            instance.num_customers == 0 ==> solution@.len() == 1,
    {
        construct(instance, random)
    }

    /// The least number of vehicles that can carry all demands.
    pub fn fleet_lower_bound(&self, instance: &Instance) -> (n: Node)
        requires
            instance.shaped(),
        ensures
            n == if fleet_lower_bound(instance) > u32::MAX { u32::MAX as int } else { fleet_lower_bound(instance) },
    {
        calc_fleet_lower_bound(instance)
    }

    /// The total distance travelled by `solution`.
    pub fn calc_objective(&self, instance: &Instance, solution: &AlkaidSolution) -> (objective: i64)
        requires
            instance.wf(),
            solution@.wf(),
            customers_fit(instance, solution@),
        ensures
            objective == objective_sum(instance, solution@, solution@.len() as int),
    {
        solution.calc_objective(instance)
    }
}

} // verus!
