//! Bounds derived from an instance.
use vstd::prelude::*;

verus! {

use crate::Node;
use crate::instance::Instance;

/// The total demand of customers `1..m`.
pub open spec fn total_demand(instance: &Instance, m: int) -> int
    decreases m,
{
    if m <= 1 {
        0
    } else {
        total_demand(instance, m - 1) + instance.demands@[m - 1] as int
    }
}

/// The least number of vehicles that can carry a total demand: the demand
/// divided by the capacity, rounded up (none for no demand).
pub open spec fn fleet_lower_bound(instance: &Instance) -> int {
    let total = total_demand(instance, instance.num_customers as int);
    if total <= 0 {
        0
    } else {
        (total + instance.capacity - 1) / (instance.capacity as int)
    }
}

/// The least number of vehicles that can carry all demands, capped at the
/// largest node index.
pub fn calc_fleet_lower_bound(instance: &Instance) -> (n: Node)
    requires
        instance.shaped(),
    ensures
        n == if fleet_lower_bound(instance) > u32::MAX { u32::MAX as int } else { fleet_lower_bound(instance) },
        total_demand(instance, instance.num_customers as int) <= 0 ==> n == 0,
        total_demand(instance, instance.num_customers as int) > 0 && n < u32::MAX ==> n * instance.capacity >= total_demand(
            instance,
            instance.num_customers as int,
        ) && (n - 1) * instance.capacity < total_demand(instance, instance.num_customers as int),
{
    proof {
        lemma_fleet_lower_bound_is_least(instance);
    }
    let mut total: i128 = 0;
    let mut i: Node = 1;
    while i < instance.num_customers
        invariant
            instance.shaped(),
            1 <= i,
            i <= instance.num_customers || i == 1,
            total == total_demand(instance, i as int),
            -(i as int) * 0x8000_0000 <= total <= (i as int) * 0x8000_0000,
        decreases instance.num_customers - i,
    {
        total = total + instance.demands[i as usize] as i128;
        i = i + 1;
    }
    if total <= 0 {
        0
    } else {
        let capacity = instance.capacity as i128;
        let fleets = (total + capacity - 1) / capacity;
        if fleets > u32::MAX as i128 {
            u32::MAX
        } else {
            fleets as Node
        }
    }
}

/// The fleet bound is the least number of vehicles that can carry the total
/// demand: that many vehicles carry it, one fewer cannot; without positive
/// demand it is zero.
pub proof fn lemma_fleet_lower_bound_is_least(instance: &Instance)
    requires
        instance.capacity > 0,
    ensures
        total_demand(instance, instance.num_customers as int) <= 0 ==> fleet_lower_bound(instance) == 0,
        total_demand(instance, instance.num_customers as int) > 0 ==> fleet_lower_bound(instance) * instance.capacity
            >= total_demand(instance, instance.num_customers as int) && (fleet_lower_bound(instance) - 1) * instance.capacity
            < total_demand(instance, instance.num_customers as int),
{
    let total = total_demand(instance, instance.num_customers as int);
    let c = instance.capacity as int;
    if total > 0 {
        let n = fleet_lower_bound(instance);
        assert(n == (total + c - 1) / c);
        assert(n * c >= total && (n - 1) * c < total) by (nonlinear_arith)
            requires
                c > 0,
                total > 0,
                n == (total + c - 1) / c,
        ;
    }
}

} // verus!
