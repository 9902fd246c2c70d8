//! What a budget is: what it admits, what charging and reserving leave of it, and
//! what giving back restores.
use vstd::prelude::*;

use crate::errors::{ErrorView, GraphResult};
use crate::resource::{
    charged, grown, GovernorView, ResourceGovernor, ResourceKind, ResourceLimits, ResourcePhase,
};

verus! {

/// A budget admits work and memory exactly up to its limits, charging adds just
/// what is charged to what is used, and reserving just what is reserved to what
/// is held. One that enforces nothing admits everything and counts nothing.
pub proof fn law_budgets_count(governor: GovernorView, units: int, bytes: int)
    ensures
        governor.enforced ==> {
            &&& governor.admits_work(units) <==> governor.work_used + units
                <= governor.limits.work_units
            &&& governor.admits_memory(bytes) <==> governor.memory_used + bytes
                <= governor.limits.memory_bytes
            &&& governor.after_work(units).work_used == governor.work_used + units
            &&& governor.after_work(units).memory_used == governor.memory_used
            &&& governor.after_memory(bytes).memory_used == governor.memory_used + bytes
            &&& governor.after_memory(bytes).work_used == governor.work_used
            &&& governor.after_work(units).limits == governor.limits
            &&& governor.after_memory(bytes).limits == governor.limits
            &&& governor.after_work(units).enforced && governor.after_memory(bytes).enforced
            &&& governor.can_expire() <==> governor.limits.elapsed_nanoseconds is Some
        },
        !governor.enforced ==> {
            &&& governor.admits_work(units) && governor.admits_memory(bytes)
            &&& governor.after_work(units) == governor
            &&& governor.after_memory(bytes) == governor
            &&& !governor.can_expire()
        },
        governor.affords(units) <==> units <= 0 || governor.admits_work(units),
        governor.affords_memory(bytes) <==> bytes <= 0 || governor.admits_memory(bytes),
{
}

/// Charging in parts is charging at once: a budget admits the whole exactly if it
/// admits the first part and then the second, and ends the same; and giving back
/// what was reserved leaves the budget as it was.
pub proof fn law_budgets_add_up(governor: GovernorView, first: int, second: int)
    requires
        0 <= first,
        0 <= second,
    ensures
        governor.after_work(first).after_work(second) == governor.after_work(first + second),
        governor.after_memory(first).after_memory(second) == governor.after_memory(
            first + second,
        ),
        governor.admits_work(first + second) <==> governor.admits_work(first)
            && governor.after_work(first).admits_work(second),
        governor.admits_memory(first + second) <==> governor.admits_memory(first)
            && governor.after_memory(first).admits_memory(second),
        governor.after_memory(first).after_memory(-first) == governor,
        charged(governor, governor.after_work(first), first),
        grown(governor, governor.after_memory(first), first),
{
}

/// A governor with limits takes work as long as all that was taken stays within
/// the limit, adds what it takes, and changes nothing when it refuses; it takes
/// memory in the same way, and gives back what is released.
pub proof fn law_governor_keeps_to_its_limits(
    worked: &mut ResourceGovernor,
    reserved: &mut ResourceGovernor,
    released: &mut ResourceGovernor,
    phase: ResourcePhase,
    amount: u64,
    work: GraphResult<()>,
    memory: GraphResult<()>,
)
    requires
        old(worked)@.enforced,
        old(reserved)@.enforced,
        old(released)@.enforced,
        call_ensures(ResourceGovernor::consume_work, (worked, phase, amount), work),
        call_ensures(ResourceGovernor::reserve_memory, (reserved, phase, amount), memory),
        call_ensures(ResourceGovernor::release_memory, (released, amount), ()),
    ensures
        work is Ok <==> old(worked)@.work_used + amount <= old(worked)@.limits.work_units,
        work is Ok ==> final(worked)@.work_used == old(worked)@.work_used + amount,
        work is Err ==> final(worked)@.work_used == old(worked)@.work_used,
        final(worked)@.memory_used == old(worked)@.memory_used,
        final(worked)@.limits == old(worked)@.limits && final(worked)@.enforced,
        memory is Ok <==> old(reserved)@.memory_used + amount
            <= old(reserved)@.limits.memory_bytes,
        memory is Ok ==> final(reserved)@.memory_used == old(reserved)@.memory_used + amount,
        memory is Err ==> final(reserved)@.memory_used == old(reserved)@.memory_used,
        final(reserved)@.work_used == old(reserved)@.work_used,
        final(reserved)@.limits == old(reserved)@.limits && final(reserved)@.enforced,
        final(released)@.memory_used == old(released)@.memory_used - amount,
        final(released)@.work_used == old(released)@.work_used,
        work matches Err(error) ==> error@ == (ErrorView::ResourceLimit {
            phase,
            resource: ResourceKind::Work,
        }),
        memory matches Err(error) ==> error@ == (ErrorView::ResourceLimit {
            phase,
            resource: ResourceKind::Memory,
        }),
{
}

/// A new governor has used nothing, and one without limits refuses nothing and
/// counts nothing.
pub proof fn law_governors_begin_unused(
    limits: ResourceLimits,
    new: ResourceGovernor,
    free: ResourceGovernor,
    asked: &mut ResourceGovernor,
    phase: ResourcePhase,
    amount: u64,
    result: GraphResult<()>,
)
    requires
        call_ensures(ResourceGovernor::new, (limits,), new),
        call_ensures(ResourceGovernor::unlimited, (), free),
        !old(asked)@.enforced,
        call_ensures(ResourceGovernor::consume_work, (asked, phase, amount), result),
    ensures
        new@.enforced && new@.limits == limits && new@.work_used == 0 && new@.memory_used == 0,
        !free@.enforced && free@.work_used == 0 && free@.memory_used == 0,
        result is Ok && final(asked)@ == old(asked)@,
{
}

} // verus!
