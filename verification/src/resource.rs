//! Budgets of one graph operation.
use std::time::Instant;
use vstd::prelude::*;

use crate::errors::{ErrorView, GraphError, GraphResult};

verus! {

/// Step of an operation that a resource is charged to.
#[derive(Debug, Clone, Copy, PartialEq, Eq, Structural)]
pub enum ResourcePhase {
    Nodes,
    EdgeResolve,
    Filters,
    Persistence,
    QueryFrontier,
    QueryExpand,
    QueryCandidates,
    QueryPaths,
    QueryVisibility,
    AnalyticsWorkspace,
}

impl ResourcePhase {
    /// Name of a phase in status rows.
    pub open spec fn name(self) -> Seq<char> {
        match self {
            ResourcePhase::Nodes => "nodes"@,
            ResourcePhase::EdgeResolve => "edge_resolve"@,
            ResourcePhase::Filters => "filters"@,
            ResourcePhase::Persistence => "persistence"@,
            ResourcePhase::QueryFrontier => "query_frontier"@,
            ResourcePhase::QueryExpand => "query_expand"@,
            ResourcePhase::QueryCandidates => "query_candidates"@,
            ResourcePhase::QueryPaths => "query_paths"@,
            ResourcePhase::QueryVisibility => "query_visibility"@,
            ResourcePhase::AnalyticsWorkspace => "analytics_workspace"@,
        }
    }

    /// Name of this phase in status rows.
    pub fn as_str(self) -> (text: &'static str)
        ensures
            text@ == self.name(),
    {
        match self {
            ResourcePhase::Nodes => "nodes",
            ResourcePhase::EdgeResolve => "edge_resolve",
            ResourcePhase::Filters => "filters",
            ResourcePhase::Persistence => "persistence",
            ResourcePhase::QueryFrontier => "query_frontier",
            ResourcePhase::QueryExpand => "query_expand",
            ResourcePhase::QueryCandidates => "query_candidates",
            ResourcePhase::QueryPaths => "query_paths",
            ResourcePhase::QueryVisibility => "query_visibility",
            ResourcePhase::AnalyticsWorkspace => "analytics_workspace",
        }
    }
}

/// Resource that a governor limits.
#[derive(Debug, Clone, Copy, PartialEq, Eq, Structural)]
pub enum ResourceKind {
    Memory,
    Work,
    Elapsed,
}

#[verifier::external_type_specification]
#[verifier::external_body]
pub struct ExInstant(Instant);

/// `Instant::now` reads the monotonic clock. Nothing is known of the reading.
#[verifier::external_body]
fn clock_reading() -> (now: Instant) {
    Instant::now()
}

/// `Instant::elapsed` gives the time since a reading, here in nanoseconds.
/// Nothing is known of it.
#[verifier::external_body]
fn nanoseconds_since(start: &Instant) -> (nanoseconds: u128) {
    start.elapsed().as_nanos()
}

/// Limits of one operation.
#[derive(Debug, Clone, Copy)]
pub struct ResourceLimits {
    pub memory_bytes: u64,
    pub work_units: u64,
    /// Wall-clock limit; `None` never expires.
    pub elapsed_nanoseconds: Option<u64>,
}

impl ResourceLimits {
    /// Limits on memory, work and elapsed time.
    pub fn bounded(memory_bytes: u64, work_units: u64, elapsed_nanoseconds: Option<u64>) -> (limits:
        Self)
        ensures
            limits == (ResourceLimits { memory_bytes, work_units, elapsed_nanoseconds }),
    {
        ResourceLimits { memory_bytes, work_units, elapsed_nanoseconds }
    }

    /// A limit on memory alone.
    pub fn memory_only(memory_bytes: u64) -> (limits: Self)
        ensures
            limits == (ResourceLimits {
                memory_bytes,
                work_units: u64::MAX,
                elapsed_nanoseconds: None,
            }),
    {
        ResourceLimits { memory_bytes, work_units: u64::MAX, elapsed_nanoseconds: None }
    }
}

/// Accounts for what one operation uses, and refuses what exceeds its limits.
pub struct ResourceGovernor {
    limits: ResourceLimits,
    enforced: bool,
    memory_used: u64,
    work_used: u64,
    started: Instant,
}

/// Accounting state of a governor.
pub struct GovernorView {
    pub limits: ResourceLimits,
    pub enforced: bool,
    pub memory_used: int,
    pub work_used: int,
}

impl View for ResourceGovernor {
    type V = GovernorView;

    closed spec fn view(&self) -> GovernorView {
        GovernorView {
            limits: self.limits,
            enforced: self.enforced,
            memory_used: self.memory_used as int,
            work_used: self.work_used as int,
        }
    }
}

impl GovernorView {
    /// Whether `units` more units of work stay within the limit.
    pub open spec fn admits_work(self, units: int) -> bool {
        !self.enforced || self.work_used + units <= self.limits.work_units
    }

    /// Whether `bytes` more bytes stay within the limit.
    pub open spec fn admits_memory(self, bytes: int) -> bool {
        !self.enforced || self.memory_used + bytes <= self.limits.memory_bytes
    }

    /// The state after `units` more units of work.
    pub open spec fn after_work(self, units: int) -> GovernorView {
        if self.enforced {
            GovernorView { work_used: self.work_used + units, ..self }
        } else {
            self
        }
    }

    /// The state after `bytes` more reserved bytes.
    pub open spec fn after_memory(self, bytes: int) -> GovernorView {
        if self.enforced {
            GovernorView { memory_used: self.memory_used + bytes, ..self }
        } else {
            self
        }
    }

    /// Whether `units` units of work can be charged one after another.
    pub open spec fn affords(self, units: int) -> bool {
        units <= 0 || self.admits_work(units)
    }

    /// Whether `bytes` bytes can be reserved one after another.
    pub open spec fn affords_memory(self, bytes: int) -> bool {
        bytes <= 0 || self.admits_memory(bytes)
    }

    /// Whether the elapsed-time check can fail.
    pub open spec fn can_expire(self) -> bool {
        self.enforced && self.limits.elapsed_nanoseconds is Some
    }
}

/// Whether a governor was charged for at most `most` units of work, and for
/// nothing else.
pub open spec fn charged(before: GovernorView, after: GovernorView, most: int) -> bool {
    let units = after.work_used - before.work_used;
    &&& 0 <= units <= most
    &&& after == before.after_work(units)
}

/// Whether a governor has reserved at most `most` more bytes, and nothing else.
pub open spec fn grown(before: GovernorView, after: GovernorView, most: int) -> bool {
    let bytes = after.memory_used - before.memory_used;
    &&& 0 <= bytes <= most
    &&& after == before.after_memory(bytes)
}

/// The error for a resource that ran out in a phase.
pub open spec fn limit_error(phase: ResourcePhase, resource: ResourceKind) -> ErrorView {
    ErrorView::ResourceLimit { phase, resource }
}

impl ResourceGovernor {
    /// A governor that starts with nothing used.
    pub fn new(limits: ResourceLimits) -> (governor: Self)
        ensures
            governor@ == (GovernorView { limits, enforced: true, memory_used: 0, work_used: 0 }),
    {
        ResourceGovernor {
            limits,
            enforced: true,
            memory_used: 0,
            work_used: 0,
            started: clock_reading(),
        }
    }

    /// A governor that refuses nothing and counts nothing.
    pub fn unlimited() -> (governor: Self)
        ensures
            !governor@.enforced,
            governor@.memory_used == 0,
            governor@.work_used == 0,
    {
        ResourceGovernor {
            limits: ResourceLimits::memory_only(u64::MAX),
            enforced: false,
            memory_used: 0,
            work_used: 0,
            started: clock_reading(),
        }
    }

    /// Work charged so far.
    pub fn work_used(&self) -> (units: u64)
        ensures
            units == self@.work_used,
    {
        self.work_used
    }

    /// Memory reserved so far.
    pub fn memory_used(&self) -> (bytes: u64)
        ensures
            bytes == self@.memory_used,
    {
        self.memory_used
    }

    /// Charges work, or refuses it and changes nothing.
    pub fn consume_work(&mut self, phase: ResourcePhase, units: u64) -> (result: GraphResult<()>)
        ensures
            result is Ok <==> old(self)@.admits_work(units as int),
            result is Ok ==> final(self)@ == old(self)@.after_work(units as int),
            result matches Err(error) ==> error@ == limit_error(phase, ResourceKind::Work)
                && final(self)@ == old(self)@,
    {
        if !self.enforced {
            return Ok(());
        }
        if units <= self.limits.work_units && self.work_used <= self.limits.work_units - units {
            self.work_used = self.work_used + units;
            return Ok(());
        }
        Err(GraphError::ResourceLimit { phase, resource: ResourceKind::Work })
    }

    /// Reserves memory, or refuses it and changes nothing.
    pub fn reserve_memory(&mut self, phase: ResourcePhase, bytes: u64) -> (result: GraphResult<()>)
        ensures
            result is Ok <==> old(self)@.admits_memory(bytes as int),
            old(self)@.memory_used >= 0,
            result is Ok ==> final(self)@ == old(self)@.after_memory(bytes as int),
            result matches Err(error) ==> error@ == limit_error(phase, ResourceKind::Memory)
                && final(self)@ == old(self)@,
    {
        if !self.enforced {
            return Ok(());
        }
        if bytes <= self.limits.memory_bytes && self.memory_used <= self.limits.memory_bytes - bytes {
            self.memory_used = self.memory_used + bytes;
            return Ok(());
        }
        Err(GraphError::ResourceLimit { phase, resource: ResourceKind::Memory })
    }

    /// Gives back memory that was reserved before.
    pub fn release_memory(&mut self, bytes: u64)
        requires
            old(self)@.enforced ==> bytes <= old(self)@.memory_used,
        ensures
            final(self)@ == old(self)@.after_memory(-(bytes as int)),
    {
        if self.enforced {
            self.memory_used = self.memory_used - bytes;
        }
    }

    /// Fails once the elapsed-time limit has passed.
    pub fn check_elapsed(&self, phase: ResourcePhase) -> (result: GraphResult<()>)
        ensures
            !self@.can_expire() ==> result is Ok,
            result matches Err(error) ==> error@ == limit_error(phase, ResourceKind::Elapsed),
    {
        if self.enforced {
            if let Some(limit) = self.limits.elapsed_nanoseconds {
                if nanoseconds_since(&self.started) > limit as u128 {
                    return Err(GraphError::ResourceLimit { phase, resource: ResourceKind::Elapsed });
                }
            }
        }
        Ok(())
    }
}

} // verus!
