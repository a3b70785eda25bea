//! Value types shared by every part of the sorting engine: thread and
//! network coordinates, sort order, per-pass parameters, and the error type.

use vstd::prelude::*;

verus! {

/// Workgroup size used by GPU-style executors to partition one pass into
/// fixed-size work units; host orchestration and device code must agree on it.
pub const WORKGROUP_SIZE: u32 = 256;

/// Newtype wrapper for thread IDs to ensure type safety.
#[derive(Copy, Clone, Debug)]
pub struct ThreadId(u32);

impl ThreadId {
    pub closed spec fn spec_id(self) -> u32 {
        self.0
    }

    pub fn new(id: u32) -> (r: Self)
        ensures
            r.spec_id() == id,
    {
        Self(id)
    }

    pub fn as_u32(&self) -> (r: u32)
        ensures
            r == self.spec_id(),
    {
        self.0
    }

    pub fn as_usize(&self) -> (r: usize)
        ensures
            r == self.spec_id(),
    {
        self.0 as usize
    }
}

/// Push constants shared between the host and a device kernel.
#[derive(Copy, Clone, Debug)]
pub struct PushConstants {
    pub num_elements: u32,
}

/// Newtype wrapper for a bitonic sorting-network merge level.
#[derive(Copy, Clone, Debug, PartialEq, Eq, Structural)]
pub struct Stage(pub u32);

impl Stage {
    pub fn new(stage: u32) -> (r: Self)
        ensures
            r.0 == stage,
    {
        Self(stage)
    }

    pub fn as_u32(&self) -> (r: u32)
        ensures
            r == self.0,
    {
        self.0
    }
}

/// Newtype wrapper for a pass within a stage.
#[derive(Copy, Clone, Debug, PartialEq, Eq, Structural)]
pub struct Pass(pub u32);

impl Pass {
    pub fn new(pass: u32) -> (r: Self)
        ensures
            r.0 == pass,
    {
        Self(pass)
    }

    pub fn as_u32(&self) -> (r: u32)
        ensures
            r == self.0,
    {
        self.0
    }
}

/// Sort order requested for one sort invocation.
#[derive(Copy, Clone, Debug, PartialEq, Eq, Structural)]
pub enum SortOrder {
    Ascending,
    Descending,
}

impl SortOrder {
    /// The 1-bit integer code of this order: 0 = Ascending, 1 = Descending.
    pub open spec fn spec_code(self) -> u32 {
        match self {
            SortOrder::Ascending => 0,
            SortOrder::Descending => 1,
        }
    }

    /// True when this order is `Ascending`.
    pub open spec fn spec_is_ascending(self) -> bool {
        self is Ascending
    }

    pub fn as_u32(&self) -> (r: u32)
        ensures
            r == self.spec_code(),
    {
        match self {
            SortOrder::Ascending => 0,
            SortOrder::Descending => 1,
        }
    }

    /// The order's name, as a report would print it.
    pub fn name(&self) -> (r: &'static str)
        ensures
            *self is Ascending ==> r@ == "ascending"@,
            *self is Descending ==> r@ == "descending"@,
    {
        match self {
            SortOrder::Ascending => "ascending",
            SortOrder::Descending => "descending",
        }
    }

    /// Decodes the 1-bit integer code; every value above 1 is rejected.
    pub fn try_from_u32(value: u32) -> (r: Result<Self, &'static str>)
        ensures
            value == 0 ==> r == Result::<Self, &'static str>::Ok(SortOrder::Ascending),
            value == 1 ==> r == Result::<Self, &'static str>::Ok(SortOrder::Descending),
            value > 1 ==> r is Err,
    {
        match value {
            0 => Ok(SortOrder::Ascending),
            1 => Ok(SortOrder::Descending),
            _ => Err("Invalid SortOrder value"),
        }
    }
}

/// Parameters handed to a pass executor for one compare-exchange pass.
/// They fully determine the comparison distance and direction of every
/// element: `sort_order` carries the 1-bit code of the requested order.
#[derive(Copy, Clone, Debug)]
pub struct BitonicParams {
    pub num_elements: u32,
    pub stage: Stage,
    pub pass_of_stage: Pass,
    pub sort_order: u32,
}

/// Direction of one bitonic compare operation.
#[derive(Copy, Clone, Debug, PartialEq, Eq, Structural)]
pub enum CompareDirection {
    Up,
    Down,
}

impl CompareDirection {
    pub fn from_bool(ascending: bool) -> (r: Self)
        ensures
            r == (if ascending {
                CompareDirection::Up
            } else {
                CompareDirection::Down
            }),
    {
        if ascending {
            CompareDirection::Up
        } else {
            CompareDirection::Down
        }
    }

    pub fn is_ascending(&self) -> (r: bool)
        ensures
            r == (*self is Up),
    {
        matches!(self, CompareDirection::Up)
    }
}

/// Failures a sort can surface: the backing compute resource was unavailable
/// at executor construction, or it rejected one compare-exchange pass.
#[derive(Copy, Clone, Debug, PartialEq, Eq, Structural)]
pub enum SortError {
    ExecutorInitialization,
    PassExecution,
}

} // verus!
