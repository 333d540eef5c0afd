//! Latency model categories: every op is registered with one.

use vstd::prelude::*;

verus! {

/// Cost class assigned to each op at registration.
#[derive(Clone, Copy, Debug, PartialEq, Eq, Structural)]
pub enum LatencyCategory {
    Zero,
    Memory,
    ComputeFloat,
    ComputeTranscendental,
    ComputeInt,
    ComputeMatmul,
    Comm,
}

/// The lower-snake-case name of a category.
pub open spec fn spec_category_name(c: LatencyCategory) -> Seq<char> {
    match c {
        LatencyCategory::Zero => "zero"@,
        LatencyCategory::Memory => "memory"@,
        LatencyCategory::ComputeFloat => "compute_float"@,
        LatencyCategory::ComputeTranscendental => "compute_transcendental"@,
        LatencyCategory::ComputeInt => "compute_int"@,
        LatencyCategory::ComputeMatmul => "compute_matmul"@,
        LatencyCategory::Comm => "comm"@,
    }
}

impl LatencyCategory {
    /// The category's string value.
    pub fn as_str(self) -> (s: &'static str)
        ensures
            s@ == spec_category_name(self),
    {
        match self {
            LatencyCategory::Zero => "zero",
            LatencyCategory::Memory => "memory",
            LatencyCategory::ComputeFloat => "compute_float",
            LatencyCategory::ComputeTranscendental => "compute_transcendental",
            LatencyCategory::ComputeInt => "compute_int",
            LatencyCategory::ComputeMatmul => "compute_matmul",
            LatencyCategory::Comm => "comm",
        }
    }
}

} // verus!
