//! Members of a ring, and the utilisation an agent reports.

use vstd::prelude::*;

verus! {

/// One registered backend instance.
#[derive(Debug, Clone)]
pub struct Node {
    /// Ring position, derived from `ip`.
    pub id: u32,
    /// Textual endpoint, e.g. `"10.0.0.3:7000"`.
    pub ip: String,
    /// Whether lookups may route to this instance.
    pub healthy: bool,
}

/// The mathematical value of a [`Node`].
pub struct NodeModel {
    pub id: u32,
    pub ip: Seq<char>,
    pub healthy: bool,
}

impl View for Node {
    type V = NodeModel;

    open spec fn view(&self) -> NodeModel {
        NodeModel { id: self.id, ip: self.ip@, healthy: self.healthy }
    }
}

/// One member as reported to agents: position in decimal, endpoint, namespace.
#[derive(Debug, Clone)]
pub struct NodeRecord {
    pub id: String,
    pub ip_address: String,
    pub namespace: String,
}

/// The mathematical value of a [`NodeRecord`].
pub struct NodeRecordModel {
    pub id: Seq<char>,
    pub ip_address: Seq<char>,
    pub namespace: Seq<char>,
}

impl View for NodeRecord {
    type V = NodeRecordModel;

    open spec fn view(&self) -> NodeRecordModel {
        NodeRecordModel { id: self.id@, ip_address: self.ip_address@, namespace: self.namespace@ }
    }
}

/// Bit pattern of the single-precision value 80.0: the CPU limit, in percent.
pub const CPU_LIMIT_BITS: u32 = 0x42A0_0000;

/// Bit pattern of the single-precision value 85.0: the memory limit, in percent.
pub const MEMORY_LIMIT_BITS: u32 = 0x42AA_0000;

/// `x < limit` in IEEE-754 single precision, both given by their bit
/// patterns, for a positive finite `limit`. A value with the sign bit clear
/// orders as its bits (a NaN's bits lie above every finite value); one with the
/// sign bit set is negative, hence below the limit, unless it is a NaN (its
/// bits then lie above those of negative infinity, `0xFF80_0000`).
pub open spec fn f32_bits_below(x: u32, limit: u32) -> bool {
    if x < 0x8000_0000 {
        x < limit
    } else {
        x <= 0xFF80_0000
    }
}

/// Utilisation reported by an agent, in percent. Each figure is carried as
/// the bit pattern of its single-precision value (`f32::to_bits`).
#[derive(Debug, Clone, Copy)]
pub struct UtilizationMetric {
    pub cpu_usage_bits: u32,
    pub memory_usage_bits: u32,
}

impl UtilizationMetric {
    /// The health policy: CPU below 80% and memory below 85%.
    pub open spec fn within_limits(self) -> bool {
        f32_bits_below(self.cpu_usage_bits, CPU_LIMIT_BITS)
            && f32_bits_below(self.memory_usage_bits, MEMORY_LIMIT_BITS)
    }

    /// Whether a node reporting this utilisation counts as healthy.
    pub fn is_healthy(&self) -> (r: bool)
        ensures
            r == self.within_limits(),
    {
        below_limit(self.cpu_usage_bits, CPU_LIMIT_BITS) && below_limit(
            self.memory_usage_bits,
            MEMORY_LIMIT_BITS,
        )
    }
}

fn below_limit(x: u32, limit: u32) -> (r: bool)
    ensures
        r == f32_bits_below(x, limit),
{
    if x < 0x8000_0000 {
        x < limit
    } else {
        x <= 0xFF80_0000
    }
}

} // verus!
