//! A TCP reachability scanner's engine: target and port-list parsing, the
//! probe plan, the concurrency ceiling that gates probes, and the ordered
//! collection of open results.
use vstd::prelude::*;

pub mod cidr;
pub mod order;
pub mod ports;
pub mod render;
pub mod scan;
pub mod text;

verus! {

} // verus!
