//! Balancer networks.
//!
//! `schedule` says which balancers a bitonic network is made of,
//! `bitonic` generates them and owns the bitonic network, `common` wires a
//! network from a list of balancers and walks tokens through it. `tokens`
//! describes a network at rest, `flows` and `counting` prove the step
//! property of a bitonic network, `depth` the number of balancers on a
//! way through it.
use vstd::prelude::*;

pub mod bitonic;
pub mod common;
pub mod counting;
pub mod depth;
pub mod flows;
pub mod schedule;
pub mod tokens;

verus! {

} // verus!
