//! A counting network is a type of concurrent data structure that gives
//! non-blocking access to specific operations, most commonly
//! ``fetch-and-inc``.
//!
//! They were first introduced in a paper by James Aspnes, Maurice Herlihy,
//! and Nir Shavit.
//!
//! # Construction
//!
//! Counting networks are built from simple components called balancers. A
//! balancer can be visualized as an element that takes two input wires and
//! produces two output wires. Threads moving through the structure can be
//! represented as tokens that pass along these wires. A balancer sends the
//! tokens that arrive on its input wires alternately to its top output wire
//! and to its bottom output wire, so that the arriving tokens are
//! distributed in a balanced way across the outputs.
//!
//! For example (where the number indicates the order that the tokens enter):
//! ```text
//! 7 6 4 2 1 ──╥── 1 3 5 7
//!       5 3 ──╨── 2 4 6
//! ```
//!
//! A shared counter attaches a local counter to each output wire, so that
//! every token leaving the network takes the value of the counter and
//! increments it by the width of the network. The counter of wire *i* of a
//! network of width *w* emits the values *i*, *i* + *w*, *i* + 2*w*, ...
//!
//! # What is in this crate
//!
//! - [`networks::schedule`] says which balancers a bitonic network is made
//!   of, and [`networks::bitonic`] generates them in that order.
//! - [`networks::common`] wires a network from such a list: one arena holds
//!   the outputs and the balancers, and a balancer names what follows it by
//!   its place in the arena. Traversing the network follows these places
//!   from the entry of a wire to an output and flips every balancer on the
//!   way.
//! - [`counters`] puts a bucket on each output.
//! - [`networks::tokens`] describes a network at rest, when no token is on
//!   its way; [`networks::flows`], [`networks::counting`] and
//!   [`networks::depth`] prove what holds of a bitonic network at rest.
//!
//! A caller names itself by a token, a number that stays the same from call
//! to call, such as the hash of a thread identifier. The token decides on
//! which wire the caller enters the network.
//!
//! # What is proved
//!
//! The balancers are shared by all callers and are flipped atomically, so
//! the contract of a traversal says only that it ends at an output that can
//! be reached from the wire of the caller. Beside each such function stands
//! one that takes the state of the network from its caller and says exactly
//! what is returned and how the state changes. What the outputs receive is
//! proved of the network at rest:
//!
//! - the numbers of tokens that have reached the outputs follow from the
//!   numbers of tokens that have entered on the wires, whatever the order in
//!   which they passed;
//! - tokens that pass a bitonic network one after the other reach the
//!   outputs in turn, on whatever wires they enter, which is the step
//!   property, and a counter hands them `0, 1, 2, ..`;
//! - every token passes one balancer in each layer.
//!
//! A token meets the balancers in the order in which the generator emits
//! them. The network is laid from its outputs towards its inputs, so the
//! balancer that is emitted last is laid first.
use vstd::prelude::*;

pub mod counters;
pub mod networks;
pub mod util;

verus! {

} // verus!
