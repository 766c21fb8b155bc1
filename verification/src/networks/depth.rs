//! How many balancers a token passes.
//!
//! The balancers on one wire are met one after the other, and a token that
//! changes its wire at a balancer goes on with the balancers of the other
//! wire. In a bitonic network every way from an input to an output leads
//! over the same number of balancers: the number of its layers.
use crate::networks::common::{
    hops, laying_order, lemma_laying_order_on_wires, lemma_wiring_shape, NetworkView,
};
use crate::networks::schedule::{
    ascending, bitonic_schedule, first_merge_wires, lemma_layer_count_grows,
    lemma_layer_count_small, lemma_merge_wires_ascend, lemma_merge_wires_split, merge_schedule,
    neighbour_pairs, second_merge_wires, wire_range, Pair,
};
use crate::networks::tokens::{lemma_walk_is_pass, met, pass, turn};
use crate::util::{is_power_of_two, layer_count, lemma_power_of_two_halves, log2_floor};
use vstd::prelude::*;

verus! {

/// A token passes the balancers that were laid last first: the later part
/// of a list in laying order, and then the earlier part from the wire on
/// which it left the later one.
pub proof fn lemma_pass_concat(
    place: usize,
    first: Seq<Pair>,
    then: Seq<Pair>,
    toggles: Seq<bool>,
    wire: usize,
)
    requires
        place + first.len() + then.len() <= usize::MAX,
    ensures
        pass(place, first + then, toggles, wire) == pass(
            place,
            first,
            toggles,
            pass((place + first.len()) as usize, then, toggles, wire),
        ),
        met(place, first + then, toggles, wire) == met(
            (place + first.len()) as usize,
            then,
            toggles,
            wire,
        ) + met(
            place,
            first,
            toggles,
            pass((place + first.len()) as usize, then, toggles, wire),
        ),
    decreases then.len(),
{
    if then.len() == 0 {
        assert(first + then =~= first);
    } else {
        let whole = first + then;
        assert(whole.drop_last() =~= first + then.drop_last());
        assert(whole.last() == then.last());
        let next = turn(then.last(), toggles[place + whole.len() - 1], wire);
        lemma_pass_concat(place, first, then.drop_last(), toggles, next);
    }
}

/// Two lists of balancers, one met after the other, are laid in the other
/// order.
pub proof fn lemma_laying_concat(first: Seq<Pair>, then: Seq<Pair>)
    ensures
        laying_order(first + then) == laying_order(then) + laying_order(first),
{
    assert(laying_order(first + then) =~= laying_order(then) + laying_order(first));
}

/// Past the balancers on neighbouring wires of a list, a token on a wire of
/// the list has met one balancer and is on a wire of the list; a token on
/// another wire has met none and is where it was.
pub proof fn lemma_neighbours_pass(
    place: usize,
    wires: Seq<usize>,
    toggles: Seq<bool>,
    wire: usize,
)
    requires
        ascending(wires),
        wires.len() % 2 == 0,
    ensures
        wires.contains(wire) ==> met(place, laying_order(neighbour_pairs(wires)), toggles, wire)
            == 1 && wires.contains(
            pass(place, laying_order(neighbour_pairs(wires)), toggles, wire),
        ),
        !wires.contains(wire) ==> met(place, laying_order(neighbour_pairs(wires)), toggles, wire)
            == 0 && pass(place, laying_order(neighbour_pairs(wires)), toggles, wire) == wire,
    decreases wires.len(),
{
    let n = wires.len() as int;
    if n > 0 {
        let pairs = laying_order(neighbour_pairs(wires));
        let fewer = wires.subrange(2, n);
        assert(pairs.drop_last() =~= laying_order(neighbour_pairs(fewer)));
        assert(pairs.last() == (wires[0], wires[1]));
        assert(ascending(fewer)) by {
            assert forall|a: int, b: int| 0 <= a < b < fewer.len() implies fewer[a]
                < fewer[b] by {
                assert(fewer[a] == wires[a + 2]);
                assert(fewer[b] == wires[b + 2]);
            }
        }
        let next = turn(pairs.last(), toggles[place + pairs.len() - 1], wire);
        lemma_neighbours_pass(place, fewer, toggles, next);
        assert forall|other: usize| fewer.contains(other) implies wires.contains(other)
            && other != wires[0] && other != wires[1] by {
            let k = choose|k: int| 0 <= k < fewer.len() && fewer[k] == other;
            assert(wires[k + 2] == other);
            assert(wires[0] < wires[k + 2]);
            assert(wires[1] < wires[k + 2]);
        }
        if wire == wires[0] || wire == wires[1] {
            assert(!fewer.contains(next));
            assert(wires[0] == next || wires[1] == next);
        } else if wires.contains(wire) {
            let k = choose|k: int| 0 <= k < wires.len() && wires[k] == wire;
            assert(fewer[k - 2] == wire);
        }
    }
}

/// Past a merge, a token on a wire of the merge has met one balancer for
/// each halving of the number of its wires and is on a wire of the merge; a
/// token on another wire has met none and is where it was.
pub proof fn lemma_merge_pass(place: usize, wires: Seq<usize>, toggles: Seq<bool>, wire: usize)
    requires
        ascending(wires),
        is_power_of_two(wires.len()),
        place + merge_schedule(wires).len() <= usize::MAX,
    ensures
        wires.contains(wire) ==> met(place, laying_order(merge_schedule(wires)), toggles, wire)
            == log2_floor(wires.len()) && wires.contains(
            pass(place, laying_order(merge_schedule(wires)), toggles, wire),
        ),
        !wires.contains(wire) ==> met(place, laying_order(merge_schedule(wires)), toggles, wire)
            == 0 && pass(place, laying_order(merge_schedule(wires)), toggles, wire) == wire,
    decreases wires.len(),
{
    let n = wires.len();
    lemma_layer_count_small();
    if n == 1 {
        assert(neighbour_pairs(wires) =~= Seq::<Pair>::empty());
        assert(laying_order(merge_schedule(wires)) =~= Seq::<Pair>::empty());
    } else if n == 2 {
        lemma_neighbours_pass(place, wires, toggles, wire);
    } else {
        lemma_power_of_two_halves(n);
        let first = merge_schedule(first_merge_wires(wires));
        let second = merge_schedule(second_merge_wires(wires));
        let last = neighbour_pairs(wires);
        lemma_merge_wires_ascend(wires, 0, usize::MAX + 1);
        // laid: the balancers on neighbouring wires, then the second of the
        // smaller merges, then the first, which a token meets first
        lemma_laying_concat(first + second, last);
        lemma_laying_concat(first, second);
        let laid_last = laying_order(last);
        let laid_second = laying_order(second);
        let laid_first = laying_order(first);
        lemma_pass_concat(place, laid_last, laid_second + laid_first, toggles, wire);
        let inner = (place + laid_last.len()) as usize;
        lemma_pass_concat(inner, laid_second, laid_first, toggles, wire);
        let innermost = (inner + laid_second.len()) as usize;
        let after_first = pass(innermost, laid_first, toggles, wire);
        lemma_merge_pass(innermost, first_merge_wires(wires), toggles, wire);
        let after_second = pass(inner, laid_second, toggles, after_first);
        lemma_merge_pass(inner, second_merge_wires(wires), toggles, after_first);
        lemma_neighbours_pass(place, wires, toggles, after_second);
        lemma_merge_wires_split(wires, wire);
        lemma_merge_wires_split(wires, after_first);
        lemma_merge_wires_split(wires, after_second);
    }
}

/// Past a bitonic network, a token on one of its wires has met one balancer
/// in each layer and is on one of its wires; a token on another wire has met
/// none and is where it was.
pub proof fn lemma_bitonic_pass(
    place: usize,
    start: usize,
    end: usize,
    toggles: Seq<bool>,
    wire: usize,
)
    requires
        start <= end,
        start == end || is_power_of_two((end - start) as nat),
        place + bitonic_schedule(start, end).len() <= usize::MAX,
    ensures
        start <= wire < end ==> met(
            place,
            laying_order(bitonic_schedule(start, end)),
            toggles,
            wire,
        ) == layer_count((end - start) as nat) && start <= pass(
            place,
            laying_order(bitonic_schedule(start, end)),
            toggles,
            wire,
        ) < end,
        !(start <= wire < end) ==> met(
            place,
            laying_order(bitonic_schedule(start, end)),
            toggles,
            wire,
        ) == 0 && pass(place, laying_order(bitonic_schedule(start, end)), toggles, wire) == wire,
    decreases end - start,
{
    let n = (end - start) as nat;
    if n > 1 {
        lemma_power_of_two_halves(n);
        lemma_layer_count_grows(n);
        let middle = (start + (end - start) / 2) as usize;
        let wires = wire_range(start, end);
        let upper = bitonic_schedule(start, middle);
        let lower = bitonic_schedule(middle, end);
        let merge = merge_schedule(wires);
        assert forall|other: usize| #[trigger] wires.contains(other) <==> start <= other
            < end by {
            if start <= other < end {
                assert(wires[other - start] == other);
            }
        }
        // laid: the merge, then the lower half, then the upper half, which
        // a token meets first
        lemma_laying_concat(upper + lower, merge);
        lemma_laying_concat(upper, lower);
        let laid_merge = laying_order(merge);
        let laid_lower = laying_order(lower);
        let laid_upper = laying_order(upper);
        lemma_pass_concat(place, laid_merge, laid_lower + laid_upper, toggles, wire);
        let inner = (place + laid_merge.len()) as usize;
        lemma_pass_concat(inner, laid_lower, laid_upper, toggles, wire);
        let innermost = (inner + laid_lower.len()) as usize;
        let after_upper = pass(innermost, laid_upper, toggles, wire);
        lemma_bitonic_pass(innermost, start, middle, toggles, wire);
        let after_lower = pass(inner, laid_lower, toggles, after_upper);
        lemma_bitonic_pass(inner, middle, end, toggles, after_upper);
        lemma_merge_pass(place, wires, toggles, after_lower);
    } else {
        lemma_layer_count_small();
        assert(laying_order(bitonic_schedule(start, end)) =~= Seq::<Pair>::empty());
    }
}

/// The depth. In a bitonic network a token passes as many balancers as the
/// network has layers, wherever it enters and whatever the bits of the
/// balancers are.
pub proof fn lemma_depth<L>(
    network: NetworkView<L>,
    width: usize,
    toggles: Seq<bool>,
    wire: usize,
)
    requires
        is_power_of_two(width as nat),
        network.wired(width, bitonic_schedule(0, width)),
        toggles.len() == network.segments.len(),
        wire < width,
    ensures
        hops(network.segments, toggles, network.entries[wire as int]) == layer_count(width as nat),
{
    let schedule = bitonic_schedule(0, width);
    lemma_laying_order_on_wires(width, schedule);
    lemma_wiring_shape(width, laying_order(schedule));
    lemma_walk_is_pass(width, laying_order(schedule), toggles, wire);
    lemma_bitonic_pass(width, 0, width, toggles, wire);
}

} // verus!
