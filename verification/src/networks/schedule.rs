//! The balancers of a bitonic network, as a list of wire pairs.
//!
//! `Bitonic[w]` is `Bitonic[w/2]` on the upper half of the wires, then
//! `Bitonic[w/2]` on the lower half, then `Merge[w]` over all of them.
//! `Merge` over a list of wires takes the even places of its upper half with
//! the odd places of its lower half into one smaller `Merge`, the remaining
//! places into a second one, and ends with one balancer on each two
//! neighbouring wires of its list.
use crate::util::{is_power_of_two, layer_count, lemma_power_of_two_halves, log2_floor};
use vstd::prelude::*;

verus! {

/// A balancer, named by the wires it joins: the upper one first.
pub type Pair = (usize, usize);

/// The wires `start, start + 1, .., end - 1`.
pub open spec fn wire_range(start: usize, end: usize) -> Seq<usize> {
    Seq::new((end - start) as nat, |k: int| (start + k) as usize)
}

/// Every second entry of `wires`, beginning with the first.
pub open spec fn even_places<T>(wires: Seq<T>) -> Seq<T> {
    Seq::new(((wires.len() + 1) / 2) as nat, |k: int| wires[2 * k])
}

/// Every second entry of `wires`, beginning with the second.
pub open spec fn odd_places<T>(wires: Seq<T>) -> Seq<T> {
    Seq::new((wires.len() / 2) as nat, |k: int| wires[2 * k + 1])
}

/// The upper half of `wires`.
pub open spec fn upper_half<T>(wires: Seq<T>) -> Seq<T> {
    wires.subrange(0, (wires.len() / 2) as int)
}

/// The lower half of `wires`.
pub open spec fn lower_half<T>(wires: Seq<T>) -> Seq<T> {
    wires.subrange((wires.len() / 2) as int, wires.len() as int)
}

/// The wires of the first of the two smaller merges inside a merge of
/// `wires`. The same selection serves for what the wires carry.
pub open spec fn first_merge_wires<T>(wires: Seq<T>) -> Seq<T> {
    even_places(upper_half(wires)) + odd_places(lower_half(wires))
}

/// The wires of the second of the two smaller merges.
pub open spec fn second_merge_wires<T>(wires: Seq<T>) -> Seq<T> {
    odd_places(upper_half(wires)) + even_places(lower_half(wires))
}

/// One balancer on each two neighbouring wires: `(wires[0], wires[1])`,
/// `(wires[2], wires[3])`, ...
pub open spec fn neighbour_pairs(wires: Seq<usize>) -> Seq<Pair> {
    Seq::new((wires.len() / 2) as nat, |k: int| (wires[2 * k], wires[2 * k + 1]))
}

/// The balancers of a merge over `wires`, in the order in which they are
/// emitted.
pub open spec fn merge_schedule(wires: Seq<usize>) -> Seq<Pair>
    decreases wires.len(),
{
    if wires.len() <= 2 {
        neighbour_pairs(wires)
    } else {
        merge_schedule(first_merge_wires(wires)) + merge_schedule(second_merge_wires(wires))
            + neighbour_pairs(wires)
    }
}

/// The balancers of a bitonic network on the wires `start .. end`, in the
/// order in which they are emitted.
pub open spec fn bitonic_schedule(start: usize, end: usize) -> Seq<Pair>
    decreases end - start,
{
    if end - start <= 1 {
        Seq::empty()
    } else {
        let middle = (start + (end - start) / 2) as usize;
        bitonic_schedule(start, middle) + bitonic_schedule(middle, end) + merge_schedule(
            wire_range(start, end),
        )
    }
}

/// Splits `wires` into those at even places and those at odd places.
pub fn split_even_odd(wires: &Vec<usize>) -> (parts: (Vec<usize>, Vec<usize>))
    ensures
        parts.0@ == even_places(wires@),
        parts.1@ == odd_places(wires@),
{
    let mut even: Vec<usize> = Vec::new();
    let mut odd: Vec<usize> = Vec::new();
    let mut idx: usize = 0;
    while idx < wires.len()
        invariant
            idx <= wires.len(),
            even@ == even_places(wires@.subrange(0, idx as int)),
            odd@ == odd_places(wires@.subrange(0, idx as int)),
        decreases wires.len() - idx,
    {
        let ghost after = wires@.subrange(0, idx + 1);
        if idx % 2 == 0 {
            even.push(wires[idx]);
            assert(even@ =~= even_places(after));
            assert(odd@ =~= odd_places(after));
        } else {
            odd.push(wires[idx]);
            assert(even@ =~= even_places(after));
            assert(odd@ =~= odd_places(after));
        }
        idx = idx + 1;
    }
    assert(wires@.subrange(0, idx as int) =~= wires@);
    (even, odd)
}

/// One balancer for each place of two lists of wires: it joins the wire of
/// `upper` with the wire of `lower` at that place, as far as both lists go.
pub open spec fn joined(upper: Seq<usize>, lower: Seq<usize>) -> Seq<Pair> {
    Seq::new(
        if upper.len() <= lower.len() {
            upper.len()
        } else {
            lower.len()
        },
        |k: int| (upper[k], lower[k]),
    )
}

/// The wires of two lists in turn: the first of `upper`, the first of
/// `lower`, the second of `upper`, and so on, as far as both lists go.
pub open spec fn interleaved(upper: Seq<usize>, lower: Seq<usize>) -> Seq<usize> {
    Seq::new(
        2 * if upper.len() <= lower.len() {
            upper.len()
        } else {
            lower.len()
        },
        |p: int|
            if p % 2 == 0 {
                upper[p / 2]
            } else {
                lower[p / 2]
            },
    )
}

/// Joins each wire of `upper` with the wire of `lower` at the same place:
/// appends one balancer for each place to `balancers`, and gives the wires
/// as they leave these balancers, each wire of `upper` followed by the wire
/// of `lower` that it was joined with.
pub fn merge_wires(
    upper: &Vec<usize>,
    lower: &Vec<usize>,
    balancers: &mut Vec<Pair>,
) -> (wires: Vec<usize>)
    ensures
        final(balancers)@ == old(balancers)@ + joined(upper@, lower@),
        wires@ == interleaved(upper@, lower@),
{
    let ghost before = balancers@;
    let count: usize = if upper.len() <= lower.len() {
        upper.len()
    } else {
        lower.len()
    };
    let mut wires: Vec<usize> = Vec::new();
    let mut idx: usize = 0;
    while idx < count
        invariant
            idx <= count,
            count <= upper.len(),
            count <= lower.len(),
            joined(upper@, lower@).len() == count,
            interleaved(upper@, lower@).len() == 2 * count,
            balancers@ == before + joined(upper@, lower@).subrange(0, idx as int),
            wires@ == interleaved(upper@, lower@).subrange(0, 2 * idx),
        decreases count - idx,
    {
        let upper_wire: usize = upper[idx];
        let lower_wire: usize = lower[idx];
        balancers.push((upper_wire, lower_wire));
        wires.push(upper_wire);
        wires.push(lower_wire);
        assert(balancers@ =~= before + joined(upper@, lower@).subrange(0, idx + 1));
        assert(wires@ =~= interleaved(upper@, lower@).subrange(0, 2 * (idx + 1)));
        idx = idx + 1;
    }
    assert(joined(upper@, lower@).subrange(0, count as int) =~= joined(upper@, lower@));
    assert(interleaved(upper@, lower@).subrange(0, 2 * count) =~= interleaved(upper@, lower@));
    wires
}

/// The wires on which the outputs of the two smaller merges of a merge
/// leave, sorted for the balancers that end the merge: each of these joins
/// an output of the first with the output of the second at the same place,
/// and in the lower half of the merge the wire of the second is the upper
/// one.
fn upper_and_lower_wires(
    first: &Vec<usize>,
    second: &Vec<usize>,
) -> (parts: (Vec<usize>, Vec<usize>))
    requires
        first.len() == second.len(),
    ensures
        parts.0@ == upper_half(first@) + lower_half(second@),
        parts.1@ == upper_half(second@) + lower_half(first@),
{
    let count: usize = first.len();
    let middle: usize = count / 2;
    let mut upper: Vec<usize> = Vec::new();
    let mut lower: Vec<usize> = Vec::new();
    let ghost uppers = upper_half(first@) + lower_half(second@);
    let ghost lowers = upper_half(second@) + lower_half(first@);
    let mut idx: usize = 0;
    while idx < count
        invariant
            idx <= count,
            count == first.len(),
            count == second.len(),
            middle == count / 2,
            uppers == upper_half(first@) + lower_half(second@),
            lowers == upper_half(second@) + lower_half(first@),
            upper@ == uppers.subrange(0, idx as int),
            lower@ == lowers.subrange(0, idx as int),
        decreases count - idx,
    {
        if idx < middle {
            upper.push(first[idx]);
            lower.push(second[idx]);
        } else {
            upper.push(second[idx]);
            lower.push(first[idx]);
        }
        assert(upper@ =~= uppers.subrange(0, idx + 1));
        assert(lower@ =~= lowers.subrange(0, idx + 1));
        idx = idx + 1;
    }
    assert(uppers.subrange(0, count as int) =~= uppers);
    assert(lowers.subrange(0, count as int) =~= lowers);
    (upper, lower)
}

/// The balancers that end a merge join the outputs of its two smaller
/// merges place by place, and so each two neighbouring wires of the merge.
proof fn lemma_last_balancers(wires: Seq<usize>)
    requires
        wires.len() % 4 == 0,
    ensures
        joined(
            upper_half(first_merge_wires(wires)) + lower_half(second_merge_wires(wires)),
            upper_half(second_merge_wires(wires)) + lower_half(first_merge_wires(wires)),
        ) == neighbour_pairs(wires),
        interleaved(
            upper_half(first_merge_wires(wires)) + lower_half(second_merge_wires(wires)),
            upper_half(second_merge_wires(wires)) + lower_half(first_merge_wires(wires)),
        ) == wires,
{
    let first = first_merge_wires(wires);
    let second = second_merge_wires(wires);
    let uppers = upper_half(first) + lower_half(second);
    let lowers = upper_half(second) + lower_half(first);
    let half = (wires.len() / 2) as int;
    let quarter = (wires.len() / 4) as int;
    lemma_merge_parts(wires);
    assert forall|k: int| 0 <= k < half implies uppers[k] == wires[2 * k] && lowers[k]
        == wires[2 * k + 1] by {
        if k < quarter {
            assert(uppers[k] == first[k]);
            assert(lowers[k] == second[k]);
        } else {
            assert(uppers[k] == second[k]);
            assert(lowers[k] == first[k]);
        }
    }
    assert(joined(uppers, lowers) =~= neighbour_pairs(wires));
    assert(interleaved(uppers, lowers) =~= wires);
}

/// Appends to `balancers` the balancers of the merge over the wires of
/// `upper` followed by those of `lower`, and gives the wires as they leave
/// the merge: the outputs of the merge leave on its wires in their order.
pub fn merge_networks(
    upper: Vec<usize>,
    lower: Vec<usize>,
    balancers: &mut Vec<Pair>,
) -> (wires: Vec<usize>)
    requires
        upper.len() == lower.len(),
        is_power_of_two(upper.len() as nat),
    ensures
        final(balancers)@ == old(balancers)@ + merge_schedule(upper@ + lower@),
        wires@ == upper@ + lower@,
    decreases upper.len(),
{
    let ghost before = balancers@;
    let ghost all = upper@ + lower@;
    if upper.len() == 1 {
        let wires = merge_wires(&upper, &lower, balancers);
        assert(joined(upper@, lower@) =~= neighbour_pairs(all));
        assert(interleaved(upper@, lower@) =~= all);
        wires
    } else {
        proof {
            lemma_power_of_two_halves(upper.len() as nat);
            assert(upper_half(all) =~= upper@);
            assert(lower_half(all) =~= lower@);
        }
        let (upper_even, upper_odd) = split_even_odd(&upper);
        let (lower_even, lower_odd) = split_even_odd(&lower);

        let upper_result = merge_networks(upper_even, lower_odd, balancers);
        let lower_result = merge_networks(upper_odd, lower_even, balancers);

        let (upper_wires, lower_wires) = upper_and_lower_wires(&upper_result, &lower_result);
        proof {
            lemma_last_balancers(all);
        }
        let wires = merge_wires(&upper_wires, &lower_wires, balancers);
        assert(balancers@ =~= before + merge_schedule(all));
        wires
    }
}

/// The balancers of the bitonic network on the `width` wires that begin at
/// `wire_index`, computed as the network is defined.
pub fn construct_bitonic(width: usize, wire_index: usize) -> (balancers: Vec<Pair>)
    requires
        is_power_of_two(width as nat),
        wire_index + width <= usize::MAX,
    ensures
        balancers@ == bitonic_schedule(wire_index, (wire_index + width) as usize),
    decreases width,
{
    if width == 1 {
        Vec::new()
    } else {
        proof {
            lemma_power_of_two_halves(width as nat);
        }
        let middle: usize = wire_index + width / 2;
        let mut balancers = construct_bitonic(width / 2, wire_index);
        let mut lower_result = construct_bitonic(width / 2, middle);
        balancers.append(&mut lower_result);

        let mut upper: Vec<usize> = Vec::new();
        let mut lower: Vec<usize> = Vec::new();
        let mut offset: usize = 0;
        while offset < width / 2
            invariant
                offset <= width / 2,
                middle == wire_index + width / 2,
                wire_index + width <= usize::MAX,
                width % 2 == 0,
                upper@ == wire_range(wire_index, (wire_index + offset) as usize),
                lower@ == wire_range(middle, (middle + offset) as usize),
            decreases width / 2 - offset,
        {
            upper.push(wire_index + offset);
            lower.push(middle + offset);
            offset = offset + 1;
            assert(upper@ =~= wire_range(wire_index, (wire_index + offset) as usize));
            assert(lower@ =~= wire_range(middle, (middle + offset) as usize));
        }
        assert(upper@ + lower@ =~= wire_range(wire_index, (wire_index + width) as usize));
        let _ = merge_networks(upper, lower, &mut balancers);
        balancers
    }
}

/// The wires of `wires` go upwards.
pub open spec fn ascending(wires: Seq<usize>) -> bool {
    forall|a: int, b: int| 0 <= a < b < wires.len() ==> wires[a] < wires[b]
}

/// The wires of `wires` lie from `start` up to, but without, `end`.
pub open spec fn within(wires: Seq<usize>, start: int, end: int) -> bool {
    forall|k: int| 0 <= k < wires.len() ==> start <= #[trigger] wires[k] < end
}

/// Every balancer of `pairs` joins an upper wire with a lower one, both from
/// `start` up to, but without, `end`.
pub open spec fn ordered_pairs(pairs: Seq<Pair>, start: int, end: int) -> bool {
    forall|k: int|
        0 <= k < pairs.len() ==> start <= (#[trigger] pairs[k]).0 < pairs[k].1 < end
}

/// The wires of the two smaller merges go upwards where those of the merge
/// do, and stay among them.
pub proof fn lemma_merge_wires_ascend(wires: Seq<usize>, start: int, end: int)
    requires
        ascending(wires),
        within(wires, start, end),
    ensures
        ascending(first_merge_wires(wires)),
        within(first_merge_wires(wires), start, end),
        ascending(second_merge_wires(wires)),
        within(second_merge_wires(wires), start, end),
{
    let half = (wires.len() / 2) as int;
    let upper = upper_half(wires);
    let lower = lower_half(wires);
    let first = first_merge_wires(wires);
    let second = second_merge_wires(wires);
    let ue = even_places(upper);
    let uo = odd_places(upper);
    let le = even_places(lower);
    let lo = odd_places(lower);
    assert forall|k: int| 0 <= k < first.len() implies start <= #[trigger] first[k] < end by {
        if k < ue.len() {
            assert(first[k] == wires[2 * k]);
        } else {
            assert(first[k] == wires[half + 2 * (k - ue.len()) + 1]);
        }
    }
    assert forall|k: int| 0 <= k < second.len() implies start <= #[trigger] second[k] < end by {
        if k < uo.len() {
            assert(second[k] == wires[2 * k + 1]);
        } else {
            assert(second[k] == wires[half + 2 * (k - uo.len())]);
        }
    }
    assert forall|a: int, b: int| 0 <= a < b < first.len() implies first[a] < first[b] by {
        let pa = if a < ue.len() {
            2 * a
        } else {
            half + 2 * (a - ue.len()) + 1
        };
        let pb = if b < ue.len() {
            2 * b
        } else {
            half + 2 * (b - ue.len()) + 1
        };
        assert(first[a] == wires[pa]);
        assert(first[b] == wires[pb]);
        assert(0 <= pa < pb < wires.len());
    }
    assert forall|a: int, b: int| 0 <= a < b < second.len() implies second[a] < second[b] by {
        let pa = if a < uo.len() {
            2 * a + 1
        } else {
            half + 2 * (a - uo.len())
        };
        let pb = if b < uo.len() {
            2 * b + 1
        } else {
            half + 2 * (b - uo.len())
        };
        assert(second[a] == wires[pa]);
        assert(second[b] == wires[pb]);
        assert(0 <= pa < pb < wires.len());
    }
}

/// Every balancer of a merge over wires that go upwards has its upper wire
/// first, and both its wires are wires of the merge.
pub proof fn lemma_merge_schedule_ordered(wires: Seq<usize>, start: int, end: int)
    requires
        ascending(wires),
        within(wires, start, end),
    ensures
        ordered_pairs(merge_schedule(wires), start, end),
    decreases wires.len(),
{
    let last = neighbour_pairs(wires);
    assert(ordered_pairs(last, start, end)) by {
        assert forall|k: int| 0 <= k < last.len() implies start <= (#[trigger] last[k]).0
            < last[k].1 < end by {
            assert(last[k] == (wires[2 * k], wires[2 * k + 1]));
        }
    }
    if wires.len() > 2 {
        lemma_merge_wires_ascend(wires, start, end);
        lemma_merge_schedule_ordered(first_merge_wires(wires), start, end);
        lemma_merge_schedule_ordered(second_merge_wires(wires), start, end);
    }
}

/// Every balancer of a bitonic network has its upper wire first, and both
/// its wires are wires of the network.
pub proof fn lemma_bitonic_schedule_ordered(start: usize, end: usize)
    requires
        start <= end,
    ensures
        ordered_pairs(bitonic_schedule(start, end), start as int, end as int),
    decreases end - start,
{
    if end - start > 1 {
        let middle = (start + (end - start) / 2) as usize;
        lemma_bitonic_schedule_ordered(start, middle);
        lemma_bitonic_schedule_ordered(middle, end);
        lemma_merge_schedule_ordered(wire_range(start, end), start as int, end as int);
    }
}

/// The layers of a width: those of its half, and one for each halving.
pub proof fn lemma_layer_count_grows(width: nat)
    requires
        width >= 2,
    ensures
        log2_floor(width) == log2_floor(width / 2) + 1,
        layer_count(width) == layer_count(width / 2) + log2_floor(width),
{
    let d = log2_floor(width) as int;
    assert(d * (d + 1) == (d - 1) * d + 2 * d) by (nonlinear_arith);
}

/// A network of one wire has no layer, one of two wires has one.
pub proof fn lemma_layer_count_small()
    ensures
        log2_floor(1) == 0,
        log2_floor(2) == 1,
        layer_count(1) == 0,
        layer_count(2) == 1,
{
    assert(log2_floor(1) == 0);
    assert(log2_floor(2) == 1);
    let one = log2_floor(1) as int;
    let two = log2_floor(2) as int;
    assert(one * (one + 1) == 0) by (nonlinear_arith)
        requires
            one == 0,
    ;
    assert(two * (two + 1) == 2) by (nonlinear_arith)
        requires
            two == 1,
    ;
}

/// A merge over a power of two of wires has one balancer on each two wires
/// for each halving of their number.
pub proof fn lemma_merge_schedule_len(wires: Seq<usize>)
    requires
        is_power_of_two(wires.len()),
    ensures
        merge_schedule(wires).len() == (wires.len() / 2) * log2_floor(wires.len()),
    decreases wires.len(),
{
    let n = wires.len();
    let d = log2_floor(n) as int;
    lemma_layer_count_small();
    if n > 2 {
        lemma_power_of_two_halves(n);
        let first = first_merge_wires(wires);
        let second = second_merge_wires(wires);
        lemma_merge_schedule_len(first);
        lemma_merge_schedule_len(second);
        let quarter = (n / 4) as int;
        assert(first.len() == n / 2);
        assert(second.len() == n / 2);
        assert(first.len() / 2 == quarter);
        assert(log2_floor(n / 2) == d - 1);
        let of_first = merge_schedule(first).len() as int;
        let of_second = merge_schedule(second).len() as int;
        assert(of_first == quarter * (d - 1));
        assert(of_second == quarter * (d - 1));
        assert(neighbour_pairs(wires).len() == 2 * quarter);
        assert(merge_schedule(wires).len() == of_first + of_second + 2 * quarter);
        assert(of_first + of_second + 2 * quarter == (2 * quarter) * d) by (nonlinear_arith)
            requires
                of_first == quarter * (d - 1),
                of_second == quarter * (d - 1),
        ;
        assert(n / 2 == 2 * quarter);
    } else if n == 2 {
        assert(merge_schedule(wires).len() == 1);
        assert((n / 2) * log2_floor(n) == 1) by (nonlinear_arith)
            requires
                n / 2 == 1,
                log2_floor(n) == 1,
        ;
    } else {
        assert(merge_schedule(wires).len() == 0);
        assert((n / 2) * log2_floor(n) == 0) by (nonlinear_arith)
            requires
                n / 2 == 0,
        ;
    }
}

/// The number of balancers. A bitonic network on a power of two of wires
/// has one balancer on each two wires in each of its layers: half its width
/// times the number of its layers.
pub proof fn lemma_bitonic_schedule_len(start: usize, end: usize)
    requires
        start <= end,
        start == end || is_power_of_two((end - start) as nat),
    ensures
        bitonic_schedule(start, end).len() == ((end - start) / 2) * layer_count(
            (end - start) as nat,
        ),
    decreases end - start,
{
    let n = (end - start) as nat;
    lemma_layer_count_small();
    if n > 1 {
        lemma_power_of_two_halves(n);
        lemma_layer_count_grows(n);
        let middle = (start + (end - start) / 2) as usize;
        lemma_bitonic_schedule_len(start, middle);
        lemma_bitonic_schedule_len(middle, end);
        lemma_merge_schedule_len(wire_range(start, end));
        let d = log2_floor(n) as int;
        let below = layer_count(n / 2) as int;
        let half = (n / 2) as int;
        let upper = bitonic_schedule(start, middle).len() as int;
        let lower = bitonic_schedule(middle, end).len() as int;
        let merge = merge_schedule(wire_range(start, end)).len() as int;
        assert(middle - start == half);
        assert(end - middle == half);
        assert(upper == (half / 2) * below);
        assert(lower == (half / 2) * below);
        assert(merge == half * d);
        assert(bitonic_schedule(start, end).len() == upper + lower + merge);
        if n == 2 {
            assert(upper == 0) by (nonlinear_arith)
                requires
                    upper == (half / 2) * below,
                    half / 2 == 0,
            ;
            assert(upper + lower + merge == half * (below + d)) by (nonlinear_arith)
                requires
                    upper == 0,
                    lower == 0,
                    merge == half * d,
                    below == 0,
            ;
        } else {
            let quarter = (n / 4) as int;
            assert(half / 2 == quarter);
            assert(half == 2 * quarter);
            assert(upper + lower + merge == half * (below + d)) by (nonlinear_arith)
                requires
                    upper == quarter * below,
                    lower == quarter * below,
                    merge == half * d,
                    half == 2 * quarter,
            ;
        }
    } else {
        assert(((end - start) / 2) * layer_count(n) == 0) by (nonlinear_arith)
            requires
                (end - start) / 2 == 0,
        ;
    }
}

/// The number of balancers of `pairs` that sit on `wire`.
pub open spec fn occurrences(pairs: Seq<Pair>, wire: usize) -> nat
    decreases pairs.len(),
{
    if pairs.len() == 0 {
        0
    } else {
        occurrences(pairs.drop_last(), wire) + if pairs.last().0 == wire || pairs.last().1
            == wire {
            1nat
        } else {
            0nat
        }
    }
}

/// The balancers on a wire in two lists, one after the other.
pub proof fn lemma_occurrences_concat(first: Seq<Pair>, then: Seq<Pair>, wire: usize)
    ensures
        occurrences(first + then, wire) == occurrences(first, wire) + occurrences(then, wire),
    decreases then.len(),
{
    if then.len() == 0 {
        assert(first + then =~= first);
    } else {
        assert((first + then).drop_last() =~= first + then.drop_last());
        assert((first + then).last() == then.last());
        lemma_occurrences_concat(first, then.drop_last(), wire);
    }
}

/// Of the balancers on neighbouring wires, one sits on each wire of the
/// list, and none on any other wire.
pub proof fn lemma_neighbour_occurrences(wires: Seq<usize>, wire: usize)
    requires
        ascending(wires),
        wires.len() % 2 == 0,
    ensures
        occurrences(neighbour_pairs(wires), wire) == if wires.contains(wire) {
            1nat
        } else {
            0nat
        },
    decreases wires.len(),
{
    let n = wires.len() as int;
    if n > 0 {
        let fewer = wires.subrange(0, n - 2);
        let pairs = neighbour_pairs(wires);
        assert(pairs.drop_last() =~= neighbour_pairs(fewer));
        assert(pairs.last() == (wires[n - 2], wires[n - 1]));
        lemma_neighbour_occurrences(fewer, wire);
        if fewer.contains(wire) {
            let k = choose|k: int| 0 <= k < fewer.len() && fewer[k] == wire;
            assert(wires[k] == wire);
            assert(wires[k] < wires[n - 2]);
            assert(wires[k] < wires[n - 1]);
        } else if wires.contains(wire) {
            let k = choose|k: int| 0 <= k < wires.len() && wires[k] == wire;
            if k < n - 2 {
                assert(fewer[k] == wire);
            }
        } else {
            assert(wires[n - 2] != wire);
            assert(wires[n - 1] != wire);
        }
    }
}

/// Where the entries of the two selections of a merge come from.
pub proof fn lemma_merge_parts<T>(all: Seq<T>)
    requires
        all.len() % 4 == 0,
    ensures
        first_merge_wires(all).len() == all.len() / 2,
        second_merge_wires(all).len() == all.len() / 2,
        forall|q: int|
            0 <= q < all.len() / 4 ==> #[trigger] first_merge_wires(all)[q] == all[2 * q],
        forall|q: int|
            all.len() / 4 <= q < all.len() / 2 ==> #[trigger] first_merge_wires(all)[q]
                == all[all.len() / 2 + 2 * (q - all.len() / 4) + 1],
        forall|q: int|
            0 <= q < all.len() / 4 ==> #[trigger] second_merge_wires(all)[q] == all[2 * q + 1],
        forall|q: int|
            all.len() / 4 <= q < all.len() / 2 ==> #[trigger] second_merge_wires(all)[q]
                == all[all.len() / 2 + 2 * (q - all.len() / 4)],
{
}

/// A wire of a merge over wires that go upwards is a wire of exactly one of
/// its two smaller merges; no other wire is a wire of either.
pub proof fn lemma_merge_wires_split(wires: Seq<usize>, wire: usize)
    requires
        ascending(wires),
        wires.len() % 4 == 0,
    ensures
        wires.contains(wire) <==> first_merge_wires(wires).contains(wire)
            || second_merge_wires(wires).contains(wire),
        !(first_merge_wires(wires).contains(wire) && second_merge_wires(wires).contains(wire)),
{
    let half = (wires.len() / 2) as int;
    let quarter = (wires.len() / 4) as int;
    let first = first_merge_wires(wires);
    let second = second_merge_wires(wires);
    lemma_merge_parts(wires);
    if first.contains(wire) {
        let a = choose|a: int| 0 <= a < first.len() && first[a] == wire;
        let pa = if a < quarter {
            2 * a
        } else {
            half + 2 * (a - quarter) + 1
        };
        assert(first[a] == wires[pa]);
        assert(wires.contains(wire));
        if second.contains(wire) {
            let b = choose|b: int| 0 <= b < second.len() && second[b] == wire;
            let pb = if b < quarter {
                2 * b + 1
            } else {
                half + 2 * (b - quarter)
            };
            assert(second[b] == wires[pb]);
            assert(pa != pb) by {
                assert(pa % 2 == 0 <==> pa < half);
                assert(pb % 2 == 1 <==> pb < half);
            }
            if pa < pb {
                assert(wires[pa] < wires[pb]);
            } else {
                assert(wires[pb] < wires[pa]);
            }
        }
    } else if second.contains(wire) {
        let b = choose|b: int| 0 <= b < second.len() && second[b] == wire;
        let pb = if b < quarter {
            2 * b + 1
        } else {
            half + 2 * (b - quarter)
        };
        assert(second[b] == wires[pb]);
        assert(wires.contains(wire));
    } else if wires.contains(wire) {
        let p = choose|p: int| 0 <= p < wires.len() && wires[p] == wire;
        lemma_merge_parts_back(wires, p);
    }
}

/// Every wire of a merge is a wire of one of its two smaller merges.
proof fn lemma_merge_parts_back<T>(all: Seq<T>, p: int)
    requires
        all.len() % 4 == 0,
        0 <= p < all.len(),
    ensures
        first_merge_wires(all).contains(all[p]) || second_merge_wires(all).contains(all[p]),
{
    let half = (all.len() / 2) as int;
    let quarter = (all.len() / 4) as int;
    let first = first_merge_wires(all);
    let second = second_merge_wires(all);
    lemma_merge_parts(all);
    if p < half {
        let q = p / 2;
        if p % 2 == 0 {
            assert(first[q] == all[p]);
        } else {
            assert(second[q] == all[p]);
        }
    } else {
        let q = quarter + (p - half) / 2;
        if (p - half) % 2 == 0 {
            assert(second[q] == all[p]);
        } else {
            assert(first[q] == all[p]);
        }
    }
}

/// On every wire of a merge over a power of two of wires sits one balancer
/// for each halving of their number, and none on any other wire.
pub proof fn lemma_merge_occurrences(wires: Seq<usize>, wire: usize)
    requires
        ascending(wires),
        is_power_of_two(wires.len()),
    ensures
        occurrences(merge_schedule(wires), wire) == if wires.contains(wire) {
            log2_floor(wires.len())
        } else {
            0nat
        },
    decreases wires.len(),
{
    let n = wires.len();
    if n == 1 {
        assert(neighbour_pairs(wires) =~= Seq::<Pair>::empty());
    } else if n == 2 {
        lemma_neighbour_occurrences(wires, wire);
        lemma_layer_count_small();
    } else {
        lemma_power_of_two_halves(n);
        let first = first_merge_wires(wires);
        let second = second_merge_wires(wires);
        lemma_merge_wires_ascend(wires, 0, usize::MAX + 1);
        lemma_merge_wires_split(wires, wire);
        lemma_merge_occurrences(first, wire);
        lemma_merge_occurrences(second, wire);
        lemma_neighbour_occurrences(wires, wire);
        lemma_occurrences_concat(
            merge_schedule(first) + merge_schedule(second),
            neighbour_pairs(wires),
            wire,
        );
        lemma_occurrences_concat(merge_schedule(first), merge_schedule(second), wire);
    }
}

/// The depth. On every wire of a bitonic network sit as many balancers as
/// the network has layers, and none on any other wire.
pub proof fn lemma_bitonic_occurrences(start: usize, end: usize, wire: usize)
    requires
        start <= end,
        start == end || is_power_of_two((end - start) as nat),
    ensures
        occurrences(bitonic_schedule(start, end), wire) == if start <= wire < end {
            layer_count((end - start) as nat)
        } else {
            0nat
        },
    decreases end - start,
{
    let n = (end - start) as nat;
    if n > 1 {
        lemma_power_of_two_halves(n);
        lemma_layer_count_grows(n);
        let middle = (start + (end - start) / 2) as usize;
        let wires = wire_range(start, end);
        lemma_bitonic_occurrences(start, middle, wire);
        lemma_bitonic_occurrences(middle, end, wire);
        lemma_merge_occurrences(wires, wire);
        lemma_occurrences_concat(
            bitonic_schedule(start, middle) + bitonic_schedule(middle, end),
            merge_schedule(wires),
            wire,
        );
        lemma_occurrences_concat(
            bitonic_schedule(start, middle),
            bitonic_schedule(middle, end),
            wire,
        );
        if start <= wire < end {
            assert(wires[wire - start] == wire);
        } else if wires.contains(wire) {
            let k = choose|k: int| 0 <= k < wires.len() && wires[k] == wire;
            assert(false);
        }
    } else {
        lemma_layer_count_small();
        assert(layer_count(0) == 0) by {
            assert(log2_floor(0) == 0);
            let zero = log2_floor(0) as int;
            assert(zero * (zero + 1) == 0) by (nonlinear_arith)
                requires
                    zero == 0,
            ;
        }
    }
}

/// Every balancer of `pairs` stands equally deep on its two wires: as many
/// balancers come before it on the one wire as on the other.
pub open spec fn level(pairs: Seq<Pair>) -> bool {
    forall|k: int|
        0 <= k < pairs.len() ==> occurrences(pairs.take(k), (#[trigger] pairs[k]).0)
            == occurrences(pairs.take(k), pairs[k].1)
}

/// A balancer of a list sits on its two wires.
pub proof fn lemma_occurs(pairs: Seq<Pair>, k: int)
    requires
        0 <= k < pairs.len(),
    ensures
        occurrences(pairs, pairs[k].0) >= 1,
        occurrences(pairs, pairs[k].1) >= 1,
    decreases pairs.len(),
{
    if k < pairs.len() - 1 {
        lemma_occurs(pairs.drop_last(), k);
    }
}

/// Two lists of balancers that are level, one after the other, are level
/// when every balancer of the second finds equally many balancers of the
/// first on its two wires.
pub proof fn lemma_level_concat(first: Seq<Pair>, then: Seq<Pair>)
    requires
        level(first),
        level(then),
        forall|k: int|
            0 <= k < then.len() ==> occurrences(first, (#[trigger] then[k]).0) == occurrences(
                first,
                then[k].1,
            ),
    ensures
        level(first + then),
{
    let whole = first + then;
    assert forall|k: int| 0 <= k < whole.len() implies occurrences(
        whole.take(k),
        (#[trigger] whole[k]).0,
    ) == occurrences(whole.take(k), whole[k].1) by {
        if k < first.len() {
            assert(whole.take(k) =~= first.take(k));
            assert(whole[k] == first[k]);
        } else {
            let rest = k - first.len();
            assert(whole.take(k) =~= first + then.take(rest));
            assert(whole[k] == then[rest]);
            lemma_occurrences_concat(first, then.take(rest), then[rest].0);
            lemma_occurrences_concat(first, then.take(rest), then[rest].1);
        }
    }
}

/// The balancers on neighbouring wires are level: none of them shares a wire
/// with another.
pub proof fn lemma_neighbours_level(wires: Seq<usize>)
    requires
        ascending(wires),
        wires.len() % 2 == 0,
    ensures
        level(neighbour_pairs(wires)),
{
    let pairs = neighbour_pairs(wires);
    assert forall|k: int| 0 <= k < pairs.len() implies occurrences(
        pairs.take(k),
        (#[trigger] pairs[k]).0,
    ) == occurrences(pairs.take(k), pairs[k].1) by {
        let fewer = wires.take(2 * k);
        assert(pairs.take(k) =~= neighbour_pairs(fewer));
        lemma_neighbour_occurrences(fewer, wires[2 * k]);
        lemma_neighbour_occurrences(fewer, wires[2 * k + 1]);
        if fewer.contains(wires[2 * k]) {
            let p = choose|p: int| 0 <= p < fewer.len() && fewer[p] == wires[2 * k];
            assert(wires[p] < wires[2 * k]);
        }
        if fewer.contains(wires[2 * k + 1]) {
            let p = choose|p: int| 0 <= p < fewer.len() && fewer[p] == wires[2 * k + 1];
            assert(wires[p] < wires[2 * k + 1]);
        }
    }
}

/// The balancers of a merge are level, and they sit on wires of the merge.
pub proof fn lemma_merge_level(wires: Seq<usize>)
    requires
        ascending(wires),
        is_power_of_two(wires.len()),
    ensures
        level(merge_schedule(wires)),
        forall|k: int|
            0 <= k < merge_schedule(wires).len() ==> wires.contains(
                (#[trigger] merge_schedule(wires)[k]).0,
            ) && wires.contains(merge_schedule(wires)[k].1),
    decreases wires.len(),
{
    let n = wires.len();
    let whole = merge_schedule(wires);
    assert forall|k: int| 0 <= k < whole.len() implies wires.contains((#[trigger] whole[k]).0)
        && wires.contains(whole[k].1) by {
        lemma_occurs(whole, k);
        lemma_merge_occurrences(wires, whole[k].0);
        lemma_merge_occurrences(wires, whole[k].1);
    }
    if n == 1 {
        assert(neighbour_pairs(wires) =~= Seq::<Pair>::empty());
    } else if n == 2 {
        lemma_neighbours_level(wires);
    } else {
        lemma_power_of_two_halves(n);
        let first_wires = first_merge_wires(wires);
        let second_wires = second_merge_wires(wires);
        let first = merge_schedule(first_wires);
        let second = merge_schedule(second_wires);
        let last = neighbour_pairs(wires);
        lemma_merge_wires_ascend(wires, 0, usize::MAX + 1);
        lemma_merge_level(first_wires);
        lemma_merge_level(second_wires);
        lemma_neighbours_level(wires);
        assert forall|k: int| 0 <= k < second.len() implies occurrences(
            first,
            (#[trigger] second[k]).0,
        ) == occurrences(first, second[k].1) by {
            lemma_merge_wires_split(wires, second[k].0);
            lemma_merge_wires_split(wires, second[k].1);
            lemma_merge_occurrences(first_wires, second[k].0);
            lemma_merge_occurrences(first_wires, second[k].1);
        }
        lemma_level_concat(first, second);
        assert forall|k: int| 0 <= k < last.len() implies occurrences(
            first + second,
            (#[trigger] last[k]).0,
        ) == occurrences(first + second, last[k].1) by {
            let upper = wires[2 * k];
            let lower = wires[2 * k + 1];
            assert(last[k] == (upper, lower));
            assert(wires.contains(upper));
            assert(wires.contains(lower));
            lemma_merge_wires_split(wires, upper);
            lemma_merge_wires_split(wires, lower);
            lemma_merge_occurrences(first_wires, upper);
            lemma_merge_occurrences(first_wires, lower);
            lemma_merge_occurrences(second_wires, upper);
            lemma_merge_occurrences(second_wires, lower);
            lemma_occurrences_concat(first, second, upper);
            lemma_occurrences_concat(first, second, lower);
        }
        lemma_level_concat(first + second, last);
    }
}

/// The layers. Every balancer of a bitonic network stands equally deep on
/// its two wires: as many balancers come before it on the one wire as on
/// the other.
pub proof fn lemma_bitonic_level(start: usize, end: usize)
    requires
        start <= end,
        start == end || is_power_of_two((end - start) as nat),
    ensures
        level(bitonic_schedule(start, end)),
    decreases end - start,
{
    let n = (end - start) as nat;
    if n > 1 {
        lemma_power_of_two_halves(n);
        let middle = (start + (end - start) / 2) as usize;
        let wires = wire_range(start, end);
        let upper = bitonic_schedule(start, middle);
        let lower = bitonic_schedule(middle, end);
        let merge = merge_schedule(wires);
        lemma_bitonic_level(start, middle);
        lemma_bitonic_level(middle, end);
        lemma_merge_level(wires);
        lemma_bitonic_schedule_ordered(middle, end);
        assert forall|k: int| 0 <= k < lower.len() implies occurrences(
            upper,
            (#[trigger] lower[k]).0,
        ) == occurrences(upper, lower[k].1) by {
            lemma_bitonic_occurrences(start, middle, lower[k].0);
            lemma_bitonic_occurrences(start, middle, lower[k].1);
        }
        lemma_level_concat(upper, lower);
        lemma_merge_schedule_ordered(wires, start as int, end as int);
        assert forall|k: int| 0 <= k < merge.len() implies occurrences(
            upper + lower,
            (#[trigger] merge[k]).0,
        ) == occurrences(upper + lower, merge[k].1) by {
            lemma_bitonic_occurrences(start, middle, merge[k].0);
            lemma_bitonic_occurrences(start, middle, merge[k].1);
            lemma_bitonic_occurrences(middle, end, merge[k].0);
            lemma_bitonic_occurrences(middle, end, merge[k].1);
            lemma_occurrences_concat(upper, lower, merge[k].0);
            lemma_occurrences_concat(upper, lower, merge[k].1);
        }
        lemma_level_concat(upper + lower, merge);
    }
}

} // verus!
