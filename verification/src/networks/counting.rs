//! Why a bitonic network counts.
//!
//! The balancers of a merge touch only the wires of the merge, and what they
//! make of the numbers of tokens on them does not depend on where these
//! wires lie among the others. So the numbers of tokens that leave a bitonic
//! network follow from the numbers that enter it, and they have the step
//! property whatever the wires on which the tokens entered.
use crate::networks::common::{
    descending, exit_of, laying_order, leads_to, lemma_laying_order_on_wires,
    lemma_wiring_shape, NetworkView, Node,
};
use crate::networks::flows::{
    balanced_pairs, bitonic_flow, is_step, lemma_bitonic_counts,
    lemma_share_falls, lemma_share_next, lemma_total_grows, merge_flow, step_counts, total,
    weave,
};
use crate::networks::schedule::{
    ascending, bitonic_schedule, first_merge_wires, lemma_bitonic_schedule_ordered,
    lemma_merge_parts, lemma_merge_wires_ascend, lemma_merge_wires_split, lower_half,
    merge_schedule,
    neighbour_pairs, second_merge_wires, upper_half, wire_range, within, Pair,
};
use crate::networks::tokens::{
    balance, lemma_arrivals_follow_entries, lemma_through_concat, no_tokens, proper, through,
};
use crate::util::{is_power_of_two, lemma_power_of_two_halves};
use vstd::prelude::*;

verus! {

/// The numbers of tokens on the wires of `wires`, in the order of that list.
pub open spec fn gather(counts: Seq<int>, wires: Seq<usize>) -> Seq<int> {
    Seq::new(wires.len(), |k: int| counts[wires[k] as int])
}

/// `after` has on every wire that is not in `wires` what `before` has.
pub open spec fn untouched(before: Seq<int>, after: Seq<int>, wires: Seq<usize>) -> bool {
    &&& after.len() == before.len()
    &&& forall|wire: int|
        0 <= wire < before.len() && !wires.contains(wire as usize) ==> #[trigger] after[wire]
            == before[wire]
}

/// The balancers on neighbouring wires of a list balance each two
/// neighbours and touch no other wire.
pub proof fn lemma_neighbour_flow(wires: Seq<usize>, counts: Seq<int>)
    requires
        ascending(wires),
        within(wires, 0, counts.len() as int),
        wires.len() % 2 == 0,
    ensures
        untouched(counts, through(neighbour_pairs(wires), counts), wires),
        gather(through(neighbour_pairs(wires), counts), wires) == balanced_pairs(
            gather(counts, wires),
        ),
    decreases wires.len(),
{
    let n = wires.len() as int;
    let pairs = neighbour_pairs(wires);
    let after = through(pairs, counts);
    if n == 0 {
        assert(gather(after, wires) =~= balanced_pairs(gather(counts, wires)));
    } else {
        let fewer = wires.subrange(2, n);
        let upper = wires[0];
        let lower = wires[1];
        assert(pairs.drop_first() =~= neighbour_pairs(fewer));
        assert(pairs.first() == (upper, lower));
        let balanced = balance(counts, (upper, lower));
        assert(ascending(fewer)) by {
            assert forall|a: int, b: int| 0 <= a < b < fewer.len() implies fewer[a]
                < fewer[b] by {
                assert(fewer[a] == wires[a + 2]);
                assert(fewer[b] == wires[b + 2]);
            }
        }
        assert(within(fewer, 0, counts.len() as int)) by {
            assert forall|k: int| 0 <= k < fewer.len() implies 0 <= #[trigger] fewer[k]
                < counts.len() by {
                assert(fewer[k] == wires[k + 2]);
            }
        }
        lemma_neighbour_flow(fewer, balanced);
        assert(!fewer.contains(upper)) by {
            if fewer.contains(upper) {
                let k = choose|k: int| 0 <= k < fewer.len() && fewer[k] == upper;
                assert(wires[0] < wires[k + 2]);
            }
        }
        assert(!fewer.contains(lower)) by {
            if fewer.contains(lower) {
                let k = choose|k: int| 0 <= k < fewer.len() && fewer[k] == lower;
                assert(wires[1] < wires[k + 2]);
            }
        }
        assert(upper < lower);
        assert(gather(balanced, fewer) =~= gather(counts, fewer)) by {
            assert forall|k: int| 0 <= k < fewer.len() implies balanced[fewer[k] as int]
                == counts[fewer[k] as int] by {
                assert(wires[0] < wires[k + 2]);
                assert(wires[1] < wires[k + 2]);
            }
        }
        assert forall|k: int| 0 <= k < n implies gather(after, wires)[k] == balanced_pairs(
            gather(counts, wires),
        )[k] by {
            if k >= 2 {
                assert(gather(after, wires)[k] == gather(after, fewer)[k - 2]);
                assert(balanced_pairs(gather(counts, fewer))[k - 2] == balanced_pairs(
                    gather(counts, wires),
                )[k]) by {
                    if k % 2 == 0 {
                        assert(fewer[k - 2 + 1] == wires[k + 1]);
                        assert(fewer[k - 2] == wires[k]);
                    } else {
                        assert(fewer[k - 2 - 1] == wires[k - 1]);
                        assert(fewer[k - 2] == wires[k]);
                    }
                }
            } else {
                assert(after[wires[k] as int] == balanced[wires[k] as int]);
            }
        }
        assert(gather(after, wires) =~= balanced_pairs(gather(counts, wires)));
        assert forall|wire: int|
            0 <= wire < counts.len() && !wires.contains(wire as usize) implies #[trigger] after[wire]
                == counts[wire] by {
            assert(!fewer.contains(wire as usize)) by {
                if fewer.contains(wire as usize) {
                    let k = choose|k: int| 0 <= k < fewer.len() && fewer[k] == wire as usize;
                    assert(wires[k + 2] == wire as usize);
                }
            }
            assert(wires[0] != wire as usize);
            assert(wires[1] != wire as usize);
        }
    }
}

/// The wires of the two smaller merges of a merge over wires that go
/// upwards are wires of the merge, and no wire is in both.
proof fn lemma_parts_apart(wires: Seq<usize>)
    requires
        ascending(wires),
        wires.len() % 4 == 0,
    ensures
        forall|wire: usize| #[trigger]
            first_merge_wires(wires).contains(wire) ==> wires.contains(wire)
                && !second_merge_wires(wires).contains(wire),
        forall|wire: usize| #[trigger]
            second_merge_wires(wires).contains(wire) ==> wires.contains(wire)
                && !first_merge_wires(wires).contains(wire),
{
    assert forall|wire: usize| #[trigger]
        first_merge_wires(wires).contains(wire) implies wires.contains(wire)
        && !second_merge_wires(wires).contains(wire) by {
        lemma_merge_wires_split(wires, wire);
    }
    assert forall|wire: usize| #[trigger]
        second_merge_wires(wires).contains(wire) implies wires.contains(wire)
        && !first_merge_wires(wires).contains(wire) by {
        lemma_merge_wires_split(wires, wire);
    }
}

/// Selecting the wires of a smaller merge and then reading the numbers on
/// them is reading the numbers and then selecting.
proof fn lemma_gather_parts(wires: Seq<usize>, counts: Seq<int>)
    requires
        wires.len() % 4 == 0,
    ensures
        gather(counts, first_merge_wires(wires)) == first_merge_wires(gather(counts, wires)),
        gather(counts, second_merge_wires(wires)) == second_merge_wires(gather(counts, wires)),
{
    let here = gather(counts, wires);
    lemma_merge_parts(wires);
    lemma_merge_parts(here);
    assert(gather(counts, first_merge_wires(wires)) =~= first_merge_wires(here));
    assert(gather(counts, second_merge_wires(wires)) =~= second_merge_wires(here));
}

/// The two smaller merges of a merge work side by side: what they leave on
/// the wires of the merge is woven from what each leaves on its own wires.
proof fn lemma_merge_assemble(
    wires: Seq<usize>,
    counts: Seq<int>,
    halfway: Seq<int>,
    done: Seq<int>,
)
    requires
        ascending(wires),
        within(wires, 0, counts.len() as int),
        wires.len() % 4 == 0,
        untouched(counts, halfway, first_merge_wires(wires)),
        untouched(halfway, done, second_merge_wires(wires)),
    ensures
        gather(halfway, second_merge_wires(wires)) == gather(counts, second_merge_wires(wires)),
        gather(done, wires) == weave(
            gather(halfway, first_merge_wires(wires)),
            gather(done, second_merge_wires(wires)),
        ),
        untouched(counts, done, wires),
{
    let n = wires.len() as int;
    let half = n / 2;
    let quarter = n / 4;
    let first = first_merge_wires(wires);
    let second = second_merge_wires(wires);
    lemma_merge_parts(wires);
    lemma_parts_apart(wires);
    lemma_merge_wires_ascend(wires, 0, counts.len() as int);
    assert forall|q: int| 0 <= q < half implies gather(halfway, second)[q] == gather(
        counts,
        second,
    )[q] by {
        assert(second.contains(second[q]));
    }
    assert(gather(halfway, second) =~= gather(counts, second));
    let woven = weave(gather(halfway, first), gather(done, second));
    assert forall|v: int| 0 <= v < n implies gather(done, wires)[v] == woven[v] by {
        if v < half {
            let q = v / 2;
            if v % 2 == 0 {
                assert(first[q] == wires[v]);
                assert(first.contains(first[q]));
            } else {
                assert(second[q] == wires[v]);
            }
        } else {
            let q = quarter + (v - half) / 2;
            if (v - half) % 2 == 0 {
                assert(second[q] == wires[v]);
            } else {
                assert(first[q] == wires[v]);
                assert(first.contains(first[q]));
            }
        }
    }
    assert(gather(done, wires) =~= woven);
    assert forall|wire: int|
        0 <= wire < counts.len() && !wires.contains(wire as usize) implies #[trigger] done[wire]
            == counts[wire] by {
        assert(!first.contains(wire as usize));
        assert(!second.contains(wire as usize));
        assert(done[wire] == halfway[wire]);
    }
}

/// What the balancers of a merge make of the numbers of tokens on all the
/// wires: on the wires of the merge, what the merge makes of the numbers on
/// its wires; on the other wires, nothing.
pub proof fn lemma_merge_is_local(wires: Seq<usize>, counts: Seq<int>)
    requires
        ascending(wires),
        within(wires, 0, counts.len() as int),
        is_power_of_two(wires.len()),
    ensures
        untouched(counts, through(merge_schedule(wires), counts), wires),
        gather(through(merge_schedule(wires), counts), wires) == merge_flow(
            gather(counts, wires),
        ),
    decreases wires.len(),
{
    let n = wires.len() as int;
    if n == 1 {
        assert(neighbour_pairs(wires) =~= Seq::<Pair>::empty());
    } else if n == 2 {
        lemma_neighbour_flow(wires, counts);
    } else {
        lemma_power_of_two_halves(wires.len());
        let first = first_merge_wires(wires);
        let second = second_merge_wires(wires);
        let last = neighbour_pairs(wires);
        lemma_merge_wires_ascend(wires, 0, counts.len() as int);
        lemma_merge_parts(wires);
        // the tokens meet the first of the smaller merges, then the second,
        // then the balancers on neighbouring wires
        lemma_through_concat(merge_schedule(first) + merge_schedule(second), last, counts);
        lemma_through_concat(merge_schedule(first), merge_schedule(second), counts);
        let halfway = through(merge_schedule(first), counts);
        let merged = through(merge_schedule(second), halfway);
        let done = through(last, merged);
        assert(through(merge_schedule(wires), counts) == done);
        lemma_merge_is_local(first, counts);
        lemma_merge_is_local(second, halfway);
        lemma_merge_assemble(wires, counts, halfway, merged);
        lemma_gather_parts(wires, counts);
        assert(within(wires, 0, merged.len() as int));
        lemma_neighbour_flow(wires, merged);
        assert forall|wire: int|
            0 <= wire < counts.len() && !wires.contains(wire as usize) implies #[trigger] done[wire]
                == counts[wire] by {
            assert(done[wire] == merged[wire]);
        }
    }
}

/// The wires of a range are the numbers of the range.
proof fn lemma_wire_range(start: usize, end: usize)
    requires
        start <= end,
    ensures
        ascending(wire_range(start, end)),
        within(wire_range(start, end), start as int, end as int),
        forall|wire: usize| #[trigger]
            wire_range(start, end).contains(wire) <==> start <= wire < end,
{
    let wires = wire_range(start, end);
    assert forall|wire: usize| start <= wire < end implies #[trigger] wires.contains(wire) by {
        assert(wires[wire - start] == wire);
    }
}

/// What the balancers of a merge over a range of wires make of the numbers
/// of tokens on all the wires.
proof fn lemma_merge_on_range(start: usize, end: usize, counts: Seq<int>)
    requires
        start < end <= counts.len() <= usize::MAX,
        is_power_of_two((end - start) as nat),
    ensures
        through(merge_schedule(wire_range(start, end)), counts).len() == counts.len(),
        through(merge_schedule(wire_range(start, end)), counts).subrange(
            start as int,
            end as int,
        ) == merge_flow(counts.subrange(start as int, end as int)),
        forall|wire: int|
            0 <= wire < counts.len() && !(start <= wire < end) ==> #[trigger] through(
                merge_schedule(wire_range(start, end)),
                counts,
            )[wire] == counts[wire],
{
    let wires = wire_range(start, end);
    let merged = through(merge_schedule(wires), counts);
    lemma_wire_range(start, end);
    assert(within(wires, 0, counts.len() as int));
    lemma_merge_is_local(wires, counts);
    assert(gather(counts, wires) =~= counts.subrange(start as int, end as int));
    assert(gather(merged, wires) =~= merged.subrange(start as int, end as int));
    assert forall|wire: int|
        0 <= wire < counts.len() && !(start <= wire < end) implies #[trigger] merged[wire]
            == counts[wire] by {
        assert(!wires.contains(wire as usize));
    }
}

/// What the balancers of a bitonic network on the wires from `start` up to
/// `end` make of the numbers of tokens on all the wires: on its own wires,
/// what a bitonic network makes of the numbers on them; on the other wires,
/// nothing.
pub proof fn lemma_bitonic_is_local(start: usize, end: usize, counts: Seq<int>)
    requires
        start <= end <= counts.len() <= usize::MAX,
        start == end || is_power_of_two((end - start) as nat),
    ensures
        through(bitonic_schedule(start, end), counts).len() == counts.len(),
        through(bitonic_schedule(start, end), counts).subrange(start as int, end as int)
            == bitonic_flow(counts.subrange(start as int, end as int)),
        forall|wire: int|
            0 <= wire < counts.len() && !(start <= wire < end) ==> #[trigger] through(
                bitonic_schedule(start, end),
                counts,
            )[wire] == counts[wire],
    decreases end - start,
{
    let n = end - start;
    if n <= 1 {
    } else {
        lemma_power_of_two_halves(n as nat);
        let middle = (start + n / 2) as usize;
        let wires = wire_range(start, end);
        let upper = bitonic_schedule(start, middle);
        let lower = bitonic_schedule(middle, end);
        // the tokens meet the two halves first and the merge last
        lemma_through_concat(upper + lower, merge_schedule(wires), counts);
        lemma_through_concat(upper, lower, counts);
        let halfway = through(upper, counts);
        let halves = through(lower, halfway);
        let done = through(merge_schedule(wires), halves);
        assert(through(bitonic_schedule(start, end), counts) == done);
        lemma_bitonic_is_local(start, middle, counts);
        lemma_bitonic_is_local(middle, end, halfway);
        lemma_merge_on_range(start, end, halves);
        lemma_halves_assemble(start, middle, end, counts, halfway, halves);
    }
}

/// The two halves of a bitonic network work side by side.
proof fn lemma_halves_assemble(
    start: usize,
    middle: usize,
    end: usize,
    counts: Seq<int>,
    halfway: Seq<int>,
    halves: Seq<int>,
)
    requires
        start <= middle <= end <= counts.len(),
        middle - start == end - middle,
        halfway.len() == counts.len(),
        halves.len() == counts.len(),
        forall|wire: int|
            0 <= wire < counts.len() && !(start <= wire < middle) ==> #[trigger] halfway[wire]
                == counts[wire],
        forall|wire: int|
            0 <= wire < counts.len() && !(middle <= wire < end) ==> #[trigger] halves[wire]
                == halfway[wire],
    ensures
        counts.subrange(start as int, middle as int) == upper_half(
            counts.subrange(start as int, end as int),
        ),
        halfway.subrange(middle as int, end as int) == lower_half(
            counts.subrange(start as int, end as int),
        ),
        halves.subrange(start as int, end as int) == halfway.subrange(start as int, middle as int)
            + halves.subrange(middle as int, end as int),
        forall|wire: int|
            0 <= wire < counts.len() && !(start <= wire < end) ==> #[trigger] halves[wire]
                == counts[wire],
{
    let here = counts.subrange(start as int, end as int);
    assert(counts.subrange(start as int, middle as int) =~= upper_half(here));
    assert(halfway.subrange(middle as int, end as int) =~= lower_half(here));
    assert(halves.subrange(start as int, end as int) =~= halfway.subrange(
        start as int,
        middle as int,
    ) + halves.subrange(middle as int, end as int));
    assert forall|wire: int|
        0 <= wire < counts.len() && !(start <= wire < end) implies #[trigger] halves[wire]
            == counts[wire] by {
        assert(halves[wire] == halfway[wire]);
    }
}

/// What the balancers of a bitonic network make of the numbers of tokens on
/// its wires.
pub proof fn lemma_bitonic_through(width: usize, counts: Seq<int>)
    requires
        is_power_of_two(width as nat),
        counts.len() == width,
    ensures
        through(bitonic_schedule(0, width), counts) == bitonic_flow(counts),
{
    lemma_bitonic_is_local(0, width, counts);
    let after = through(bitonic_schedule(0, width), counts);
    assert(counts.subrange(0, width as int) =~= counts);
    assert(after.subrange(0, width as int) =~= after);
}

/// As many tokens have entered on the wires as there are tokens.
proof fn lemma_entered_total<L>(network: NetworkView<L>, tokens: Seq<u64>)
    requires
        network.outputs.len() > 0,
    ensures
        network.entered(tokens).len() == network.outputs.len(),
        total(network.entered(tokens)) == tokens.len(),
    decreases tokens.len(),
{
    let width = network.outputs.len() as int;
    if tokens.len() == 0 {
        lemma_total_of_none(width);
    } else {
        lemma_entered_total(network, tokens.drop_last());
        let wire = network.slot(tokens.last());
        assert(0 <= wire < width) by (nonlinear_arith)
            requires
                wire == tokens.last() as int % width,
                width > 0,
        ;
        lemma_total_grows(network.entered(tokens.drop_last()), wire);
    }
}

/// No tokens on the wires are no tokens in all.
proof fn lemma_total_of_none(width: int)
    requires
        width >= 0,
    ensures
        total(no_tokens(width)) == 0,
    decreases width,
{
    if width > 0 {
        assert(no_tokens(width).drop_last() =~= no_tokens(width - 1));
        lemma_total_of_none(width - 1);
    }
}

/// The step property. When tokens pass a bitonic network one after the
/// other, on whatever wires they enter, the numbers of tokens that have
/// reached the outputs fall from output to output, by one at most in all:
/// the token numbered `n`, counting from zero, reaches output `n % width`.
pub proof fn lemma_step_property<L>(network: NetworkView<L>, width: usize, tokens: Seq<u64>)
    requires
        is_power_of_two(width as nat),
        network.wired(width, bitonic_schedule(0, width)),
    ensures
        network.arrivals(tokens) == step_counts(width as int, tokens.len() as int),
        is_step(network.arrivals(tokens)),
        forall|i: int, j: int|
            0 <= i < j < width ==> 0 <= #[trigger] network.arrivals(tokens)[i]
                - #[trigger] network.arrivals(tokens)[j] <= 1,
        forall|n: int|
            0 <= n < tokens.len() ==> #[trigger] network.exit_after(tokens.take(n), tokens[n]) == n
                % (width as int),
    decreases tokens.len(),
{
    let schedule = bitonic_schedule(0, width);
    let steps = step_counts(width as int, tokens.len() as int);
    lemma_bitonic_schedule_ordered(0, width);
    assert(proper(schedule));
    lemma_arrivals_follow_entries(network, width, schedule, tokens);
    lemma_entered_total(network, tokens);
    lemma_bitonic_through(width, network.entered(tokens));
    lemma_bitonic_counts(network.entered(tokens));
    assert(is_step(steps)) by {
        assert forall|a: int, b: int| 0 <= a < b < steps.len() implies (#[trigger] steps[b]) <= (
        #[trigger] steps[a]) && steps[a] <= steps[b] + 1 by {
            lemma_share_falls(width as int, tokens.len() as int, a, b);
        }
    }
    assert forall|n: int| 0 <= n < tokens.len() implies #[trigger] network.exit_after(
        tokens.take(n),
        tokens[n],
    ) == n % (width as int) by {
        let earlier = tokens.take(n);
        let upto = tokens.take(n + 1);
        assert(upto.drop_last() =~= earlier);
        assert(upto.last() == tokens[n]);
        if n + 1 < tokens.len() {
            lemma_step_property(network, width, upto);
        } else {
            assert(upto =~= tokens);
        }
        lemma_step_property(network, width, earlier);
        lemma_arrivals_follow_entries(network, width, schedule, earlier);
        let output = network.exit_after(earlier, tokens[n]) as int;
        assert(0 <= output < width);
        assert(network.arrivals(upto)[output] == network.arrivals(earlier)[output] + 1);
        lemma_share_next(width as int, n, output);
    }
}

/// The output that a token reaches is one that its way leads to.
pub proof fn lemma_exit_is_reachable(
    width: usize,
    segments: Seq<Node>,
    toggles: Seq<bool>,
    from: usize,
)
    requires
        descending(width, segments),
        from < segments.len(),
    ensures
        leads_to(segments, from, exit_of(segments, toggles, from)),
    decreases from,
{
    match segments[from as int] {
        Node::Exit { output } => {},
        Node::Fork { upper, lower } => {
            lemma_exit_is_reachable(
                width,
                segments,
                toggles,
                if toggles[from as int] {
                    lower
                } else {
                    upper
                },
            );
        },
    }
}

/// Every output of a bitonic network can be reached from every wire.
pub proof fn lemma_every_output_reachable<L>(
    network: NetworkView<L>,
    width: usize,
    wire: usize,
    output: usize,
)
    requires
        is_power_of_two(width as nat),
        network.wired(width, bitonic_schedule(0, width)),
        wire < width,
        output < width,
    ensures
        leads_to(network.segments, network.entries[wire as int], output),
{
    let token = wire as u64;
    let tokens = Seq::new((output + 1) as nat, |n: int| token);
    assert(network.slot(token) == wire) by {
        vstd::arithmetic::div_mod::lemma_small_mod(wire as nat, width as nat);
    }
    lemma_step_property(network, width, tokens);
    let earlier = tokens.take(output as int);
    assert(tokens[output as int] == token);
    assert(network.exit_after(earlier, token) == output as int % (width as int));
    vstd::arithmetic::div_mod::lemma_small_mod(output as nat, width as nat);
    lemma_laying_order_on_wires(width, bitonic_schedule(0, width));
    lemma_wiring_shape(width, laying_order(bitonic_schedule(0, width)));
    lemma_exit_is_reachable(
        width,
        network.segments,
        network.toggles_after(earlier),
        network.entries[wire as int],
    );
}

} // verus!
