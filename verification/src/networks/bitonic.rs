//! The bitonic network and the generator of its balancers.
use crate::networks::common::{
    exit_of, flipped_by, laying_order, lemma_laying_order_on_wires, lemma_wiring_shape, Network,
    NetworkConfiguration, NetworkError, NetworkView,
};
use crate::networks::schedule::{
    bitonic_schedule, even_places, first_merge_wires, lemma_bitonic_schedule_len,
    lemma_bitonic_schedule_ordered, lower_half, merge_schedule, neighbour_pairs, odd_places,
    second_merge_wires, upper_half, wire_range, Pair,
};
use crate::util::{
    is_power_of_two, layer_count, lemma_power_of_two_halves, num_layers, power_of_two,
};
use core::ops::Range;
use vstd::prelude::*;

verus! {

/// One unit of pending work of the generator.
#[derive(Debug, Clone, Copy)]
pub enum BitonicStep {
    /// Lay a bitonic network on the wires from the first number up to, but
    /// without, the second.
    Split(usize, usize),
    /// Lay a merge on the topmost wires of the wire stack, this many.
    Merge(usize),
    /// Emit this balancer.
    Output(usize, usize),
}

/// The balancers that a stack of steps stands for, the top of the stack
/// (its last entry) first. `wires` is the wire stack: each `Merge` takes its
/// wires from the top of it.
pub open spec fn pending(stack: Seq<BitonicStep>, wires: Seq<usize>) -> Seq<Pair>
    decreases stack.len(),
{
    if stack.len() == 0 {
        Seq::empty()
    } else {
        let below = stack.drop_last();
        match stack.last() {
            BitonicStep::Split(start, end) => bitonic_schedule(start, end) + pending(below, wires),
            BitonicStep::Merge(width) => merge_schedule(
                wires.subrange(wires.len() - width, wires.len() as int),
            ) + pending(below, wires.subrange(0, wires.len() - width)),
            BitonicStep::Output(upper, lower) => seq![(upper, lower)] + pending(below, wires),
        }
    }
}

/// A range of wires that a bitonic network can be laid on: empty, or a power
/// of two long.
pub open spec fn splittable(start: usize, end: usize) -> bool {
    start <= end && (end == start || is_power_of_two((end - start) as nat))
}

/// The stack of steps and the wire stack fit each other: every `Merge` finds
/// its wires, a power of two of them, and none is left over.
pub open spec fn well_stacked(stack: Seq<BitonicStep>, wires: Seq<usize>) -> bool
    decreases stack.len(),
{
    if stack.len() == 0 {
        wires.len() == 0
    } else {
        let below = stack.drop_last();
        match stack.last() {
            BitonicStep::Split(start, end) => splittable(start, end) && well_stacked(below, wires),
            BitonicStep::Merge(width) => width >= 2 && is_power_of_two(width as nat) && width
                <= wires.len() && well_stacked(below, wires.subrange(0, wires.len() - width)),
            BitonicStep::Output(_, _) => well_stacked(below, wires),
        }
    }
}

/// The number of steps that a merge of `width` wires takes.
pub open spec fn merge_work(width: nat) -> nat
    decreases width,
{
    if width <= 2 {
        1 + width / 2
    } else {
        1 + width / 2 + 2 * merge_work(width / 2)
    }
}

/// The number of steps that a bitonic network on `width` wires takes.
pub open spec fn split_work(width: nat) -> nat
    decreases width,
{
    if width <= 1 {
        1
    } else {
        1 + split_work(width / 2) + split_work((width - width / 2) as nat) + merge_work(width)
    }
}

/// The number of steps left until a stack is used up.
pub open spec fn work(stack: Seq<BitonicStep>) -> nat
    decreases stack.len(),
{
    if stack.len() == 0 {
        0
    } else {
        work(stack.drop_last()) + match stack.last() {
            BitonicStep::Split(start, end) => split_work((end - start) as nat),
            BitonicStep::Merge(width) => merge_work(width as nat),
            BitonicStep::Output(_, _) => 1,
        }
    }
}

/// The steps that emit `pairs` in their order: the first pair on top.
pub open spec fn output_steps(pairs: Seq<Pair>) -> Seq<BitonicStep> {
    Seq::new(
        pairs.len(),
        |t: int| BitonicStep::Output(pairs[pairs.len() - 1 - t].0, pairs[pairs.len() - 1 - t].1),
    )
}

/// Output steps on top of a stack emit their pairs and then leave the stack
/// as it was.
proof fn lemma_output_steps(stack: Seq<BitonicStep>, wires: Seq<usize>, pairs: Seq<Pair>)
    ensures
        pending(stack + output_steps(pairs), wires) == pairs + pending(stack, wires),
        well_stacked(stack + output_steps(pairs), wires) == well_stacked(stack, wires),
        work(stack + output_steps(pairs)) == work(stack) + pairs.len(),
    decreases pairs.len(),
{
    if pairs.len() == 0 {
        assert(stack + output_steps(pairs) =~= stack);
        assert(pairs + pending(stack, wires) =~= pending(stack, wires));
    } else {
        let whole = stack + output_steps(pairs);
        let rest = pairs.drop_first();
        assert(whole.last() == BitonicStep::Output(pairs[0].0, pairs[0].1));
        assert(whole.drop_last() =~= stack + output_steps(rest));
        lemma_output_steps(stack, wires, rest);
        assert(seq![pairs[0]] + (rest + pending(stack, wires)) =~= pairs + pending(stack, wires));
    }
}

/// The balancers of a bitonic network, ready to be generated.
#[derive(Debug, Clone, PartialEq, Eq)]
pub struct BitonicConfiguration(pub usize);

/// Generates the balancers of a bitonic network one at a time.
#[derive(Debug, Clone)]
pub struct BitonicConfigurationIter {
    stack: Vec<BitonicStep>,
    output_stack: Vec<usize>,
}

impl View for BitonicConfigurationIter {
    type V = Seq<Pair>;

    /// The balancers that are still to come, the next one first.
    closed spec fn view(&self) -> Seq<Pair> {
        pending(self.stack@, self.output_stack@)
    }
}

/// Removes `count` entries of `v`, beginning at `start`, and closes the gap.
fn remove_range(v: &mut Vec<usize>, start: usize, count: usize)
    requires
        start + count <= old(v).len(),
    ensures
        final(v)@ == old(v)@.subrange(0, start as int) + old(v)@.subrange(
            start + count,
            old(v).len() as int,
        ),
{
    let len: usize = v.len();
    let ghost before = v@;
    let mut k: usize = start;
    while k + count < len
        invariant
            start <= k,
            k + count <= len,
            start + count <= len,
            v.len() == len,
            before.len() == len,
            forall|t: int| 0 <= t < start ==> v@[t] == before[t],
            forall|t: int| start <= t < k ==> v@[t] == before[t + count],
            forall|t: int| k + count <= t < len ==> v@[t] == before[t],
        decreases len - k,
    {
        let moved: usize = v[k + count];
        v[k] = moved;
        k = k + 1;
    }
    v.truncate(len - count);
    assert(v@ =~= before.subrange(0, start as int) + before.subrange(start + count, len as int));
}

/// `grown` is `before` with every second of its entries appended, `count`
/// of them, beginning with the one at `from`.
pub open spec fn every_second_appended(
    before: Seq<usize>,
    grown: Seq<usize>,
    from: int,
    count: int,
) -> bool {
    &&& grown.len() == before.len() + count
    &&& forall|t: int| 0 <= t < before.len() ==> #[trigger] grown[t] == before[t]
    &&& forall|t: int|
        before.len() <= t < grown.len() ==> #[trigger] grown[t] == before[from + 2 * (t
            - before.len())]
}

/// Appends to `v` every second of its own entries, `count` of them,
/// beginning with the one at `from`.
fn push_every_second(v: &mut Vec<usize>, from: usize, count: usize)
    requires
        from + 2 * count <= old(v).len() + 1,
    ensures
        every_second_appended(old(v)@, final(v)@, from as int, count as int),
{
    let ghost before = v@;
    let mut q: usize = 0;
    while q < count
        invariant
            q <= count,
            from + 2 * count <= before.len() + 1,
            before.len() <= v.len(),
            every_second_appended(before, v@, from as int, q as int),
        decreases count - q,
    {
        let wire: usize = v[from + 2 * q];
        v.push(wire);
        q = q + 1;
    }
}

/// The four selections that a merge step appends to the wire stack are the
/// wires of its second and of its first smaller merge.
proof fn lemma_merge_wires(
    all: Seq<usize>,
    base: int,
    grown1: Seq<usize>,
    grown2: Seq<usize>,
    grown3: Seq<usize>,
    grown4: Seq<usize>,
)
    requires
        0 <= base <= all.len(),
        (all.len() - base) % 4 == 0,
        all.len() - base >= 4,
        every_second_appended(all, grown1, base + 1, (all.len() - base) / 4),
        every_second_appended(
            grown1,
            grown2,
            base + (all.len() - base) / 2,
            (all.len() - base) / 4,
        ),
        every_second_appended(grown2, grown3, base, (all.len() - base) / 4),
        every_second_appended(
            grown3,
            grown4,
            base + (all.len() - base) / 2 + 1,
            (all.len() - base) / 4,
        ),
    ensures
        grown4 == all + second_merge_wires(all.subrange(base, all.len() as int))
            + first_merge_wires(all.subrange(base, all.len() as int)),
{
    let wires = all.subrange(base, all.len() as int);
    let upper = upper_half(wires);
    let lower = lower_half(wires);
    assert(grown1 =~= all + odd_places(upper));
    assert(grown2 =~= all + odd_places(upper) + even_places(lower));
    assert(grown2 =~= all + second_merge_wires(wires));
    assert(grown3 =~= all + second_merge_wires(wires) + even_places(upper));
    assert(grown4 =~= all + second_merge_wires(wires) + even_places(upper) + odd_places(lower));
    assert(grown4 =~= all + second_merge_wires(wires) + first_merge_wires(wires));
}

/// What a merge step leaves behind stands for the merge that it replaced.
proof fn lemma_merge_step(
    below: Seq<BitonicStep>,
    rest: Seq<usize>,
    wires: Seq<usize>,
    stack: Seq<BitonicStep>,
    now: Seq<usize>,
)
    requires
        wires.len() >= 2,
        wires.len() <= usize::MAX,
        is_power_of_two(wires.len()),
        well_stacked(below, rest),
        wires.len() == 2 ==> stack == below + output_steps(neighbour_pairs(wires)) && now == rest,
        wires.len() > 2 ==> stack == (below + output_steps(neighbour_pairs(wires))).push(
            BitonicStep::Merge((wires.len() / 2) as usize),
        ).push(BitonicStep::Merge((wires.len() / 2) as usize)) && now == rest
            + second_merge_wires(wires) + first_merge_wires(wires),
    ensures
        well_stacked(stack, now),
        pending(stack, now) == merge_schedule(wires) + pending(below, rest),
        work(stack) + 1 == work(below) + merge_work(wires.len()),
{
    let pairs = neighbour_pairs(wires);
    let first = first_merge_wires(wires);
    let second = second_merge_wires(wires);
    let emitting = below + output_steps(pairs);
    lemma_output_steps(below, rest, pairs);
    lemma_power_of_two_halves(wires.len());
    if wires.len() > 2 {
        let half = (wires.len() / 2) as usize;
        let less_one = stack.drop_last();
        assert(less_one =~= emitting.push(BitonicStep::Merge(half)));
        assert(less_one.drop_last() =~= emitting);
        assert(first.len() == half);
        assert(second.len() == half);
        assert(now.subrange(now.len() - half, now.len() as int) =~= first);
        let lower_wires = now.subrange(0, now.len() - half);
        assert(lower_wires =~= rest + second);
        assert(lower_wires.subrange(lower_wires.len() - half, lower_wires.len() as int)
            =~= second);
        assert(lower_wires.subrange(0, lower_wires.len() - half) =~= rest);
        assert(pending(less_one, lower_wires) == merge_schedule(second) + pending(emitting, rest));
        assert(pending(stack, now) == merge_schedule(first) + pending(less_one, lower_wires));
        assert(pending(stack, now) =~= merge_schedule(wires) + pending(below, rest));
        assert(well_stacked(less_one, lower_wires));
        assert(work(less_one) == work(emitting) + merge_work(half as nat));
        assert(work(stack) == work(less_one) + merge_work(half as nat));
    }
}

impl NetworkConfiguration for BitonicConfiguration {
    /// There is a bitonic network for every power of two.
    open spec fn defined_for(width: usize) -> bool {
        is_power_of_two(width as nat)
    }

    open spec fn balancers_of(width: usize) -> Seq<Pair> {
        bitonic_schedule(0, width)
    }

    open spec fn spec_width(&self) -> usize {
        self.0
    }

    proof fn lemma_balancers_on_wires(width: usize) {
        lemma_bitonic_schedule_ordered(0, width);
    }

    fn accepts(width: usize) -> (yes: bool) {
        power_of_two(width)
    }

    fn from_width(width: usize) -> (config: Self) {
        BitonicConfiguration(width)
    }

    fn balancers(self) -> (pairs: Vec<Pair>) {
        self.into_iter().collect()
    }
}

impl BitonicConfiguration {
    /// The generator of the balancers of a bitonic network of this width.
    pub fn into_iter(self) -> (balancers: BitonicConfigurationIter)
        requires
            is_power_of_two(self.0 as nat),
        ensures
            balancers.wf(),
            balancers@ == bitonic_schedule(0, self.0),
    {
        let balancers = BitonicConfigurationIter {
            stack: vec![BitonicStep::Split(0, self.0)],
            output_stack: Vec::new(),
        };
        proof {
            let stack = balancers.stack@;
            assert(stack.len() == 1);
            assert(stack.last() == BitonicStep::Split(0, self.0));
            assert(stack.drop_last() =~= Seq::<BitonicStep>::empty());
            assert(pending(stack.drop_last(), balancers.output_stack@) =~= Seq::<Pair>::empty());
            assert(well_stacked(stack.drop_last(), balancers.output_stack@));
            assert(bitonic_schedule(0, self.0) + Seq::<Pair>::empty() =~= bitonic_schedule(
                0,
                self.0,
            ));
        }
        balancers
    }
}

impl BitonicConfigurationIter {
    /// The two stacks fit each other.
    pub closed spec fn wf(&self) -> bool {
        well_stacked(self.stack@, self.output_stack@)
    }

    /// The number of steps that the generator still has to take.
    pub closed spec fn steps_left(&self) -> nat {
        work(self.stack@)
    }

    /// Replaces a bitonic network on `wires` by its two halves and the merge
    /// that joins them.
    fn split(&mut self, wires: Range<usize>)
        requires
            old(self).wf(),
            splittable(wires.start, wires.end),
        ensures
            final(self).wf(),
            final(self)@ == bitonic_schedule(wires.start, wires.end) + old(self)@,
            final(self).steps_left() + 1 == old(self).steps_left() + split_work(
                (wires.end - wires.start) as nat,
            ),
    {
        let width: usize = wires.end - wires.start;
        let ghost below = self.stack@;
        let ghost rest = self.output_stack@;
        if width > 1 {
            let mut wire: usize = wires.start;
            while wire < wires.end
                invariant
                    wires.start <= wire <= wires.end,
                    self.stack@ == below,
                    self.output_stack@ == rest + wire_range(wires.start, wire),
                decreases wires.end - wire,
            {
                self.output_stack.push(wire);
                assert(wire_range(wires.start, (wire + 1) as usize) =~= wire_range(
                    wires.start,
                    wire,
                ).push(wire));
                wire = wire + 1;
            }
            // Push a merge with the expected number of wires
            self.stack.push(BitonicStep::Merge(width));

            let middle: usize = width / 2 + wires.start;
            // Continue splitting with half of wires going towards each
            self.stack.push(BitonicStep::Split(middle, wires.end));
            // This half will go first
            self.stack.push(BitonicStep::Split(wires.start, middle));
            proof {
                lemma_power_of_two_halves(width as nat);
                let all = self.output_stack@;
                let range = wire_range(wires.start, wires.end);
                let whole = self.stack@;
                let less_one = whole.drop_last();
                let less_two = less_one.drop_last();
                assert(less_one =~= below.push(BitonicStep::Merge(width)).push(
                    BitonicStep::Split(middle, wires.end),
                ));
                assert(less_two =~= below.push(BitonicStep::Merge(width)));
                assert(less_two.drop_last() =~= below);
                assert(all.subrange(all.len() - width, all.len() as int) =~= range);
                assert(all.subrange(0, all.len() - width) =~= rest);
                assert(pending(less_two, all) == merge_schedule(range) + pending(below, rest));
                assert(pending(less_one, all) == bitonic_schedule(middle, wires.end) + pending(less_two, all));
                assert(pending(whole, all) == bitonic_schedule(wires.start, middle) + pending(
                    less_one,
                    all,
                ));
                assert(pending(whole, all) =~= bitonic_schedule(wires.start, wires.end) + pending(
                    below,
                    rest,
                ));
                assert(well_stacked(less_two, all));
                assert(well_stacked(less_one, all));
                assert(work(less_two) == work(below) + merge_work(width as nat));
                assert(work(less_one) == work(less_two) + split_work((wires.end - middle) as nat));
                assert(work(whole) == work(less_one) + split_work((middle - wires.start) as nat));
            }
        } else {
            assert(bitonic_schedule(wires.start, wires.end) + self@ =~= self@);
        }
    }

    /// Replaces a merge of the topmost `width` wires by its two smaller
    /// merges and the balancers that follow them.
    fn merge(&mut self, width: usize)
        requires
            width >= 2,
            is_power_of_two(width as nat),
            width <= old(self).output_stack.len(),
            well_stacked(
                old(self).stack@,
                old(self).output_stack@.subrange(0, old(self).output_stack.len() - width),
            ),
        ensures
            final(self).wf(),
            final(self)@ == merge_schedule(
                old(self).output_stack@.subrange(
                    old(self).output_stack.len() - width,
                    old(self).output_stack.len() as int,
                ),
            ) + pending(
                old(self).stack@,
                old(self).output_stack@.subrange(0, old(self).output_stack.len() - width),
            ),
            final(self).steps_left() + 1 == work(old(self).stack@) + merge_work(width as nat),
    {
        let len: usize = self.output_stack.len();
        let base: usize = len - width;
        let ghost below = self.stack@;
        let ghost all = self.output_stack@;
        let ghost wires = all.subrange(base as int, len as int);
        let ghost rest = all.subrange(0, base as int);
        proof {
            lemma_power_of_two_halves(width as nat);
        }
        self.push_outputs(base, width / 2);

        if width > 2 {
            let half: usize = width / 2;
            let middle: usize = base + half;

            // The second merge goes into the stack first
            push_every_second(&mut self.output_stack, base + 1, half / 2);
            let ghost grown1 = self.output_stack@;
            push_every_second(&mut self.output_stack, middle, half / 2);
            let ghost grown2 = self.output_stack@;
            self.stack.push(BitonicStep::Merge(half));

            // The first merge will be processed first
            push_every_second(&mut self.output_stack, base, half / 2);
            let ghost grown3 = self.output_stack@;
            push_every_second(&mut self.output_stack, middle + 1, half / 2);
            self.stack.push(BitonicStep::Merge(half));
            proof {
                lemma_merge_wires(all, base as int, grown1, grown2, grown3, self.output_stack@);
            }
        }
        remove_range(&mut self.output_stack, base, width);
        proof {
            if width > 2 {
                assert(self.output_stack@ =~= rest + second_merge_wires(wires)
                    + first_merge_wires(wires));
            } else {
                assert(self.output_stack@ =~= rest);
            }
            lemma_merge_step(below, rest, wires, self.stack@, self.output_stack@);
        }
    }

    /// Puts on the step stack the balancers on the neighbouring wires of the
    /// wire stack from `base` upwards, `count` of them, the last one first,
    /// so that the first of them is on top.
    fn push_outputs(&mut self, base: usize, count: usize)
        requires
            base + 2 * count == old(self).output_stack.len(),
        ensures
            final(self).output_stack@ == old(self).output_stack@,
            final(self).stack@ == old(self).stack@ + output_steps(
                neighbour_pairs(
                    old(self).output_stack@.subrange(
                        base as int,
                        old(self).output_stack.len() as int,
                    ),
                ),
            ),
    {
        let ghost below = self.stack@;
        let ghost all = self.output_stack@;
        let ghost pairs = neighbour_pairs(all.subrange(base as int, all.len() as int));
        let mut k: usize = count;
        while k > 0
            invariant
                k <= count,
                base + 2 * count == all.len(),
                all.len() == self.output_stack.len(),
                self.output_stack@ == all,
                pairs == neighbour_pairs(all.subrange(base as int, all.len() as int)),
                self.stack@ == below + output_steps(pairs).subrange(0, count - k),
            decreases k,
        {
            k = k - 1;
            let upper: usize = self.output_stack[base + 2 * k];
            let lower: usize = self.output_stack[base + 2 * k + 1];
            self.stack.push(BitonicStep::Output(upper, lower));
            assert(self.stack@ =~= below + output_steps(pairs).subrange(0, count - k));
        }
        assert(self.stack@ =~= below + output_steps(pairs));
    }

    /// The next balancer, or `None` when all have been given.
    pub fn next(&mut self) -> (item: Option<Pair>)
        requires
            old(self).wf(),
        ensures
            final(self).wf(),
            match item {
                Some(pair) => old(self)@.len() > 0 && pair == old(self)@[0] && final(self)@
                    == old(self)@.drop_first(),
                None => old(self)@.len() == 0 && final(self)@.len() == 0,
            },
    {
        loop
            invariant
                self.wf(),
                self@ == old(self)@,
            decreases self.steps_left(),
        {
            match self.stack.pop() {
                None => {
                    return None;
                },
                Some(next_step) => {
                    match next_step {
                        BitonicStep::Split(start, end) => self.split(start..end),
                        BitonicStep::Merge(width) => self.merge(width),
                        BitonicStep::Output(upper, lower) => {
                            proof {
                                let pair = (upper, lower);
                                assert((seq![pair] + self@).drop_first() =~= self@);
                            }
                            return Some((upper, lower));
                        },
                    }
                },
            }
        }
    }

    /// All the balancers that are still to come, in their order.
    pub fn collect(self) -> (balancers: Vec<Pair>)
        requires
            self.wf(),
        ensures
            balancers@ == self@,
    {
        let mut source = self;
        let mut balancers: Vec<Pair> = Vec::new();
        loop
            invariant
                source.wf(),
                balancers@ + source@ == self@,
            decreases source@.len(),
        {
            match source.next() {
                None => {
                    assert(balancers@ + source@ =~= balancers@);
                    return balancers;
                },
                Some(pair) => {
                    let ghost before = balancers@;
                    balancers.push(pair);
                    assert(balancers@ + source@ =~= before + (seq![pair] + source@));
                },
            }
        }
    }
}

/// A bitonic network over outputs of type `L`.
///
/// The outputs are given in the order of the wires: for four wires,
///
/// ```text
/// x1 ─────╥────╥─────╥─── y1
/// x2 ─────╨────║──╥──╨─── y2
/// x3 ─────╥────║──╨──╥─── y3
/// x4 ─────╨────╨─────╨─── y4
/// ```
///
/// the outputs are `[y1, y2, y3, y4]`.
#[derive(Debug, Clone, PartialEq, Eq)]
pub struct BitonicNetwork<L>(Network<L, BitonicConfiguration>);

impl<L> View for BitonicNetwork<L> {
    type V = NetworkView<L>;

    closed spec fn view(&self) -> NetworkView<L> {
        self.0@
    }
}

impl<L> BitonicNetwork<L> {
    /// The number of wires.
    pub closed spec fn spec_width(&self) -> usize {
        self.0.spec_width()
    }

    /// The network is the bitonic network of its width, a power of two, with
    /// one output on each wire.
    pub open spec fn wf(&self) -> bool {
        &&& is_power_of_two(self.spec_width() as nat)
        &&& self@.wired(self.spec_width(), bitonic_schedule(0, self.spec_width()))
    }

    /// Builds the bitonic network over `outputs`. Their number must be a
    /// power of two.
    pub fn new(outputs: Vec<L>) -> (made: Result<Self, NetworkError>)
        ensures
            match made {
                Ok(network) => is_power_of_two(outputs.len() as nat) && network.wf()
                    && network.spec_width() == outputs.len() && network@.outputs == outputs@,
                Err(NetworkError::NoOutputs) => outputs.len() == 0,
                Err(NetworkError::UnsupportedWidth) => outputs.len() > 0 && !is_power_of_two(
                    outputs.len() as nat,
                ),
            },
    {
        match Network::new(outputs) {
            Ok(network) => Ok(BitonicNetwork(network)),
            Err(error) => Err(error),
        }
    }

    /// The number of wires.
    #[verifier::when_used_as_spec(spec_width)]
    pub fn width(&self) -> (width: usize)
        ensures
            width == self.spec_width(),
            self.wf(),
    {
        proof {
            use_type_invariant(&self.0);
        }
        self.0.width()
    }

    /// The number of layers: every token passes this many balancers.
    pub fn num_layers(&self) -> (layers: usize)
        ensures
            layers == layer_count(self.spec_width() as nat),
    {
        num_layers(self.0.width())
    }

    /// Walks a token through the network and gives the output that it
    /// reaches. `token` stands for the caller: it decides on which wire the
    /// token enters. Every balancer on the way is flipped.
    pub fn traverse(&self, token: u64) -> (output: &L)
        ensures
            self.wf(),
            self@.can_reach(token, *output),
    {
        proof {
            use_type_invariant(&self.0);
        }
        self.0.traverse(token)
    }

    /// The bits of a new network, one for each place of the arena: every
    /// balancer points to its upper wire.
    pub fn toggles_at_rest(&self) -> (toggles: Vec<bool>)
        ensures
            self.wf(),
            toggles@ == self@.at_rest(),
    {
        proof {
            use_type_invariant(&self.0);
        }
        self.0.toggles_at_rest()
    }

    /// Walks a token through the network as it goes when the bits of the
    /// balancers are `toggles`, one for each place of the arena, and flips in
    /// `toggles` the bits of the balancers that it passes. The balancers
    /// themselves are left as they are: this is the traversal of a network
    /// at rest, with its state in the hands of the caller.
    pub fn traverse_with(&self, token: u64, toggles: &mut Vec<bool>) -> (output: &L)
        requires
            old(toggles).len() == self@.segments.len(),
        ensures
            self.wf(),
            exit_of(self@.segments, old(toggles)@, self@.entries[self@.slot(token)])
                < self@.outputs.len(),
            *output == self@.outputs[exit_of(
                self@.segments,
                old(toggles)@,
                self@.entries[self@.slot(token)],
            ) as int],
            final(toggles)@ == flipped_by(
                self@.segments,
                old(toggles)@,
                self@.entries[self@.slot(token)],
            ),
            final(toggles).len() == old(toggles).len(),
    {
        proof {
            use_type_invariant(&self.0);
        }
        self.0.traverse_with(token, toggles)
    }

    /// The number of the output that such a token reaches; the bits of the
    /// balancers that it passes are flipped in `toggles`.
    pub fn exit_with(&self, token: u64, toggles: &mut Vec<bool>) -> (output: usize)
        requires
            old(toggles).len() == self@.segments.len(),
        ensures
            self.wf(),
            output < self@.outputs.len(),
            output == exit_of(self@.segments, old(toggles)@, self@.entries[self@.slot(token)]),
            final(toggles)@ == flipped_by(
                self@.segments,
                old(toggles)@,
                self@.entries[self@.slot(token)],
            ),
            final(toggles).len() == old(toggles).len(),
    {
        proof {
            use_type_invariant(&self.0);
        }
        self.0.exit_with(token, toggles)
    }

    /// The outputs, in the order in which they were given.
    pub fn outputs(&self) -> (outputs: &[L])
        ensures
            outputs@ == self@.outputs,
    {
        self.0.outputs()
    }
}

/// Building is repeatable. Two bitonic networks over the same outputs are
/// the same network: the same width, the same outputs, the same wiring, and
/// so the same output for every token after the same tokens.
pub proof fn lemma_same_outputs_same_network<L>(one: BitonicNetwork<L>, other: BitonicNetwork<L>)
    requires
        one.wf(),
        other.wf(),
        one@.outputs == other@.outputs,
    ensures
        one.spec_width() == other.spec_width(),
        one@ == other@,
        forall|earlier: Seq<u64>, token: u64|
            one@.exit_after(earlier, token) == other@.exit_after(earlier, token),
{
}

/// The size of the arena. A bitonic network holds one segment for each
/// output and one for each balancer: half its width in each layer.
pub proof fn lemma_segment_count<L>(network: BitonicNetwork<L>)
    requires
        network.wf(),
    ensures
        network@.segments.len() == network.spec_width() + (network.spec_width() / 2)
            * layer_count(network.spec_width() as nat),
        network@.entries.len() == network.spec_width(),
{
    let width = network.spec_width();
    lemma_bitonic_schedule_len(0, width);
    lemma_laying_order_on_wires(width, bitonic_schedule(0, width));
    lemma_wiring_shape(width, laying_order(bitonic_schedule(0, width)));
}

} // verus!
