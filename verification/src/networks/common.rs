//! Networks of balancers: how one is wired from a list of balancers, and how
//! a token finds its way through it.
use crate::networks::schedule::Pair;
use core::marker::PhantomData;
use core::sync::atomic::{AtomicBool, Ordering};
use vstd::prelude::*;
use vstd::std_specs::cmp::PartialEqSpec;

verus! {

/// A piece of wire, without the state of its balancer: where a token that
/// has reached it can go next.
pub enum Node {
    /// A balancer. `upper` and `lower` are the places in the arena of the
    /// segments that follow on its two wires.
    Fork { upper: usize, lower: usize },
    /// The end of a wire: the output with this number.
    Exit { output: usize },
}

/// The balancers of `schedule` in the order in which they are laid. A
/// network is laid from its outputs towards its inputs, each balancer in
/// front of what is there, so the balancer that a token meets last is laid
/// first: the list from its last entry to its first.
pub open spec fn laying_order(schedule: Seq<Pair>) -> Seq<Pair> {
    Seq::new(schedule.len(), |k: int| schedule[schedule.len() - 1 - k])
}

/// The entry of each wire into a network of `width` wires on which the
/// balancers of `schedule` have been laid one after the other, the first of
/// the list first, each in front of what was there: the place in the arena
/// of the first segment that a token on the wire meets.
pub open spec fn entries(width: usize, schedule: Seq<Pair>) -> Seq<usize>
    decreases schedule.len(),
{
    if schedule.len() == 0 {
        Seq::new(width as nat, |wire: int| wire as usize)
    } else {
        let laid = (width + schedule.len() - 1) as usize;
        entries(width, schedule.drop_last()).update(schedule.last().0 as int, laid).update(
            schedule.last().1 as int,
            laid,
        )
    }
}

/// The arena of such a network: first the outputs, one for each wire, then
/// one balancer for each pair of `schedule`, in its order. A balancer leads
/// to what its two wires began with before it was laid.
pub open spec fn arena(width: usize, schedule: Seq<Pair>) -> Seq<Node>
    decreases schedule.len(),
{
    if schedule.len() == 0 {
        Seq::new(width as nat, |wire: int| Node::Exit { output: wire as usize })
    } else {
        let before = entries(width, schedule.drop_last());
        arena(width, schedule.drop_last()).push(
            Node::Fork {
                upper: before[schedule.last().0 as int],
                lower: before[schedule.last().1 as int],
            },
        )
    }
}

/// Every balancer of `schedule` joins two wires of a network of `width`
/// wires.
pub open spec fn on_wires(width: usize, schedule: Seq<Pair>) -> bool {
    forall|k: int|
        0 <= k < schedule.len() ==> (#[trigger] schedule[k]).0 < width && schedule[k].1 < width
}

/// The shape that lets every walk end: an arena in which a balancer leads
/// only to what stands before it, and every end is an output of the network.
pub open spec fn descending(width: usize, segments: Seq<Node>) -> bool {
    forall|place: int|
        0 <= place < segments.len() ==> match #[trigger] segments[place] {
            Node::Fork { upper, lower } => upper < place && lower < place,
            Node::Exit { output } => output < width,
        }
}

/// The balancers of a list join wires of the network in whatever order they
/// are laid.
pub proof fn lemma_laying_order_on_wires(width: usize, schedule: Seq<Pair>)
    requires
        on_wires(width, schedule),
    ensures
        on_wires(width, laying_order(schedule)),
        laying_order(schedule).len() == schedule.len(),
{
    let laying = laying_order(schedule);
    assert forall|k: int| 0 <= k < laying.len() implies (#[trigger] laying[k]).0 < width
        && laying[k].1 < width by {
        assert(laying[k] == schedule[schedule.len() - 1 - k]);
    }
}

/// A wired network has one entry for each wire, its arena holds the outputs
/// and the balancers, and it is descending.
pub proof fn lemma_wiring_shape(width: usize, schedule: Seq<Pair>)
    requires
        on_wires(width, schedule),
    ensures
        entries(width, schedule).len() == width,
        arena(width, schedule).len() == width + schedule.len(),
        descending(width, arena(width, schedule)),
        forall|wire: int|
            0 <= wire < width ==> (#[trigger] entries(width, schedule)[wire]) < width
                + schedule.len(),
    decreases schedule.len(),
{
    if schedule.len() > 0 {
        let shorter = schedule.drop_last();
        assert(on_wires(width, shorter)) by {
            assert forall|k: int| 0 <= k < shorter.len() implies (#[trigger] shorter[k]).0 < width
                && shorter[k].1 < width by {
                assert(shorter[k] == schedule[k]);
            }
        }
        lemma_wiring_shape(width, shorter);
        assert(schedule.last() == schedule[schedule.len() - 1]);
    }
}

/// Whether a token that stands at `from` can leave the network at `output`.
pub open spec fn leads_to(segments: Seq<Node>, from: usize, output: usize) -> bool
    decreases from,
{
    if from >= segments.len() {
        false
    } else {
        match segments[from as int] {
            Node::Exit { output: end } => end == output,
            Node::Fork { upper, lower } => upper < from && lower < from && (leads_to(
                segments,
                upper,
                output,
            ) || leads_to(segments, lower, output)),
        }
    }
}

/// The output that a token reaches from the place `from` of the arena, when
/// the bits of the balancers are `toggles` (one for each place; those of the
/// ends are not read).
pub open spec fn exit_of(segments: Seq<Node>, toggles: Seq<bool>, from: usize) -> usize
    decreases from,
{
    if from < segments.len() {
        match segments[from as int] {
            Node::Exit { output } => output,
            Node::Fork { upper, lower } => if upper < from && lower < from {
                exit_of(
                    segments,
                    toggles,
                    if toggles[from as int] {
                        lower
                    } else {
                        upper
                    },
                )
            } else {
                0
            },
        }
    } else {
        0
    }
}

/// The bits after that token has passed: every balancer on its way is
/// flipped.
pub open spec fn flipped_by(segments: Seq<Node>, toggles: Seq<bool>, from: usize) -> Seq<bool>
    decreases from,
{
    if from < segments.len() {
        match segments[from as int] {
            Node::Exit { output } => toggles,
            Node::Fork { upper, lower } => if upper < from && lower < from {
                flipped_by(
                    segments,
                    toggles.update(from as int, !toggles[from as int]),
                    if toggles[from as int] {
                        lower
                    } else {
                        upper
                    },
                )
            } else {
                toggles
            },
        }
    } else {
        toggles
    }
}

/// The number of balancers that the token passes on its way from the place
/// `from` to an output.
pub open spec fn hops(segments: Seq<Node>, toggles: Seq<bool>, from: usize) -> nat
    decreases from,
{
    if from < segments.len() {
        match segments[from as int] {
            Node::Exit { output } => 0,
            Node::Fork { upper, lower } => if upper < from && lower < from {
                1 + hops(
                    segments,
                    toggles,
                    if toggles[from as int] {
                        lower
                    } else {
                        upper
                    },
                )
            } else {
                0
            },
        }
    } else {
        0
    }
}

/// A walk from a place of the arena reads only the bits of the places up to
/// it.
pub proof fn lemma_walk_reads_below(
    segments: Seq<Node>,
    toggles: Seq<bool>,
    others: Seq<bool>,
    from: usize,
)
    requires
        forall|place: int| 0 <= place <= from ==> toggles[place] == others[place],
    ensures
        exit_of(segments, toggles, from) == exit_of(segments, others, from),
        hops(segments, toggles, from) == hops(segments, others, from),
    decreases from,
{
    if from < segments.len() {
        match segments[from as int] {
            Node::Exit { output } => {},
            Node::Fork { upper, lower } => {
                if upper < from && lower < from {
                    lemma_walk_reads_below(
                        segments,
                        toggles,
                        others,
                        if toggles[from as int] {
                            lower
                        } else {
                            upper
                        },
                    );
                }
            },
        }
    }
}

/// A balancer: one bit, and the two segments that follow it.
///
/// The bit says which of the two the next token takes. A new balancer sends
/// its first token to the segment on its upper wire.
#[derive(Debug)]
pub struct Balancer {
    pub value: AtomicBool,
    pub next_segments: [usize; 2],
}

impl Balancer {
    /// Flips the bit and tells which way it pointed before: 0 for the upper
    /// wire, 1 for the lower one.
    pub fn toggle_up(&self) -> (index: usize)
        ensures
            index == 0 || index == 1,
    {
        Balancer::index_of(self.value.fetch_xor(true, Ordering::Relaxed))
    }

    /// Passes a token: flips the bit and gives the place in the arena of the
    /// segment that the token goes to.
    pub fn next_segment(&self) -> (next: usize)
        ensures
            next == self.next_segments[0] || next == self.next_segments[1],
    {
        let next_index: usize = self.toggle_up();
        self.successor(next_index == 1)
    }

    /// The place in the arena of the segment that a token goes to which
    /// found the bit as `lower` says: the segment on the lower wire for a
    /// set bit, the one on the upper wire for a clear one.
    pub fn successor(&self, lower: bool) -> (next: usize)
        ensures
            next == if lower {
                self.next_segments[1]
            } else {
                self.next_segments[0]
            },
    {
        self.next_segments[Balancer::index_of(lower)]
    }

    /// The place among the two next segments that a bit stands for: 0, the
    /// upper wire, for a clear bit, and 1, the lower wire, for a set one.
    pub fn index_of(lower: bool) -> (index: usize)
        ensures
            index == if lower {
                1usize
            } else {
                0usize
            },
    {
        if lower {
            1
        } else {
            0
        }
    }
}

/// A segment of wire in the arena of a network.
#[derive(Debug)]
pub enum WireSegment {
    /// A balancer that joins this wire with another.
    Balancer(Balancer),
    /// The end of the wire: the number of its output.
    End(usize),
}

impl View for WireSegment {
    type V = Node;

    open spec fn view(&self) -> Node {
        match self {
            WireSegment::Balancer(balancer) => Node::Fork {
                upper: balancer.next_segments[0],
                lower: balancer.next_segments[1],
            },
            WireSegment::End(output) => Node::Exit { output: *output },
        }
    }
}

/// The nodes of a list of segments.
pub open spec fn nodes(segments: Seq<WireSegment>) -> Seq<Node> {
    Seq::new(segments.len(), |place: int| segments[place]@)
}

/// The nodes of a list that has grown by one segment.
proof fn lemma_nodes_push(segments: Seq<WireSegment>, segment: WireSegment)
    ensures
        nodes(segments.push(segment)) == nodes(segments).push(segment@),
{
    assert(nodes(segments.push(segment)) =~= nodes(segments).push(segment@));
}

/// A kind of network: the balancers that a network of a given width is made
/// of, in the order in which a token meets them. The first balancer of the
/// list on a wire stands next to the input of that wire, the last one next
/// to its output.
pub trait NetworkConfiguration: Sized {
    /// Whether there is a network of this kind with `width` wires.
    spec fn defined_for(width: usize) -> bool;

    /// The balancers of the network with `width` wires.
    spec fn balancers_of(width: usize) -> Seq<Pair>;

    /// The width that this configuration was made for.
    spec fn spec_width(&self) -> usize;

    /// The balancers of a network join wires of that network.
    proof fn lemma_balancers_on_wires(width: usize)
        requires
            Self::defined_for(width),
        ensures
            on_wires(width, Self::balancers_of(width)),
    ;

    /// Decides whether there is a network of this kind with `width` wires.
    fn accepts(width: usize) -> (yes: bool)
        ensures
            yes == Self::defined_for(width),
    ;

    /// The configuration of the network with `width` wires.
    fn from_width(width: usize) -> (config: Self)
        ensures
            config.spec_width() == width,
    ;

    /// The balancers of the network, in the order in which a token meets
    /// them.
    fn balancers(self) -> (pairs: Vec<Pair>)
        requires
            Self::defined_for(self.spec_width()),
        ensures
            pairs@ == Self::balancers_of(self.spec_width()),
    ;
}

/// Why a network could not be built.
#[derive(Debug, Clone, Copy, PartialEq, Eq, Structural)]
pub enum NetworkError {
    /// No output was given: a network has at least one wire.
    NoOutputs,
    /// The kind of network asked for has no network with as many wires as
    /// outputs were given.
    UnsupportedWidth,
}

/// What a network is made of, without the state of its balancers.
pub struct NetworkView<L> {
    /// The outputs, in the order in which they were given.
    pub outputs: Seq<L>,
    /// The arena: outputs first, then the balancers.
    pub segments: Seq<Node>,
    /// For each wire, the place in the arena where a token enters it.
    pub entries: Seq<usize>,
}

/// The wire on which the holder of `token` enters a network of `width`
/// wires.
pub open spec fn input_slot(token: u64, width: int) -> int
    recommends
        width > 0,
{
    token as int % width
}

impl<L> NetworkView<L> {
    /// The network has `width` wires and is wired from the balancers of
    /// `schedule`, which a token meets in the order of the list and which fit
    /// into one arena together with the outputs.
    pub open spec fn wired(self, width: usize, schedule: Seq<Pair>) -> bool {
        &&& width > 0
        &&& on_wires(width, schedule)
        &&& width + schedule.len() <= usize::MAX
        &&& self.outputs.len() == width
        &&& self.segments == arena(width, laying_order(schedule))
        &&& self.entries == entries(width, laying_order(schedule))
    }

    /// The wire on which the token of `token` enters.
    pub open spec fn slot(self, token: u64) -> int {
        input_slot(token, self.outputs.len() as int)
    }

    /// The bits of a new network: every balancer points to its upper wire.
    pub open spec fn at_rest(self) -> Seq<bool> {
        Seq::new(self.segments.len(), |place: int| false)
    }

    /// Whether a token that enters for `token` can come to `output`: there
    /// is a way from the entry of its wire to an end, and `output` is the
    /// output at that end.
    pub open spec fn can_reach(self, token: u64, output: L) -> bool {
        exists|k: usize|
            k < self.outputs.len() && leads_to(
                self.segments,
                self.entries[input_slot(token, self.outputs.len() as int)],
                k,
            ) && output == #[trigger] self.outputs[k as int]
    }
}

/// A network of balancers of kind `B` over outputs of type `L`.
#[derive(Debug)]
pub struct Network<L, B: NetworkConfiguration> {
    // Marker for the kind of network
    _marker: PhantomData<B>,
    // Width of the network
    width: usize,
    // Outputs of the network
    outputs: Vec<L>,
    // The arena: one segment for each output, then the balancers
    segments: Vec<WireSegment>,
    // The place of the first segment of each wire; as many as `width`
    last_segments: Vec<usize>,
}

impl<L, B: NetworkConfiguration> View for Network<L, B> {
    type V = NetworkView<L>;

    closed spec fn view(&self) -> NetworkView<L> {
        NetworkView {
            outputs: self.outputs@,
            segments: nodes(self.segments@),
            entries: self.last_segments@,
        }
    }
}

impl<L, B: NetworkConfiguration> Network<L, B> {
    /// The number of wires.
    pub closed spec fn spec_width(&self) -> usize {
        self.width
    }

    /// The network is the one that its kind prescribes for its width, with
    /// one output on each wire. This holds of every network.
    #[verifier::type_invariant]
    pub open spec fn wf(&self) -> bool {
        &&& B::defined_for(self.spec_width())
        &&& self@.wired(self.spec_width(), B::balancers_of(self.spec_width()))
    }

    /// Builds the network over `outputs`, one wire for each, in their order.
    pub fn new(outputs: Vec<L>) -> (made: Result<Self, NetworkError>)
        ensures
            match made {
                Ok(network) => outputs.len() > 0 && B::defined_for(outputs.len()) && network.wf()
                    && network.spec_width() == outputs.len() && network@.outputs == outputs@,
                Err(NetworkError::NoOutputs) => outputs.len() == 0,
                Err(NetworkError::UnsupportedWidth) => outputs.len() > 0 && !B::defined_for(
                    outputs.len(),
                ),
            },
    {
        let width: usize = outputs.len();
        if width == 0 {
            return Err(NetworkError::NoOutputs);
        }
        if !B::accepts(width) {
            return Err(NetworkError::UnsupportedWidth);
        }
        let config = B::from_width(width);
        let balancers = config.balancers();
        proof {
            B::lemma_balancers_on_wires(width);
        }

        // The outputs come first in the arena, and each wire begins with its
        // output.
        let mut latest_segments: Vec<usize> = Vec::new();
        let mut segments: Vec<WireSegment> = Vec::new();
        let mut wire: usize = 0;
        while wire < width
            invariant
                wire <= width,
                latest_segments@ == Seq::new(wire as nat, |k: int| k as usize),
                nodes(segments@) == Seq::new(
                    wire as nat,
                    |k: int| Node::Exit { output: k as usize },
                ),
            decreases width - wire,
        {
            proof {
                lemma_nodes_push(segments@, WireSegment::End(wire));
            }
            latest_segments.push(wire);
            segments.push(WireSegment::End(wire));
            wire = wire + 1;
            assert(latest_segments@ =~= Seq::new(wire as nat, |k: int| k as usize));
            assert(nodes(segments@) =~= Seq::new(
                wire as nat,
                |k: int| Node::Exit { output: k as usize },
            ));
        }

        // Each balancer is laid in front of what its two wires begin with,
        // the last one of the list first: a token meets them in the order of
        // the list.
        let ghost laying = laying_order(balancers@);
        proof {
            lemma_laying_order_on_wires(width, balancers@);
        }
        let mut left: usize = balancers.len();
        assert(laying.subrange(0, 0) =~= Seq::<Pair>::empty());
        while left > 0
            invariant
                left <= balancers.len(),
                laying == laying_order(balancers@),
                on_wires(width, laying),
                latest_segments@ == entries(width, laying.subrange(0, balancers.len() - left)),
                nodes(segments@) == arena(width, laying.subrange(0, balancers.len() - left)),
                segments.len() == width + (balancers.len() - left),
                latest_segments.len() == width,
            decreases left,
        {
            let ghost laid = balancers.len() - left;
            left = left - 1;
            let (top_wire, bottom_wire) = balancers[left];
            assert(laying[laid] == balancers@[left as int]);
            let next_segment_idx: usize = segments.len();
            let ghost before = segments@;
            let new_balancer = Balancer {
                value: AtomicBool::new(false),
                next_segments: [latest_segments[top_wire], latest_segments[bottom_wire]],
            };
            segments.push(WireSegment::Balancer(new_balancer));
            latest_segments[top_wire] = next_segment_idx;
            latest_segments[bottom_wire] = next_segment_idx;
            proof {
                let longer = laying.subrange(0, laid + 1);
                assert(longer.drop_last() =~= laying.subrange(0, laid));
                assert(longer.last() == laying[laid]);
                lemma_nodes_push(before, segments@[next_segment_idx as int]);
                assert(segments@ =~= before.push(segments@[next_segment_idx as int]));
                assert(on_wires(width, longer.drop_last()));
                lemma_wiring_shape(width, longer.drop_last());
            }
        }
        assert(laying.subrange(0, balancers.len() as int) =~= laying);

        Ok(
            Network {
                _marker: PhantomData,
                width,
                outputs,
                segments,
                last_segments: latest_segments,
            },
        )
    }

    /// The number of wires.
    #[verifier::when_used_as_spec(spec_width)]
    pub fn width(&self) -> (width: usize)
        ensures
            width == self.spec_width(),
            self.wf(),
    {
        proof {
            use_type_invariant(self);
        }
        self.width
    }

    /// Walks a token through the network and gives the output that it
    /// reaches. `token` stands for the caller: it decides on which wire the
    /// token enters. Every balancer on the way is flipped.
    pub fn traverse(&self, token: u64) -> (output: &L)
        ensures
            self.wf(),
            self@.can_reach(token, *output),
    {
        proof {
            use_type_invariant(self);
            B::lemma_balancers_on_wires(self.width);
            lemma_laying_order_on_wires(self.width, B::balancers_of(self.width));
            lemma_wiring_shape(self.width, laying_order(B::balancers_of(self.width)));
        }
        let slot: usize = (token % (self.width as u64)) as usize;
        assert(slot == input_slot(token, self.width as int));
        let start_segment_idx: usize = self.last_segments[slot];
        let mut current: usize = start_segment_idx;
        loop
            invariant
                self.wf(),
                current < self.segments.len(),
                0 <= input_slot(token, self.width as int) < self.width,
                start_segment_idx == self.last_segments@[input_slot(token, self.width as int)],
                descending(self.width, nodes(self.segments@)),
                forall|k: usize|
                    leads_to(nodes(self.segments@), current, k) ==> leads_to(
                        nodes(self.segments@),
                        start_segment_idx,
                        k,
                    ),
            decreases current,
        {
            match &self.segments[current] {
                WireSegment::Balancer(balancer) => {
                    assert(nodes(self.segments@)[current as int] == self.segments@[current as int]@);
                    current = balancer.next_segment();
                },
                WireSegment::End(output_idx) => {
                    assert(nodes(self.segments@)[current as int] == self.segments@[current as int]@);
                    let k: usize = *output_idx;
                    assert(leads_to(nodes(self.segments@), current, k));
                    assert(k < self.width);
                    assert(start_segment_idx == self@.entries[input_slot(
                        token,
                        self@.outputs.len() as int,
                    )]);
                    assert(self.outputs[k as int] == self@.outputs[k as int]);
                    return &self.outputs[k];
                },
            }
        }
    }

    /// The bits of a new network, one for each place of the arena: every
    /// balancer points to its upper wire.
    pub fn toggles_at_rest(&self) -> (toggles: Vec<bool>)
        ensures
            toggles@ == self@.at_rest(),
    {
        let mut toggles: Vec<bool> = Vec::new();
        let mut place: usize = 0;
        while place < self.segments.len()
            invariant
                place <= self.segments.len(),
                toggles@ == Seq::new(place as nat, |k: int| false),
            decreases self.segments.len() - place,
        {
            toggles.push(false);
            place = place + 1;
            assert(toggles@ =~= Seq::new(place as nat, |k: int| false));
        }
        assert(self@.segments.len() == self.segments.len());
        toggles
    }

    /// Walks a token through the network as it goes when the bits of the
    /// balancers are `toggles`, one for each place of the arena, and flips in
    /// `toggles` the bits of the balancers that it passes. The balancers
    /// themselves are left as they are: this is the traversal of a network
    /// at rest, with its state in the hands of the caller.
    pub fn traverse_with(&self, token: u64, toggles: &mut Vec<bool>) -> (output: &L)
        requires
            old(toggles).len() == self@.segments.len(),
        ensures
            exit_of(self@.segments, old(toggles)@, self@.entries[self@.slot(token)])
                < self@.outputs.len(),
            *output == self@.outputs[exit_of(
                self@.segments,
                old(toggles)@,
                self@.entries[self@.slot(token)],
            ) as int],
            final(toggles)@ == flipped_by(
                self@.segments,
                old(toggles)@,
                self@.entries[self@.slot(token)],
            ),
            final(toggles).len() == old(toggles).len(),
    {
        let output_idx: usize = self.exit_with(token, toggles);
        &self.outputs[output_idx]
    }

    /// The number of the output that such a token reaches; the bits of the
    /// balancers that it passes are flipped in `toggles`.
    pub fn exit_with(&self, token: u64, toggles: &mut Vec<bool>) -> (output: usize)
        requires
            old(toggles).len() == self@.segments.len(),
        ensures
            output < self@.outputs.len(),
            output == exit_of(self@.segments, old(toggles)@, self@.entries[self@.slot(token)]),
            final(toggles)@ == flipped_by(
                self@.segments,
                old(toggles)@,
                self@.entries[self@.slot(token)],
            ),
            final(toggles).len() == old(toggles).len(),
    {
        proof {
            use_type_invariant(self);
            B::lemma_balancers_on_wires(self.width);
            lemma_laying_order_on_wires(self.width, B::balancers_of(self.width));
            lemma_wiring_shape(self.width, laying_order(B::balancers_of(self.width)));
        }
        let ghost before = toggles@;
        assert(toggles.len() == self.segments.len());
        let slot: usize = (token % (self.width as u64)) as usize;
        assert(slot == self@.slot(token));
        let start_segment_idx: usize = self.last_segments[slot];
        let mut current: usize = start_segment_idx;
        loop
            invariant
                self.wf(),
                current < self.segments.len(),
                toggles.len() == self.segments.len(),
                old(toggles).len() == self.segments.len(),
                before == old(toggles)@,
                start_segment_idx == self@.entries[self@.slot(token)],
                descending(self.width, nodes(self.segments@)),
                exit_of(nodes(self.segments@), toggles@, current) == exit_of(
                    nodes(self.segments@),
                    before,
                    start_segment_idx,
                ),
                flipped_by(nodes(self.segments@), toggles@, current) == flipped_by(
                    nodes(self.segments@),
                    before,
                    start_segment_idx,
                ),
            decreases current,
        {
            let ghost now = toggles@;
            assert(nodes(self.segments@)[current as int] == self.segments@[current as int]@);
            match &self.segments[current] {
                WireSegment::Balancer(balancer) => {
                    let lower: bool = toggles[current];
                    toggles[current] = !lower;
                    let next: usize = balancer.successor(lower);
                    proof {
                        lemma_walk_reads_below(nodes(self.segments@), now, toggles@, next);
                    }
                    current = next;
                },
                WireSegment::End(output_idx) => {
                    assert(exit_of(nodes(self.segments@), now, current) == *output_idx);
                    assert(*output_idx < self.width);
                    return *output_idx;
                },
            }
        }
    }

    /// The outputs, in the order in which they were given.
    pub fn outputs(&self) -> (outputs: &[L])
        ensures
            outputs@ == self@.outputs,
    {
        self.outputs.as_slice()
    }
}

impl<L: Clone, B: NetworkConfiguration> Clone for Network<L, B> {
    /// A new network of the same kind over copies of the outputs. Its
    /// balancers are new: they do not take over the bits of this network.
    fn clone(&self) -> (copy: Self)
        ensures
            copy.wf(),
            copy.spec_width() == self.spec_width(),
            copy@.segments == self@.segments,
            copy@.entries == self@.entries,
            copy@.outputs.len() == self@.outputs.len(),
            forall|k: int|
                0 <= k < self@.outputs.len() ==> cloned::<L>(
                    #[trigger] self@.outputs[k],
                    copy@.outputs[k],
                ),
    {
        proof {
            use_type_invariant(self);
        }
        let outputs = self.outputs.clone();
        match Network::new(outputs) {
            Ok(copy) => copy,
            Err(_) => vstd::pervasive::unreached(),
        }
    }
}

impl<L: PartialEq, B: NetworkConfiguration> PartialEq for Network<L, B> {
    /// Two networks of one kind are equal when their outputs are.
    fn eq(&self, other: &Self) -> (equal: bool) {
        self.outputs == other.outputs
    }
}

impl<L: PartialEq, B: NetworkConfiguration> vstd::std_specs::cmp::PartialEqSpecImpl for Network<L, B> {
    open spec fn obeys_eq_spec() -> bool {
        L::obeys_eq_spec()
    }

    open spec fn eq_spec(&self, other: &Self) -> bool {
        &&& self@.outputs.len() == other@.outputs.len()
        &&& forall|k: int|
            #![auto]
            0 <= k < self@.outputs.len() ==> self@.outputs[k].eq_spec(&other@.outputs[k])
    }
}

impl<L: Eq, B: NetworkConfiguration> Eq for Network<L, B> {

}

} // verus!
