//! How tokens move through a network at rest.
//!
//! Lists of balancers are here in laying order, the last balancer of a list
//! being the first that a token meets, but for `through`, which takes them
//! as a token meets them.
//!
//! A network is at rest when no token is on its way. Its state is then one
//! bit for each balancer: whether the next token goes to the lower wire.
//! Tokens that pass one after the other take the network from one state at
//! rest to the next. The number of tokens that have passed each balancer,
//! and with it the state, follows from the number of tokens that have
//! entered on each wire.
use crate::networks::common::{
    arena, entries, exit_of, flipped_by, hops, laying_order, lemma_laying_order_on_wires,
    lemma_wiring_shape, on_wires, NetworkView, Node,
};
use crate::networks::schedule::Pair;
use vstd::prelude::*;

verus! {

/// The wire on which a token leaves the balancers of `schedule`, laid on
/// `width` wires, when it enters on `wire`. It meets the last balancer of the
/// list first. The bit of the balancer at place `k` of the list is
/// `toggles[width + k]`.
pub open spec fn pass(width: usize, schedule: Seq<Pair>, toggles: Seq<bool>, wire: usize) -> usize
    decreases schedule.len(),
{
    if schedule.len() == 0 {
        wire
    } else {
        pass(
            width,
            schedule.drop_last(),
            toggles,
            turn(schedule.last(), toggles[width + schedule.len() - 1], wire),
        )
    }
}

/// The wire on which a token goes on after the balancer `pair`, whose bit is
/// `toggle`, when it came on `wire`.
pub open spec fn turn(pair: Pair, toggle: bool, wire: usize) -> usize {
    if wire == pair.0 || wire == pair.1 {
        if toggle {
            pair.1
        } else {
            pair.0
        }
    } else {
        wire
    }
}

/// The bits after that token has passed.
pub open spec fn pass_flips(
    width: usize,
    schedule: Seq<Pair>,
    toggles: Seq<bool>,
    wire: usize,
) -> Seq<bool>
    decreases schedule.len(),
{
    if schedule.len() == 0 {
        toggles
    } else {
        let place = width + schedule.len() - 1;
        let met = wire == schedule.last().0 || wire == schedule.last().1;
        pass_flips(
            width,
            schedule.drop_last(),
            if met {
                toggles.update(place, !toggles[place])
            } else {
                toggles
            },
            turn(schedule.last(), toggles[place], wire),
        )
    }
}

/// The number of balancers of `schedule` that a token meets which enters on
/// `wire`.
pub open spec fn met(width: usize, schedule: Seq<Pair>, toggles: Seq<bool>, wire: usize) -> nat
    decreases schedule.len(),
{
    if schedule.len() == 0 {
        0
    } else {
        met(
            width,
            schedule.drop_last(),
            toggles,
            turn(schedule.last(), toggles[width + schedule.len() - 1], wire),
        ) + if wire == schedule.last().0 || wire == schedule.last().1 {
            1nat
        } else {
            0nat
        }
    }
}

/// A walk from a place of the arena sees only the places up to it.
proof fn lemma_walk_prefix(
    longer: Seq<Node>,
    shorter: Seq<Node>,
    toggles: Seq<bool>,
    from: usize,
)
    requires
        from < shorter.len() <= longer.len(),
        forall|place: int| 0 <= place < shorter.len() ==> longer[place] == shorter[place],
    ensures
        exit_of(longer, toggles, from) == exit_of(shorter, toggles, from),
        flipped_by(longer, toggles, from) == flipped_by(shorter, toggles, from),
        hops(longer, toggles, from) == hops(shorter, toggles, from),
    decreases from,
{
    match shorter[from as int] {
        Node::Exit { output } => {},
        Node::Fork { upper, lower } => {
            if upper < from && lower < from {
                let next = if toggles[from as int] {
                    lower
                } else {
                    upper
                };
                lemma_walk_prefix(longer, shorter, toggles, next);
                lemma_walk_prefix(
                    longer,
                    shorter,
                    toggles.update(from as int, !toggles[from as int]),
                    next,
                );
            }
        },
    }
}

/// A token that enters a wired network on a wire walks through the arena as
/// it passes the balancers of the list, the last one first.
pub proof fn lemma_walk_is_pass(width: usize, schedule: Seq<Pair>, toggles: Seq<bool>, wire: usize)
    requires
        on_wires(width, schedule),
        width + schedule.len() <= usize::MAX,
        toggles.len() >= width + schedule.len(),
        wire < width,
    ensures
        exit_of(arena(width, schedule), toggles, entries(width, schedule)[wire as int]) == pass(
            width,
            schedule,
            toggles,
            wire,
        ),
        flipped_by(arena(width, schedule), toggles, entries(width, schedule)[wire as int])
            == pass_flips(width, schedule, toggles, wire),
        hops(arena(width, schedule), toggles, entries(width, schedule)[wire as int]) == met(
            width,
            schedule,
            toggles,
            wire,
        ),
        pass(width, schedule, toggles, wire) < width,
    decreases schedule.len(),
{
    lemma_wiring_shape(width, schedule);
    if schedule.len() > 0 {
        let shorter = schedule.drop_last();
        let pair = schedule.last();
        let place = (width + schedule.len() - 1) as usize;
        assert(on_wires(width, shorter)) by {
            assert forall|k: int| 0 <= k < shorter.len() implies (#[trigger] shorter[k]).0 < width
                && shorter[k].1 < width by {
                assert(shorter[k] == schedule[k]);
            }
        }
        assert(pair == schedule[schedule.len() - 1]);
        lemma_wiring_shape(width, shorter);
        let next = turn(pair, toggles[place as int], wire);
        let met = wire == pair.0 || wire == pair.1;
        let after = if met {
            toggles.update(place as int, !toggles[place as int])
        } else {
            toggles
        };
        lemma_walk_is_pass(width, shorter, toggles, next);
        lemma_walk_is_pass(width, shorter, after, next);
        let from = entries(width, shorter)[next as int];
        lemma_walk_prefix(arena(width, schedule), arena(width, shorter), toggles, from);
        lemma_walk_prefix(arena(width, schedule), arena(width, shorter), after, from);
        if met {
            assert(entries(width, schedule)[wire as int] == place);
            assert(arena(width, schedule)[place as int] == Node::Fork {
                upper: entries(width, shorter)[pair.0 as int],
                lower: entries(width, shorter)[pair.1 as int],
            });
        } else {
            assert(entries(width, schedule)[wire as int] == from);
        }
    }
}

/// What a balancer makes of the numbers of tokens on the wires: of the
/// tokens on its two wires, it sends one half, rounded up, to the upper wire
/// and the rest to the lower one.
pub open spec fn balance(counts: Seq<int>, pair: Pair) -> Seq<int> {
    let sum = counts[pair.0 as int] + counts[pair.1 as int];
    counts.update(pair.0 as int, (sum + 1) / 2).update(pair.1 as int, sum / 2)
}

/// The numbers of tokens that leave the balancers of `schedule` on each
/// wire, when `counts` tells how many have entered on each wire and none is
/// on its way. The list is in laying order: the tokens meet its last
/// balancer first.
pub open spec fn flow(schedule: Seq<Pair>, counts: Seq<int>) -> Seq<int>
    decreases schedule.len(),
{
    if schedule.len() == 0 {
        counts
    } else {
        flow(schedule.drop_last(), balance(counts, schedule.last()))
    }
}

/// The bits of the balancers after those tokens have passed: a balancer
/// points to its lower wire when an odd number of tokens has passed it. The
/// places of the outputs come first and hold `false`.
pub open spec fn parities(width: usize, schedule: Seq<Pair>, counts: Seq<int>) -> Seq<bool>
    decreases schedule.len(),
{
    if schedule.len() == 0 {
        Seq::new(width as nat, |place: int| false)
    } else {
        parities(width, schedule.drop_last(), balance(counts, schedule.last())).push(
            (counts[schedule.last().0 as int] + counts[schedule.last().1 as int]) % 2 == 1,
        )
    }
}

/// No balancer of `schedule` joins a wire with itself.
pub open spec fn proper(schedule: Seq<Pair>) -> bool {
    forall|k: int| 0 <= k < schedule.len() ==> (#[trigger] schedule[k]).0 != schedule[k].1
}

/// Dropping the last balancer keeps a list on its wires and proper.
pub proof fn lemma_shorter_schedule(width: usize, schedule: Seq<Pair>)
    requires
        schedule.len() > 0,
    ensures
        on_wires(width, schedule) ==> on_wires(width, schedule.drop_last()) && schedule.last().0
            < width && schedule.last().1 < width,
        proper(schedule) ==> proper(schedule.drop_last()) && schedule.last().0
            != schedule.last().1,
{
    let shorter = schedule.drop_last();
    assert(schedule.last() == schedule[schedule.len() - 1]);
    assert forall|k: int| 0 <= k < shorter.len() implies shorter[k] == schedule[k] by {}
    if on_wires(width, schedule) {
        assert forall|k: int| 0 <= k < shorter.len() implies (#[trigger] shorter[k]).0 < width
            && shorter[k].1 < width by {
            assert(shorter[k] == schedule[k]);
        }
    }
    if proper(schedule) {
        assert forall|k: int| 0 <= k < shorter.len() implies (#[trigger] shorter[k]).0
            != shorter[k].1 by {
            assert(shorter[k] == schedule[k]);
        }
    }
}

/// The flow keeps the number of wires, and there is one bit for each place.
pub proof fn lemma_flow_len(width: usize, schedule: Seq<Pair>, counts: Seq<int>)
    requires
        on_wires(width, schedule),
        counts.len() == width,
    ensures
        flow(schedule, counts).len() == width,
        parities(width, schedule, counts).len() == width + schedule.len(),
    decreases schedule.len(),
{
    if schedule.len() > 0 {
        lemma_shorter_schedule(width, schedule);
        lemma_flow_len(width, schedule.drop_last(), balance(counts, schedule.last()));
    }
}

/// A token passes the balancers of a list without regard to bits beyond
/// theirs, and leaves those as they are.
proof fn lemma_pass_ignores_rest(
    width: usize,
    schedule: Seq<Pair>,
    toggles: Seq<bool>,
    rest: bool,
    wire: usize,
)
    requires
        toggles.len() >= width + schedule.len(),
    ensures
        pass(width, schedule, toggles.push(rest), wire) == pass(width, schedule, toggles, wire),
        pass_flips(width, schedule, toggles.push(rest), wire) == pass_flips(
            width,
            schedule,
            toggles,
            wire,
        ).push(rest),
    decreases schedule.len(),
{
    if schedule.len() > 0 {
        let place = width + schedule.len() - 1;
        let met = wire == schedule.last().0 || wire == schedule.last().1;
        let next = turn(schedule.last(), toggles[place], wire);
        let after = if met {
            toggles.update(place, !toggles[place])
        } else {
            toggles
        };
        assert(toggles.push(rest)[place] == toggles[place]);
        if met {
            assert(toggles.push(rest).update(place, !toggles[place]) =~= after.push(rest));
        }
        lemma_pass_ignores_rest(width, schedule.drop_last(), toggles, rest, next);
        lemma_pass_ignores_rest(width, schedule.drop_last(), after, rest, next);
    }
}

/// One more token: it leaves on the wire whose number of tokens grows by
/// one, and the bits that it leaves behind are those of the greater numbers.
pub proof fn lemma_one_more_token(
    width: usize,
    schedule: Seq<Pair>,
    counts: Seq<int>,
    wire: usize,
)
    requires
        on_wires(width, schedule),
        proper(schedule),
        counts.len() == width,
        wire < width,
    ensures
        pass(width, schedule, parities(width, schedule, counts), wire) < width,
        flow(schedule, counts.update(wire as int, counts[wire as int] + 1)) == flow(
            schedule,
            counts,
        ).update(
            pass(width, schedule, parities(width, schedule, counts), wire) as int,
            flow(schedule, counts)[pass(
                width,
                schedule,
                parities(width, schedule, counts),
                wire,
            ) as int] + 1,
        ),
        pass_flips(width, schedule, parities(width, schedule, counts), wire) == parities(
            width,
            schedule,
            counts.update(wire as int, counts[wire as int] + 1),
        ),
    decreases schedule.len(),
{
    let more = counts.update(wire as int, counts[wire as int] + 1);
    if schedule.len() == 0 {
    } else {
        lemma_shorter_schedule(width, schedule);
        let shorter = schedule.drop_last();
        let pair = schedule.last();
        let place = width + schedule.len() - 1;
        let sum = counts[pair.0 as int] + counts[pair.1 as int];
        let odd = sum % 2 == 1;
        let balanced = balance(counts, pair);
        let below = parities(width, shorter, balanced);
        let toggles = parities(width, schedule, counts);
        lemma_flow_len(width, shorter, balanced);
        assert(toggles == below.push(odd));
        assert(toggles[place] == odd);
        let met = wire == pair.0 || wire == pair.1;
        let next = turn(pair, odd, wire);
        // the numbers after the balancer grow by one on the wire that the
        // token takes
        assert(balance(more, pair) =~= balanced.update(next as int, balanced[next as int] + 1));
        let more_sum = more[pair.0 as int] + more[pair.1 as int];
        assert((more_sum % 2 == 1) == (if met {
            !odd
        } else {
            odd
        }));
        lemma_one_more_token(width, shorter, balanced, next);
        lemma_pass_ignores_rest(width, shorter, below, odd, next);
        lemma_pass_ignores_rest(width, shorter, below, !odd, next);
        if met {
            assert(toggles.update(place, !odd) =~= below.push(!odd));
        }
    }
}

/// As many zeros as there are wires.
pub open spec fn no_tokens(width: int) -> Seq<int> {
    Seq::new(width as nat, |wire: int| 0int)
}

/// Without tokens nothing leaves, and no balancer has been flipped.
pub proof fn lemma_no_tokens(width: usize, schedule: Seq<Pair>)
    requires
        on_wires(width, schedule),
    ensures
        flow(schedule, no_tokens(width as int)) == no_tokens(width as int),
        parities(width, schedule, no_tokens(width as int)) == Seq::new(
            (width + schedule.len()) as nat,
            |place: int| false,
        ),
    decreases schedule.len(),
{
    let none = no_tokens(width as int);
    if schedule.len() > 0 {
        lemma_shorter_schedule(width, schedule);
        assert(balance(none, schedule.last()) =~= none);
        lemma_no_tokens(width, schedule.drop_last());
        assert(parities(width, schedule, none) =~= Seq::new(
            (width + schedule.len()) as nat,
            |place: int| false,
        ));
    } else {
        assert(parities(width, schedule, none) =~= Seq::new(
            (width + schedule.len()) as nat,
            |place: int| false,
        ));
    }
}

impl<L> NetworkView<L> {
    /// The bits after the tokens of `tokens` have passed a new network, one
    /// after the other.
    pub open spec fn toggles_after(self, tokens: Seq<u64>) -> Seq<bool>
        decreases tokens.len(),
    {
        if tokens.len() == 0 {
            self.at_rest()
        } else {
            flipped_by(
                self.segments,
                self.toggles_after(tokens.drop_last()),
                self.entries[self.slot(tokens.last())],
            )
        }
    }

    /// The number of the output that the token of `token` reaches when it
    /// passes after those of `earlier`.
    pub open spec fn exit_after(self, earlier: Seq<u64>, token: u64) -> usize {
        exit_of(self.segments, self.toggles_after(earlier), self.entries[self.slot(token)])
    }

    /// How many of the tokens of `tokens` have entered on each wire.
    pub open spec fn entered(self, tokens: Seq<u64>) -> Seq<int>
        decreases tokens.len(),
    {
        if tokens.len() == 0 {
            no_tokens(self.outputs.len() as int)
        } else {
            let before = self.entered(tokens.drop_last());
            let wire = self.slot(tokens.last());
            before.update(wire, before[wire] + 1)
        }
    }

    /// How many of the tokens of `tokens`, passing one after the other, have
    /// reached each output.
    pub open spec fn arrivals(self, tokens: Seq<u64>) -> Seq<int>
        decreases tokens.len(),
    {
        if tokens.len() == 0 {
            no_tokens(self.outputs.len() as int)
        } else {
            let before = self.arrivals(tokens.drop_last());
            let output = self.exit_after(tokens.drop_last(), tokens.last()) as int;
            before.update(output, before[output] + 1)
        }
    }
}

/// The numbers of tokens that leave the balancers of `schedule` on each
/// wire, when `counts` tells how many have entered on each wire, the tokens
/// meet the balancers in the order of the list and none is on its way.
pub open spec fn through(schedule: Seq<Pair>, counts: Seq<int>) -> Seq<int>
    decreases schedule.len(),
{
    if schedule.len() == 0 {
        counts
    } else {
        through(schedule.drop_first(), balance(counts, schedule.first()))
    }
}

/// Balancers that are laid from the last one of a list to the first are met
/// in the order of the list.
pub proof fn lemma_flow_is_through(schedule: Seq<Pair>, counts: Seq<int>)
    ensures
        flow(laying_order(schedule), counts) == through(schedule, counts),
    decreases schedule.len(),
{
    let laying = laying_order(schedule);
    if schedule.len() > 0 {
        assert(laying.drop_last() =~= laying_order(schedule.drop_first()));
        assert(laying.last() == schedule.first());
        lemma_flow_is_through(schedule.drop_first(), balance(counts, schedule.first()));
    }
}

/// The tokens pass the earlier part of a list of balancers first.
pub proof fn lemma_through_concat(first: Seq<Pair>, then: Seq<Pair>, counts: Seq<int>)
    ensures
        through(first + then, counts) == through(then, through(first, counts)),
    decreases first.len(),
{
    if first.len() == 0 {
        assert(first + then =~= then);
    } else {
        assert((first + then).drop_first() =~= first.drop_first() + then);
        assert((first + then).first() == first.first());
        lemma_through_concat(first.drop_first(), then, balance(counts, first.first()));
    }
}

/// In a network at rest, the numbers of tokens that have reached the outputs
/// are what the balancers make of the numbers of tokens that have entered
/// on the wires, whatever the wires and the order in which they entered; and
/// every token reaches an output.
pub proof fn lemma_arrivals_follow_entries<L>(
    network: NetworkView<L>,
    width: usize,
    schedule: Seq<Pair>,
    tokens: Seq<u64>,
)
    requires
        network.wired(width, schedule),
        proper(schedule),
    ensures
        network.entered(tokens).len() == width,
        network.arrivals(tokens) == through(schedule, network.entered(tokens)),
        network.toggles_after(tokens) == parities(
            width,
            laying_order(schedule),
            network.entered(tokens),
        ),
        forall|token: u64| #[trigger] network.exit_after(tokens, token) < width,
    decreases tokens.len(),
{
    let laying = laying_order(schedule);
    lemma_laying_order_on_wires(width, schedule);
    assert(proper(laying)) by {
        assert forall|k: int| 0 <= k < laying.len() implies (#[trigger] laying[k]).0
            != laying[k].1 by {
            assert(laying[k] == schedule[schedule.len() - 1 - k]);
        }
    }
    lemma_wiring_shape(width, laying);
    if tokens.len() == 0 {
        lemma_no_tokens(width, laying);
        assert(network.at_rest() =~= parities(width, laying, no_tokens(width as int)));
    } else {
        let earlier = tokens.drop_last();
        lemma_arrivals_follow_entries(network, width, schedule, earlier);
        let counts = network.entered(earlier);
        let slot = network.slot(tokens.last());
        assert(0 <= slot < width) by (nonlinear_arith)
            requires
                slot == tokens.last() as int % width as int,
                width > 0,
        ;
        let wire = slot as usize;
        let toggles = parities(width, laying, counts);
        lemma_flow_len(width, laying, counts);
        lemma_walk_is_pass(width, laying, toggles, wire);
        lemma_one_more_token(width, laying, counts, wire);
        lemma_flow_is_through(schedule, counts);
    }
    let counts = network.entered(tokens);
    let toggles = parities(width, laying, counts);
    lemma_flow_len(width, laying, counts);
    lemma_flow_is_through(schedule, counts);
    assert forall|token: u64| #[trigger] network.exit_after(tokens, token) < width by {
        let slot = network.slot(token);
        assert(0 <= slot < width) by (nonlinear_arith)
            requires
                slot == token as int % width as int,
                width > 0,
        ;
        lemma_walk_is_pass(width, laying, toggles, slot as usize);
    }
}

} // verus!
