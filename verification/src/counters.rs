//! Shared counters built on counting networks.
use crate::networks::bitonic::BitonicNetwork;
use crate::networks::common::{exit_of, flipped_by, NetworkError, NetworkView};
use crate::networks::counting::lemma_step_property;
use crate::networks::flows::lemma_share_next;
use crate::networks::schedule::bitonic_schedule;
use crate::util::{is_power_of_two, power_of_two};
use core::sync::atomic::{AtomicUsize, Ordering};
use vstd::prelude::*;

verus! {

/// The buckets of a counter are numbered: the bucket at output `k` hands
/// out `k` first.
pub open spec fn numbered(network: NetworkView<CountingBucket>) -> bool {
    forall|k: int|
        0 <= k < network.outputs.len() ==> (#[trigger] network.outputs[k]).starting_value() == k
}

/// The value that a bucket hands out after it has handed out `handed_out`
/// values, when it moves on by `width` each time.
pub open spec fn bucket_value(bucket: CountingBucket, width: int, handed_out: int) -> int {
    bucket.starting_value() + handed_out * width
}

/// The value that the counter on `network` hands to the token of `token`
/// when it passes after those of `earlier`: the value of the bucket that it
/// reaches, which has moved on by the width of the network for each token
/// that has reached it before.
pub open spec fn value_after(
    network: NetworkView<CountingBucket>,
    earlier: Seq<u64>,
    token: u64,
) -> int {
    bucket_value(
        network.outputs[network.exit_after(earlier, token) as int],
        network.outputs.len() as int,
        network.arrivals(earlier)[network.exit_after(earlier, token) as int],
    )
}

/// The counter counts. When callers ask a counter on a bitonic network for
/// one value after the other, whoever they are, they are handed `0, 1, 2,
/// ..` in this order: no value twice, and none left out.
pub proof fn lemma_counter_counts(
    network: NetworkView<CountingBucket>,
    width: usize,
    tokens: Seq<u64>,
)
    requires
        is_power_of_two(width as nat),
        network.wired(width, bitonic_schedule(0, width)),
        numbered(network),
    ensures
        forall|n: int|
            0 <= n < tokens.len() ==> #[trigger] value_after(network, tokens.take(n), tokens[n])
                == n,
{
    assert forall|n: int| 0 <= n < tokens.len() implies #[trigger] value_after(
        network,
        tokens.take(n),
        tokens[n],
    ) == n by {
        let earlier = tokens.take(n);
        lemma_step_property(network, width, tokens);
        lemma_step_property(network, width, earlier);
        let output = n % (width as int);
        assert(network.exit_after(earlier, tokens[n]) == output);
        vstd::arithmetic::div_mod::lemma_mod_bound(n, width as int);
        lemma_share_next(width as int, n, output);
        vstd::arithmetic::div_mod::lemma_fundamental_div_mod(n, width as int);
        assert(output + (n / (width as int)) * width == n) by (nonlinear_arith)
            requires
                n == width * (n / (width as int)) + output,
        ;
    }
}

/// The counter at one output of the network: it hands out its value and
/// moves on by the width of the network.
pub struct CountingBucket {
    value: AtomicUsize,
    first: Ghost<usize>,
}

impl CountingBucket {
    /// The value that the bucket was made with.
    pub closed spec fn starting_value(&self) -> usize {
        self.first@
    }

    /// A bucket that hands out `starting_value` first.
    pub fn new(starting_value: usize) -> (bucket: Self)
        ensures
            bucket.starting_value() == starting_value,
    {
        CountingBucket { value: AtomicUsize::new(starting_value), first: Ghost(starting_value) }
    }

    /// The value that the bucket hands out next.
    pub fn get(&self) -> usize {
        self.value.load(Ordering::Relaxed)
    }

    /// Moves the bucket on by `increment`.
    pub fn inc(&self, increment: usize) {
        self.value.fetch_add(increment, Ordering::SeqCst);
    }

    /// Hands out the value of the bucket and moves it on by `delta`, in one
    /// step: no two callers are handed the same value.
    pub fn fetch_then_add(&self, delta: usize) -> usize {
        self.value.fetch_add(delta, Ordering::SeqCst)
    }
}

/// Output sequential values without duplicates or skips.
pub trait Counter {
    /// Retrieve value from counter and update internal state. `token` stands
    /// for the caller.
    fn next(&self, token: u64) -> usize;
}

/// A counter on a bitonic network: output `k` of the network holds a bucket
/// that begins with `k`.
pub struct BitonicCountingNetwork(BitonicNetwork<CountingBucket>);

impl View for BitonicCountingNetwork {
    type V = NetworkView<CountingBucket>;

    /// What the network underneath is made of.
    closed spec fn view(&self) -> NetworkView<CountingBucket> {
        self.0@
    }
}

impl BitonicCountingNetwork {
    /// The number of wires.
    pub closed spec fn spec_width(&self) -> usize {
        self.0.spec_width()
    }

    /// The network underneath is the bitonic network of its width, a power
    /// of two, and its buckets are numbered. This holds of every counter.
    #[verifier::type_invariant]
    pub open spec fn wf(&self) -> bool {
        &&& is_power_of_two(self.spec_width() as nat)
        &&& self@.wired(self.spec_width(), bitonic_schedule(0, self.spec_width()))
        &&& numbered(self@)
    }

    /// Create a new counter with specified width, which must be a power of
    /// two.
    ///
    /// Choice of width will not effect output of the counter, but higher
    /// values will ensure less contention among threads while accessing the
    /// counter at the cost of more memory.
    pub fn new(width: usize) -> (made: Result<Self, NetworkError>)
        ensures
            match made {
                Ok(counter) => is_power_of_two(width as nat) && counter.wf()
                    && counter.spec_width() == width,
                Err(NetworkError::NoOutputs) => width == 0,
                Err(NetworkError::UnsupportedWidth) => width > 0 && !is_power_of_two(
                    width as nat,
                ),
            },
    {
        if width == 0 {
            return Err(NetworkError::NoOutputs);
        }
        if !power_of_two(width) {
            return Err(NetworkError::UnsupportedWidth);
        }
        let mut outputs: Vec<CountingBucket> = Vec::new();
        let mut wire: usize = 0;
        while wire < width
            invariant
                wire <= width,
                outputs.len() == wire,
                forall|k: int| 0 <= k < wire ==> (#[trigger] outputs@[k]).starting_value() == k,
            decreases width - wire,
        {
            outputs.push(CountingBucket::new(wire));
            wire = wire + 1;
        }
        match BitonicNetwork::new(outputs) {
            Ok(network) => Ok(BitonicCountingNetwork(network)),
            Err(error) => Err(error),
        }
    }

    /// The bits of a new counter, one for each place of the arena of its
    /// network: every balancer points to its upper wire.
    pub fn toggles_at_rest(&self) -> (toggles: Vec<bool>)
        ensures
            self.wf(),
            toggles@ == self@.at_rest(),
    {
        proof {
            use_type_invariant(self);
        }
        self.0.toggles_at_rest()
    }

    /// How many values each bucket of a new counter has handed out: none.
    pub fn handed_out_at_rest(&self) -> (handed_out: Vec<usize>)
        ensures
            self.wf(),
            handed_out@.len() == self.spec_width(),
            forall|k: int| 0 <= k < handed_out@.len() ==> handed_out@[k] == 0,
    {
        proof {
            use_type_invariant(self);
        }
        let width: usize = self.0.width();
        let mut handed_out: Vec<usize> = Vec::new();
        let mut wire: usize = 0;
        while wire < width
            invariant
                wire <= width,
                handed_out.len() == wire,
                forall|k: int| 0 <= k < wire ==> handed_out@[k] == 0,
            decreases width - wire,
        {
            handed_out.push(0);
            wire = wire + 1;
        }
        handed_out
    }

    /// Hands out the next value as the counter does when the bits of its
    /// balancers are `toggles` and its buckets have handed out as many
    /// values as `handed_out` says: the token is walked to a bucket, and the
    /// value of that bucket is handed out. The bits of the balancers passed
    /// are flipped in `toggles`, and the bucket has handed out one value more
    /// in `handed_out`. The counter itself is left as it is: this is the
    /// counter at rest, with its state in the hands of the caller. Every
    /// bucket must be able to move on once more without passing the greatest
    /// number.
    pub fn next_with(
        &self,
        token: u64,
        toggles: &mut Vec<bool>,
        handed_out: &mut Vec<usize>,
    ) -> (value: usize)
        requires
            old(toggles).len() == self@.segments.len(),
            old(handed_out).len() == self.spec_width(),
            forall|k: int|
                0 <= k < old(handed_out).len() ==> k + ((#[trigger] old(handed_out)@[k]) + 1)
                    * self.spec_width() <= usize::MAX,
        ensures
            self.wf(),
            exit_of(self@.segments, old(toggles)@, self@.entries[self@.slot(token)])
                < self.spec_width(),
            value == bucket_value(
                self@.outputs[exit_of(
                    self@.segments,
                    old(toggles)@,
                    self@.entries[self@.slot(token)],
                ) as int],
                self.spec_width() as int,
                old(handed_out)@[exit_of(
                    self@.segments,
                    old(toggles)@,
                    self@.entries[self@.slot(token)],
                ) as int] as int,
            ),
            final(toggles)@ == flipped_by(
                self@.segments,
                old(toggles)@,
                self@.entries[self@.slot(token)],
            ),
            final(toggles).len() == old(toggles).len(),
            final(handed_out)@ == old(handed_out)@.update(
                exit_of(self@.segments, old(toggles)@, self@.entries[self@.slot(token)]) as int,
                (old(handed_out)@[exit_of(
                    self@.segments,
                    old(toggles)@,
                    self@.entries[self@.slot(token)],
                ) as int] + 1) as usize,
            ),
    {
        proof {
            use_type_invariant(self);
        }
        let width: usize = self.0.width();
        let bucket: usize = self.0.exit_with(token, toggles);
        let before: usize = handed_out[bucket];
        assert(bucket + (before + 1) * width <= usize::MAX);
        assert(before * width <= (before + 1) * width) by (nonlinear_arith)
            requires
                width >= 0,
        ;
        assert(before + 1 <= (before + 1) * width) by (nonlinear_arith)
            requires
                width >= 1,
                before >= 0,
        ;
        let value: usize = bucket + before * width;
        handed_out[bucket] = before + 1;
        assert(self@.outputs[bucket as int].starting_value() == bucket);
        value
    }

    /// Returns the output width of the internal bitonic network.
    #[verifier::when_used_as_spec(spec_width)]
    pub fn width(&self) -> (width: usize)
        ensures
            width == self.spec_width(),
            self.wf(),
    {
        proof {
            use_type_invariant(self);
        }
        self.0.width()
    }
}

impl Counter for BitonicCountingNetwork {
    fn next(&self, token: u64) -> usize {
        let bucket = self.0.traverse(token);
        bucket.fetch_then_add(self.0.width())
    }
}

} // verus!
