//! Small helpers: powers of two, layer counts and wire selections.
use core::ops::Range;
use vstd::prelude::*;

verus! {

/// Whether `n` is a power of two. Zero is none.
pub open spec fn is_power_of_two(n: nat) -> bool
    decreases n,
{
    n == 1 || (n > 1 && n % 2 == 0 && is_power_of_two(n / 2))
}

/// The number of times `n` can be halved before it reaches one.
pub open spec fn log2_floor(n: nat) -> nat
    decreases n,
{
    if n <= 1 {
        0
    } else {
        1 + log2_floor(n / 2)
    }
}

/// The depth of a bitonic network of width `width`: with `d` the logarithm
/// of the width, `d * (d + 1) / 2` layers.
pub open spec fn layer_count(width: nat) -> nat {
    log2_floor(width) * (log2_floor(width) + 1) / 2
}

/// The logarithm of a machine integer is below its number of bits.
pub proof fn lemma_log2_floor_bound(n: nat, bits: nat)
    requires
        n < vstd::arithmetic::power2::pow2(bits),
    ensures
        log2_floor(n) <= bits,
        n >= 1 ==> log2_floor(n) < bits || bits == 0,
    decreases n,
{
    vstd::arithmetic::power2::lemma2_to64();
    if n > 1 {
        if bits == 0 {
        } else {
            vstd::arithmetic::power2::lemma_pow2_unfold(bits);
            lemma_log2_floor_bound(n / 2, (bits - 1) as nat);
        }
    }
}

/// A power of two above two is a multiple of four, and its half is a power
/// of two again.
pub proof fn lemma_power_of_two_halves(width: nat)
    requires
        is_power_of_two(width),
        width >= 2,
    ensures
        width % 2 == 0,
        is_power_of_two(width / 2),
        width > 2 ==> width % 4 == 0 && width / 2 >= 2,
{
    if width > 2 {
        assert(is_power_of_two(width / 2));
        assert(width / 2 > 1);
    }
}

/// Decides whether `n` is a power of two.
pub fn power_of_two(n: usize) -> (yes: bool)
    ensures
        yes == is_power_of_two(n as nat),
{
    if n == 0 {
        return false;
    }
    let mut rest: usize = n;
    while rest % 2 == 0
        invariant
            rest >= 1,
            is_power_of_two(rest as nat) == is_power_of_two(n as nat),
        decreases rest,
    {
        rest = rest / 2;
    }
    rest == 1
}

/// The logarithm of `n` to base two, rounded down; zero for zero.
pub fn log2(n: usize) -> (log: usize)
    ensures
        log == log2_floor(n as nat),
        log <= usize::BITS,
{
    let mut rest: usize = n;
    let mut log: usize = 0;
    proof {
        vstd::arithmetic::power2::lemma2_to64();
        vstd::arithmetic::power2::lemma2_to64_rest();
        lemma_log2_floor_bound(n as nat, usize::BITS as nat);
    }
    while rest > 1
        invariant
            log + log2_floor(rest as nat) == log2_floor(n as nat),
            log2_floor(n as nat) <= usize::BITS,
        decreases rest,
    {
        rest = rest / 2;
        log = log + 1;
    }
    log
}

/// The number of layers of a bitonic network of width `width`.
pub fn num_layers(width: usize) -> (layers: usize)
    ensures
        layers == layer_count(width as nat),
{
    let log: usize = log2(width);
    assert(log * (log + 1) <= 64 * 65) by (nonlinear_arith)
        requires
            log <= 64,
    ;
    log * (log + 1) / 2
}

/// The wires whose lowest bit is clear.
pub const E_COCHAIN: [usize; 1] = [0b0];

/// The wires whose lowest bit is set.
pub const O_COCHAIN: [usize; 1] = [0b1];

/// The wires whose two lowest bits are equal.
pub const A_COCHAIN: [usize; 2] = [0b00, 0b11];

/// The wires whose two lowest bits differ.
pub const B_COCHAIN: [usize; 2] = [0b01, 0b10];

/// The mask that keeps the lowest `bits` bits of a number.
pub open spec fn low_bits(bits: nat) -> usize {
    (vstd::arithmetic::power2::pow2(bits) - 1) as usize
}

/// `idx`, once for each of `prefixes` that its lowest bits are equal to.
pub open spec fn matches_of(idx: usize, mask: usize, prefixes: Seq<usize>) -> Seq<usize>
    decreases prefixes.len(),
{
    if prefixes.len() == 0 {
        Seq::empty()
    } else if idx & mask == prefixes.last() {
        matches_of(idx, mask, prefixes.drop_last()).push(idx)
    } else {
        matches_of(idx, mask, prefixes.drop_last())
    }
}

/// The numbers from `start` up to, but without, `end` whose lowest bits are
/// among `prefixes`, in rising order; a number is there once for each of
/// `prefixes` that it matches.
pub open spec fn cochain(start: usize, end: usize, mask: usize, prefixes: Seq<usize>) -> Seq<
    usize,
>
    decreases end - start,
{
    if start >= end {
        Seq::empty()
    } else {
        cochain(start, (end - 1) as usize, mask, prefixes) + matches_of(
            (end - 1) as usize,
            mask,
            prefixes,
        )
    }
}

/// Selects from `range` the numbers whose lowest bits, as many as there are
/// prefixes, are equal to one of `prefixes`.
pub fn generate_cochain(range: Range<usize>, prefixes: &[usize]) -> (output: Vec<usize>)
    requires
        prefixes.len() < usize::BITS,
    ensures
        output@ == cochain(range.start, range.end, low_bits(prefixes.len() as nat), prefixes@),
{
    proof {
        vstd::bits::lemma_usize_pow2_no_overflow(prefixes.len() as nat);
        vstd::bits::lemma_usize_shl_is_mul(1, prefixes.len());
    }
    let mask: usize = (1usize << prefixes.len()) - 1;

    let mut output: Vec<usize> = Vec::new();

    let mut idx: usize = range.start;
    while idx < range.end
        invariant
            range.start <= idx,
            idx <= range.end || range.start >= range.end,
            range.start >= range.end ==> idx == range.start,
            mask == low_bits(prefixes.len() as nat),
            output@ == cochain(range.start, idx, mask, prefixes@),
        decreases range.end - idx,
    {
        let ghost before = output@;
        let mut which: usize = 0;
        while which < prefixes.len()
            invariant
                which <= prefixes.len(),
                output@ == before + matches_of(idx, mask, prefixes@.subrange(0, which as int)),
            decreases prefixes.len() - which,
        {
            let prefix: usize = prefixes[which];
            assert(prefixes@.subrange(0, which + 1).drop_last() =~= prefixes@.subrange(
                0,
                which as int,
            ));
            if (idx & mask) == prefix {
                output.push(idx);
            }
            which = which + 1;
        }
        assert(prefixes@.subrange(0, which as int) =~= prefixes@);
        idx = idx + 1;
    }
    output
}

} // verus!
