//! What a merge and a bitonic network make of the numbers of tokens on
//! their wires.
//!
//! A token meets the balancers in the order in which they are emitted: a
//! bitonic network begins with its two halves and ends with its merge, and a
//! merge begins with its two smaller merges and ends with the balancers on
//! neighbouring wires. Here the wires of a merge or of a network are numbered
//! from zero as they stand in its list, and the numbers of tokens on them are
//! a list of the same length.
use crate::networks::schedule::{
    first_merge_wires, lemma_merge_parts, lower_half, second_merge_wires, upper_half,
};
use crate::util::{is_power_of_two, lemma_power_of_two_halves};
use vstd::prelude::*;

verus! {

/// What one balancer on each two neighbouring wires makes of the numbers of
/// tokens on the wires.
pub open spec fn balanced_pairs(counts: Seq<int>) -> Seq<int> {
    Seq::new(
        counts.len(),
        |k: int|
            if k % 2 == 0 {
                (counts[k] + counts[k + 1] + 1) / 2
            } else {
                (counts[k - 1] + counts[k]) / 2
            },
    )
}

/// Puts back together what the two smaller merges of a merge give: the
/// inverse of the selection of their wires.
pub open spec fn weave(first: Seq<int>, second: Seq<int>) -> Seq<int> {
    let half = first.len() as int;
    let quarter = half / 2;
    Seq::new(
        (2 * half) as nat,
        |v: int|
            if v < half {
                if v % 2 == 0 {
                    first[v / 2]
                } else {
                    second[v / 2]
                }
            } else if (v - half) % 2 == 0 {
                second[quarter + (v - half) / 2]
            } else {
                first[quarter + (v - half) / 2]
            },
    )
}

/// What a merge makes of the numbers of tokens on its wires, given in the
/// order of its wires: its two smaller merges work side by side, and the
/// balancers on neighbouring wires balance what they leave.
pub open spec fn merge_flow(counts: Seq<int>) -> Seq<int>
    decreases counts.len(),
{
    if counts.len() == 2 {
        balanced_pairs(counts)
    } else if counts.len() < 2 || counts.len() % 4 != 0 {
        counts
    } else {
        balanced_pairs(
            weave(
                merge_flow(first_merge_wires(counts)),
                merge_flow(second_merge_wires(counts)),
            ),
        )
    }
}

/// What a bitonic network makes of the numbers of tokens on its wires: its
/// two halves work side by side, and its merge joins what they leave.
pub open spec fn bitonic_flow(counts: Seq<int>) -> Seq<int>
    decreases counts.len(),
{
    if counts.len() < 2 {
        counts
    } else {
        merge_flow(bitonic_flow(upper_half(counts)) + bitonic_flow(lower_half(counts)))
    }
}

/// The numbers fall from wire to wire, by one at most in all: the step
/// property.
pub open spec fn is_step(counts: Seq<int>) -> bool {
    forall|a: int, b: int|
        0 <= a < b < counts.len() ==> (#[trigger] counts[b]) <= (#[trigger] counts[a])
            && counts[a] <= counts[b] + 1
}

/// The numbers of tokens on all the wires, added up.
pub open spec fn total(counts: Seq<int>) -> int
    decreases counts.len(),
{
    if counts.len() == 0 {
        0
    } else {
        total(counts.drop_last()) + counts.last()
    }
}

/// The tokens on two lists of wires are those on the one and those on the
/// other.
pub proof fn lemma_total_concat(first: Seq<int>, then: Seq<int>)
    ensures
        total(first + then) == total(first) + total(then),
    decreases then.len(),
{
    if then.len() == 0 {
        assert(first + then =~= first);
    } else {
        assert((first + then).drop_last() =~= first + then.drop_last());
        assert((first + then).last() == then.last());
        lemma_total_concat(first, then.drop_last());
    }
}

/// One more token on a wire is one more token in all.
pub proof fn lemma_total_grows(counts: Seq<int>, wire: int)
    requires
        0 <= wire < counts.len(),
    ensures
        total(counts.update(wire, counts[wire] + 1)) == total(counts) + 1,
    decreases counts.len(),
{
    let more = counts.update(wire, counts[wire] + 1);
    if wire == counts.len() - 1 {
        assert(more.drop_last() =~= counts.drop_last());
    } else {
        assert(more.drop_last() =~= counts.drop_last().update(wire, counts[wire] + 1));
        lemma_total_grows(counts.drop_last(), wire);
    }
}

/// Of the tokens numbered `0, 1, .., tokens - 1`, how many have a number
/// that leaves the remainder `wire` when divided by `width`.
pub open spec fn share(width: int, tokens: int, wire: int) -> int {
    (tokens + width - 1 - wire) / width
}

/// The numbers of tokens on the outputs of a counting network that `tokens`
/// tokens have passed: the token numbered `t` has left on wire `t % width`.
pub open spec fn step_counts(width: int, tokens: int) -> Seq<int> {
    Seq::new(width as nat, |wire: int| share(width, tokens, wire))
}

/// Halving both sides of a division leaves the quotient, and an odd
/// dividend gives the quotient of the even one below it.
proof fn lemma_div_double(m: int, h: int)
    requires
        h > 0,
    ensures
        (2 * m) / (2 * h) == m / h,
        (2 * m + 1) / (2 * h) == m / h,
{
    let d = m / h;
    let r = m % h;
    vstd::arithmetic::div_mod::lemma_fundamental_div_mod(m, h);
    vstd::arithmetic::div_mod::lemma_mod_bound(m, h);
    assert(2 * m == d * (2 * h) + 2 * r) by (nonlinear_arith)
        requires
            m == h * d + r,
    ;
    vstd::arithmetic::div_mod::lemma_fundamental_div_mod_converse(2 * m, 2 * h, d, 2 * r);
    vstd::arithmetic::div_mod::lemma_fundamental_div_mod_converse(2 * m + 1, 2 * h, d, 2 * r + 1);
}

/// Every second token of those that count for a wire: the even wires of a
/// width share the tokens with an even number, the odd wires the others.
pub proof fn lemma_share_halves(half: int, tokens: int, q: int)
    requires
        half > 0,
    ensures
        share(2 * half, tokens, 2 * q) == share(half, (tokens + 1) / 2, q),
        share(2 * half, tokens, 2 * q + 1) == share(half, tokens / 2, q),
{
    let up = (tokens + 1) / 2;
    let down = tokens / 2;
    lemma_div_double(up + half - 1 - q, half);
    lemma_div_double(down + half - 1 - q, half);
    if tokens % 2 == 0 {
        assert(tokens + 2 * half - 1 - 2 * q == 2 * (up + half - 1 - q) + 1);
        assert(tokens + 2 * half - 1 - (2 * q + 1) == 2 * (down + half - 1 - q));
    } else {
        assert(tokens + 2 * half - 1 - 2 * q == 2 * (up + half - 1 - q));
        assert(tokens + 2 * half - 1 - (2 * q + 1) == 2 * (down + half - 1 - q) + 1);
    }
}

/// The shares fall from wire to wire, by one at most in all.
pub proof fn lemma_share_falls(width: int, tokens: int, a: int, b: int)
    requires
        width > 0,
        0 <= a <= b < width,
    ensures
        share(width, tokens, b) <= share(width, tokens, a) <= share(width, tokens, b) + 1,
{
    let x = tokens + width - 1 - b;
    let y = tokens + width - 1 - a;
    vstd::arithmetic::div_mod::lemma_div_is_ordered(x, y, width);
    vstd::arithmetic::div_mod::lemma_div_is_ordered(y, x + width, width);
    vstd::arithmetic::div_mod::lemma_div_plus_one(x, width);
}

/// One more token goes to the wire whose turn it is.
pub proof fn lemma_share_next(width: int, tokens: int, wire: int)
    requires
        width > 0,
        0 <= wire < width,
    ensures
        share(width, tokens + 1, wire) == share(width, tokens, wire) + if wire == tokens % width {
            1int
        } else {
            0int
        },
        share(width, tokens, tokens % width) == tokens / width,
{
    let d = tokens / width;
    let r = tokens % width;
    vstd::arithmetic::div_mod::lemma_fundamental_div_mod(tokens, width);
    vstd::arithmetic::div_mod::lemma_mod_bound(tokens, width);
    // tokens == width * d + r
    if wire <= r {
        // tokens + width - 1 - wire == (d + 1) * width + (r - wire - 1)   when wire < r
        if wire < r {
            assert(tokens + width - 1 - wire == (d + 1) * width + (r - wire - 1))
                by (nonlinear_arith)
                requires
                    tokens == width * d + r,
            ;
            assert(tokens + 1 + width - 1 - wire == (d + 1) * width + (r - wire))
                by (nonlinear_arith)
                requires
                    tokens == width * d + r,
            ;
            vstd::arithmetic::div_mod::lemma_fundamental_div_mod_converse(
                tokens + width - 1 - wire,
                width,
                d + 1,
                r - wire - 1,
            );
            vstd::arithmetic::div_mod::lemma_fundamental_div_mod_converse(
                tokens + 1 + width - 1 - wire,
                width,
                d + 1,
                r - wire,
            );
        } else {
            assert(tokens + width - 1 - wire == d * width + (width - 1)) by (nonlinear_arith)
                requires
                    tokens == width * d + r,
                    wire == r,
            ;
            assert(tokens + 1 + width - 1 - wire == (d + 1) * width + 0) by (nonlinear_arith)
                requires
                    tokens == width * d + r,
                    wire == r,
            ;
            vstd::arithmetic::div_mod::lemma_fundamental_div_mod_converse(
                tokens + width - 1 - wire,
                width,
                d,
                width - 1,
            );
            vstd::arithmetic::div_mod::lemma_fundamental_div_mod_converse(
                tokens + 1 + width - 1 - wire,
                width,
                d + 1,
                0,
            );
        }
    } else {
        assert(tokens + width - 1 - wire == d * width + (width - 1 - wire + r))
            by (nonlinear_arith)
            requires
                tokens == width * d + r,
        ;
        assert(tokens + 1 + width - 1 - wire == d * width + (width - wire + r))
            by (nonlinear_arith)
            requires
                tokens == width * d + r,
        ;
        vstd::arithmetic::div_mod::lemma_fundamental_div_mod_converse(
            tokens + width - 1 - wire,
            width,
            d,
            width - 1 - wire + r,
        );
        vstd::arithmetic::div_mod::lemma_fundamental_div_mod_converse(
            tokens + 1 + width - 1 - wire,
            width,
            d,
            width - wire + r,
        );
    }
    assert(tokens + width - 1 - r == d * width + (width - 1)) by (nonlinear_arith)
        requires
            tokens == width * d + r,
    ;
    vstd::arithmetic::div_mod::lemma_fundamental_div_mod_converse(
        tokens + width - 1 - r,
        width,
        d,
        width - 1,
    );
}

/// With one more token no wire has fewer, and none has two more.
pub proof fn lemma_share_grows(width: int, tokens: int, wire: int)
    requires
        width > 0,
        0 <= wire < width,
    ensures
        share(width, tokens, wire) <= share(width, tokens + 1, wire) <= share(width, tokens, wire)
            + 1,
{
    lemma_share_next(width, tokens, wire);
}

/// Every second entry of numbers with the step property: the even places
/// hold the step property of one half of the tokens, rounded up, the odd
/// places that of the other half.
proof fn lemma_step_places(width: int, tokens: int)
    requires
        width >= 2,
        width % 2 == 0,
    ensures
        crate::networks::schedule::even_places(step_counts(width, tokens)) == step_counts(
            width / 2,
            (tokens + 1) / 2,
        ),
        crate::networks::schedule::odd_places(step_counts(width, tokens)) == step_counts(
            width / 2,
            tokens / 2,
        ),
{
    let half = width / 2;
    let steps = step_counts(width, tokens);
    let even = crate::networks::schedule::even_places(steps);
    let odd = crate::networks::schedule::odd_places(steps);
    assert forall|q: int| 0 <= q < half implies even[q] == share(half, (tokens + 1) / 2, q)
        && odd[q] == share(half, tokens / 2, q) by {
        lemma_share_halves(half, tokens, q);
    }
    assert(even =~= step_counts(half, (tokens + 1) / 2));
    assert(odd =~= step_counts(half, tokens / 2));
}

/// The balancers that end a merge. When its two smaller merges leave the
/// step property of two numbers of tokens that differ by one at most, the
/// balancers on neighbouring wires leave the step property of all the
/// tokens.
proof fn lemma_last_layer(half: int, first_tokens: int, second_tokens: int)
    requires
        half >= 2,
        half % 2 == 0,
        -1 <= first_tokens - second_tokens <= 1,
    ensures
        balanced_pairs(weave(step_counts(half, first_tokens), step_counts(half, second_tokens)))
            == step_counts(2 * half, first_tokens + second_tokens),
{
    let all = first_tokens + second_tokens;
    let first = step_counts(half, first_tokens);
    let second = step_counts(half, second_tokens);
    let woven = weave(first, second);
    let done = balanced_pairs(woven);
    let steps = step_counts(2 * half, all);
    let quarter = half / 2;
    assert forall|v: int| 0 <= v < 2 * half implies done[v] == steps[v] by {
        let k = v / 2;
        // the two wires of the balancer hold what the two smaller merges
        // left at the place `k`
        let sum = woven[2 * k] + woven[2 * k + 1];
        assert(sum == first[k] + second[k]) by {
            if 2 * k < half {
                assert(woven[2 * k] == first[k]);
                assert(woven[2 * k + 1] == second[k]);
            } else {
                assert(woven[2 * k] == second[quarter + (2 * k - half) / 2]);
                assert(woven[2 * k + 1] == first[quarter + (2 * k + 1 - half) / 2]);
            }
        }
        lemma_share_halves(half, all, k);
        let up = share(half, (all + 1) / 2, k);
        let down = share(half, all / 2, k);
        lemma_share_grows(half, all / 2, k);
        assert(first[k] + second[k] == up + down) by {
            if first_tokens == (all + 1) / 2 {
                assert(second_tokens == all / 2);
            } else {
                assert(first_tokens == all / 2);
                assert(second_tokens == (all + 1) / 2);
            }
        }
        if (all + 1) / 2 == all / 2 {
            assert(up == down);
        } else {
            assert((all + 1) / 2 == all / 2 + 1);
        }
        assert(down <= up <= down + 1);
        if v % 2 == 0 {
            assert(done[v] == (woven[v] + woven[v + 1] + 1) / 2);
        } else {
            assert(done[v] == (woven[v - 1] + woven[v]) / 2);
        }
    }
    assert(done =~= steps);
}

/// A merge joins two step properties into one. When the numbers of tokens
/// on the upper half of its wires and those on the lower half have the step
/// property, each half for itself, a merge leaves the step property of all
/// the tokens.
pub proof fn lemma_merge_counts(counts: Seq<int>, upper_tokens: int, lower_tokens: int)
    requires
        counts.len() >= 2,
        is_power_of_two(counts.len()),
        upper_half(counts) == step_counts((counts.len() / 2) as int, upper_tokens),
        lower_half(counts) == step_counts((counts.len() / 2) as int, lower_tokens),
    ensures
        merge_flow(counts) == step_counts(counts.len() as int, upper_tokens + lower_tokens),
    decreases counts.len(),
{
    lemma_power_of_two_halves(counts.len());
    let n = counts.len() as int;
    let half = n / 2;
    let all = upper_tokens + lower_tokens;
    let upper = upper_half(counts);
    let lower = lower_half(counts);
    if n == 2 {
        assert(counts[0] == upper[0]);
        assert(counts[1] == lower[0]);
        assert(upper[0] == share(1, upper_tokens, 0));
        assert(lower[0] == share(1, lower_tokens, 0));
        assert(balanced_pairs(counts) =~= step_counts(2, all));
    } else {
        let first = first_merge_wires(counts);
        let second = second_merge_wires(counts);
        lemma_merge_parts(counts);
        lemma_step_places(half, upper_tokens);
        lemma_step_places(half, lower_tokens);
        let first_tokens = (upper_tokens + 1) / 2 + lower_tokens / 2;
        let second_tokens = upper_tokens / 2 + (lower_tokens + 1) / 2;
        assert(upper_half(first) =~= crate::networks::schedule::even_places(upper));
        assert(lower_half(first) =~= crate::networks::schedule::odd_places(lower));
        assert(upper_half(second) =~= crate::networks::schedule::odd_places(upper));
        assert(lower_half(second) =~= crate::networks::schedule::even_places(lower));
        lemma_merge_counts(first, (upper_tokens + 1) / 2, lower_tokens / 2);
        lemma_merge_counts(second, upper_tokens / 2, (lower_tokens + 1) / 2);
        lemma_last_layer(half, first_tokens, second_tokens);
    }
}

/// A bitonic network counts. Whatever the numbers of tokens on its wires, it
/// leaves the step property of all the tokens: of `t` tokens, the one
/// numbered `n` leaves on wire `n % width`.
pub proof fn lemma_bitonic_counts(counts: Seq<int>)
    requires
        is_power_of_two(counts.len()),
    ensures
        bitonic_flow(counts) == step_counts(counts.len() as int, total(counts)),
    decreases counts.len(),
{
    let n = counts.len() as int;
    if n == 1 {
        assert(total(counts.drop_last()) == 0);
        assert(total(counts) == counts[0]);
        assert(counts =~= step_counts(1, total(counts)));
    } else {
        lemma_power_of_two_halves(counts.len());
        let upper = upper_half(counts);
        let lower = lower_half(counts);
        lemma_bitonic_counts(upper);
        lemma_bitonic_counts(lower);
        assert(upper + lower =~= counts);
        lemma_total_concat(upper, lower);
        let halves = bitonic_flow(upper) + bitonic_flow(lower);
        assert(upper_half(halves) =~= bitonic_flow(upper));
        assert(lower_half(halves) =~= bitonic_flow(lower));
        lemma_merge_counts(halves, total(upper), total(lower));
    }
}

} // verus!
