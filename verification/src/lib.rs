//! The core of a small publish/subscribe message broker: the textual
//! command protocol (lexer, parser, serializer), the queue and group
//! registry, the round-robin dispatch rules with acknowledgement-based
//! flow control, and the frame length arithmetic. Everything here is
//! pure logic over byte strings and plain values; the TCP plumbing
//! around it lives outside the library and only moves bytes as these
//! rules direct.

use vstd::prelude::*;

pub mod error;
pub mod group;
pub mod lexer;
pub mod message_queue;
pub mod parser;
pub mod server;
pub mod text;
pub mod token;
pub mod wire;

verus! {

/// Largest number of bytes one frame read may carry.
pub const BUFFER_SIZE: usize = 4096;

/// Byte length of the fixed part of a length-bearing message frame,
/// the text `message +l #`.
pub const BASE_MESSAGE_LEN: usize = 12;

/// How many ASCII digits the decimal form of `n` has.
pub open spec fn spec_number_len(n: nat) -> nat
    decreases n,
{
    if n < 10 {
        1
    } else {
        1 + spec_number_len(n / 10)
    }
}

/// 10 to the power `k`.
pub open spec fn pow10(k: nat) -> nat
    decreases k,
{
    if k == 0 {
        1
    } else {
        10 * pow10((k - 1) as nat)
    }
}

/// A number below `10^k` has at most `k` decimal digits.
pub proof fn lemma_number_len_bound(n: nat, k: nat)
    requires
        k >= 1,
        n < pow10(k),
    ensures
        spec_number_len(n) <= k,
    decreases k,
{
    if n < 10 {
    } else {
        assert(pow10(1) == 10) by {
            reveal_with_fuel(pow10, 2);
        }
        assert(k >= 2);
        assert(pow10(k) == 10 * pow10((k - 1) as nat));
        assert(n / 10 < pow10((k - 1) as nat)) by (nonlinear_arith)
            requires
                n < 10 * pow10((k - 1) as nat),
        ;
        lemma_number_len_bound(n / 10, (k - 1) as nat);
    }
}

/// Every machine-word number has at most 20 decimal digits.
pub proof fn lemma_number_len_usize(n: nat)
    requires
        n <= usize::MAX,
    ensures
        spec_number_len(n) <= 20,
{
    assert(pow10(20) == 100_000_000_000_000_000_000) by {
        reveal_with_fuel(pow10, 21);
    }
    lemma_number_len_bound(n, 20);
}

/// The number of ASCII digits in the decimal form of `number`.
pub fn number_len(number: usize) -> (r: usize)
    ensures
        r == spec_number_len(number as nat),
        1 <= r <= 20,
{
    proof {
        lemma_number_len_usize(number as nat);
    }
    let mut n = number;
    let mut len: usize = 1;
    while n >= 10
        invariant
            len >= 1,
            len - 1 + spec_number_len(n as nat) == spec_number_len(number as nat),
            spec_number_len(number as nat) <= 20,
        decreases n,
    {
        n = n / 10;
        len = len + 1;
    }
    len
}

/// A number is below 10 to the power of its own digit count.
pub proof fn lemma_number_len_upper(n: nat)
    ensures
        n < pow10(spec_number_len(n)),
    decreases n,
{
    if n < 10 {
        assert(pow10(1) == 10) by {
            reveal_with_fuel(pow10, 2);
        }
    } else {
        lemma_number_len_upper(n / 10);
        assert(pow10(spec_number_len(n)) == 10 * pow10(spec_number_len(n / 10)));
        assert(n < 10 * pow10(spec_number_len(n / 10))) by (nonlinear_arith)
            requires
                n / 10 < pow10(spec_number_len(n / 10)),
                n / 10 >= 0,
                n == 10 * (n / 10) + n % 10,
                n % 10 < 10,
        ;
    }
}

/// Digit counts never shrink as the number grows.
pub proof fn lemma_number_len_mono(a: nat, b: nat)
    requires
        a <= b,
    ensures
        spec_number_len(a) <= spec_number_len(b),
    decreases b,
{
    if b < 10 {
    } else if a < 10 {
        assert(spec_number_len(b) >= 1);
    } else {
        assert(a / 10 <= b / 10) by (nonlinear_arith)
            requires
                a <= b,
                a >= 0,
        ;
        lemma_number_len_mono(a / 10, b / 10);
    }
}

/// 10 to the power `k` outgrows `k` itself by more than five.
pub proof fn lemma_pow10_gt(k: nat)
    requires
        k >= 1,
    ensures
        pow10(k) > k + 5,
    decreases k,
{
    if k == 1 {
        assert(pow10(1) == 10) by {
            reveal_with_fuel(pow10, 2);
        }
    } else {
        lemma_pow10_gt((k - 1) as nat);
    }
}

} // verus!

