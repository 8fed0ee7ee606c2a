use vstd::prelude::*;

use crate::pow10;
use crate::spec_number_len;

verus! {

// --- byte classification -------------------------------------------------

/// ASCII whitespace: space, tab, line feed, form feed, carriage return.
pub open spec fn is_ascii_space(b: u8) -> bool {
    b == 32 || b == 9 || b == 10 || b == 12 || b == 13
}

/// A byte that may start a bare word: a letter or an underscore.
pub open spec fn is_word_start(b: u8) -> bool {
    (65 <= b <= 90) || (97 <= b <= 122) || b == 95
}

/// A byte that may stand inside a bare word: anything but whitespace,
/// NUL and the semicolon.
pub open spec fn is_word_byte(b: u8) -> bool {
    !is_ascii_space(b) && b != 0 && b != 59
}

/// A byte that may stand inside an unquoted run of punctuation:
/// a word byte that is not a double quote.
pub open spec fn is_illegal_byte(b: u8) -> bool {
    is_word_byte(b) && b != 34
}

/// An ASCII decimal digit.
pub open spec fn is_digit(b: u8) -> bool {
    48 <= b <= 57
}

pub open spec fn all_digits(s: Seq<u8>) -> bool {
    forall|i: int| 0 <= i < s.len() ==> is_digit(#[trigger] s[i])
}

pub fn byte_is_ascii_space(b: u8) -> (r: bool)
    ensures
        r == is_ascii_space(b),
{
    b == 32 || b == 9 || b == 10 || b == 12 || b == 13
}

pub fn byte_is_word_start(b: u8) -> (r: bool)
    ensures
        r == is_word_start(b),
{
    (65 <= b && b <= 90) || (97 <= b && b <= 122) || b == 95
}

pub fn byte_is_word_byte(b: u8) -> (r: bool)
    ensures
        r == is_word_byte(b),
{
    !byte_is_ascii_space(b) && b != 0 && b != 59
}

pub fn byte_is_illegal_byte(b: u8) -> (r: bool)
    ensures
        r == is_illegal_byte(b),
{
    byte_is_word_byte(b) && b != 34
}

pub fn byte_is_digit(b: u8) -> (r: bool)
    ensures
        r == is_digit(b),
{
    48 <= b && b <= 57
}

// --- ASCII lowercasing ---------------------------------------------------

/// The ASCII lowercase form of one byte.
pub open spec fn spec_lower(b: u8) -> u8 {
    if 65 <= b <= 90 {
        (b + 32) as u8
    } else {
        b
    }
}

/// The ASCII lowercase form of a byte string.
pub open spec fn spec_lower_seq(s: Seq<u8>) -> Seq<u8> {
    s.map_values(|b: u8| spec_lower(b))
}

pub fn lower_byte(b: u8) -> (r: u8)
    ensures
        r == spec_lower(b),
{
    if 65 <= b && b <= 90 {
        b + 32
    } else {
        b
    }
}

pub fn lower_bytes(s: &Vec<u8>) -> (r: Vec<u8>)
    ensures
        r@ == spec_lower_seq(s@),
{
    let mut out: Vec<u8> = Vec::new();
    let mut i: usize = 0;
    while i < s.len()
        invariant
            i <= s@.len(),
            out@ == spec_lower_seq(s@.take(i as int)),
        decreases s@.len() - i,
    {
        out.push(lower_byte(s[i]));
        proof {
            assert(spec_lower_seq(s@.take(i + 1)) =~= spec_lower_seq(s@.take(i as int)).push(
                spec_lower(s@[i as int]),
            ));
        }
        i = i + 1;
    }
    proof {
        assert(s@.take(s@.len() as int) =~= s@);
    }
    out
}

// --- vector building -----------------------------------------------------

/// Append every byte of `src` to `dst`.
pub fn push_all(dst: &mut Vec<u8>, src: &Vec<u8>)
    ensures
        final(dst)@ == old(dst)@ + src@,
{
    let mut i: usize = 0;
    while i < src.len()
        invariant
            i <= src@.len(),
            dst@ == old(dst)@ + src@.take(i as int),
        decreases src@.len() - i,
    {
        dst.push(src[i]);
        proof {
            assert(old(dst)@ + src@.take(i + 1) =~= (old(dst)@ + src@.take(i as int)).push(
                src@[i as int],
            ));
        }
        i = i + 1;
    }
    proof {
        assert(old(dst)@ + src@.take(src@.len() as int) =~= old(dst)@ + src@);
    }
}

/// Whether two byte strings hold the same bytes.
pub fn bytes_eq(a: &Vec<u8>, b: &Vec<u8>) -> (r: bool)
    ensures
        r == (a@ == b@),
{
    if a.len() != b.len() {
        return false;
    }
    let mut i: usize = 0;
    while i < a.len()
        invariant
            a@.len() == b@.len(),
            i <= a@.len(),
            forall|j: int| 0 <= j < i ==> a@[j] == b@[j],
        decreases a@.len() - i,
    {
        if a[i] != b[i] {
            return false;
        }
        i = i + 1;
    }
    proof {
        assert(a@ =~= b@);
    }
    true
}

// --- decimal digits ------------------------------------------------------

/// The decimal digits of `n`, most significant first.
pub open spec fn spec_digits(n: nat) -> Seq<u8>
    decreases n,
{
    if n < 10 {
        seq![(48 + n) as u8]
    } else {
        spec_digits(n / 10).push((48 + n % 10) as u8)
    }
}

/// The number that a string of decimal digits denotes.
pub open spec fn spec_digits_value(s: Seq<u8>) -> int
    decreases s.len(),
{
    if s.len() == 0 {
        0
    } else {
        spec_digits_value(s.drop_last()) * 10 + (s.last() - 48)
    }
}

pub proof fn lemma_digits_wf(n: nat)
    ensures
        spec_digits(n).len() == spec_number_len(n),
        all_digits(spec_digits(n)),
    decreases n,
{
    if n < 10 {
    } else {
        lemma_digits_wf(n / 10);
    }
}

/// Rendering a number as digits and reading the digits back is the identity.
pub proof fn lemma_digits_value(n: nat)
    ensures
        spec_digits_value(spec_digits(n)) == n,
    decreases n,
{
    if n < 10 {
        let s = spec_digits(n);
        assert(s == seq![(48 + n) as u8]);
        assert(s.drop_last() =~= Seq::<u8>::empty());
        assert(spec_digits_value(s.drop_last()) == 0);
        assert(s.last() == (48 + n) as u8);
    } else {
        lemma_digits_value(n / 10);
        assert(spec_digits(n) == spec_digits(n / 10).push((48 + n % 10) as u8));
        assert(spec_digits(n).drop_last() =~= spec_digits(n / 10));
        assert(spec_digits(n).last() == (48 + n % 10) as u8);
        assert(n % 10 < 10);
        assert((48 + n % 10) as u8 - 48 == n % 10);
        assert(spec_digits_value(spec_digits(n)) == (n / 10) * 10 + n % 10);
        assert((n / 10) * 10 + n % 10 == n);
    }
}

/// A digit string denotes no less than any of its prefixes.
pub proof fn lemma_digits_value_prefix_le(s: Seq<u8>, j: int)
    requires
        all_digits(s),
        0 <= j <= s.len(),
    ensures
        spec_digits_value(s.take(j)) <= spec_digits_value(s),
        spec_digits_value(s) >= 0,
    decreases s.len(),
{
    if s.len() == 0 {
        assert(s.take(j) =~= s);
    } else {
        assert(all_digits(s.drop_last()));
        lemma_digits_value_prefix_le(s.drop_last(), if j <= s.len() - 1 { j } else { s.len() - 1 });
        if j <= s.len() - 1 {
            assert(s.take(j) =~= s.drop_last().take(j));
        } else {
            assert(s.take(j) =~= s);
        }
    }
}

/// The decimal form of `n`, as ASCII digits.
pub fn render_digits(n: usize) -> (r: Vec<u8>)
    ensures
        r@ == spec_digits(n as nat),
{
    let mut rev: Vec<u8> = Vec::new();
    let mut m = n;
    // collect the digits, least significant first
    while m >= 10
        invariant
            rev@.len() + spec_digits(m as nat).len() == spec_digits(n as nat).len(),
            forall|i: int|
                0 <= i < rev@.len() ==> #[trigger] rev@[i] == spec_digits(n as nat)[spec_digits(
                    n as nat,
                ).len() - 1 - i],
            spec_digits(m as nat) =~= spec_digits(n as nat).take(spec_digits(m as nat).len() as int),
        decreases m,
    {
        proof {
            assert(spec_digits(m as nat) == spec_digits((m / 10) as nat).push(
                (48 + m % 10) as u8,
            ));
            assert(spec_digits((m / 10) as nat) =~= spec_digits(m as nat).drop_last());
            assert(spec_digits(m as nat).last() == 48 + m % 10);
        }
        rev.push(48 + (m % 10) as u8);
        m = m / 10;
    }
    rev.push(48 + (m % 10) as u8);
    proof {
        assert(m < 10);
        assert(spec_digits(m as nat) =~= seq![(48 + m % 10) as u8]);
        assert(spec_digits(m as nat)[0] == spec_digits(n as nat)[0]);
    }
    // reverse into most-significant-first order
    let mut out: Vec<u8> = Vec::new();
    let total = rev.len();
    let mut i: usize = 0;
    while i < total
        invariant
            total == rev@.len(),
            rev@.len() == spec_digits(n as nat).len(),
            i <= total,
            forall|k: int|
                0 <= k < rev@.len() ==> #[trigger] rev@[k] == spec_digits(n as nat)[spec_digits(
                    n as nat,
                ).len() - 1 - k],
            out@ =~= spec_digits(n as nat).take(i as int),
        decreases total - i,
    {
        out.push(rev[total - 1 - i]);
        proof {
            assert(spec_digits(n as nat).take(i + 1) =~= spec_digits(n as nat).take(
                i as int,
            ).push(spec_digits(n as nat)[i as int]));
        }
        i = i + 1;
    }
    proof {
        assert(spec_digits(n as nat).take(spec_digits(n as nat).len() as int) =~= spec_digits(
            n as nat,
        ));
    }
    out
}

/// Read the decimal number written in `v` from byte `from` to the end.
///
/// Returns `None` when the run is empty, holds a byte that is no digit,
/// or denotes a number that does not fit a machine word.
pub fn parse_digits(v: &Vec<u8>, from: usize) -> (r: Option<usize>)
    requires
        from <= v@.len(),
    ensures
        ({
            let s = v@.skip(from as int);
            match r {
                Some(value) => s.len() > 0 && all_digits(s) && spec_digits_value(s)
                    == value as int,
                None => s.len() == 0 || !all_digits(s) || spec_digits_value(s) > usize::MAX,
            }
        }),
{
    let ghost s = v@.skip(from as int);
    if from == v.len() {
        return None;
    }
    let mut value: usize = 0;
    let mut i: usize = from;
    while i < v.len()
        invariant
            from <= i <= v@.len(),
            s == v@.skip(from as int),
            all_digits(s.take(i - from)),
            value == spec_digits_value(s.take(i - from)),
        decreases v@.len() - i,
    {
        let b = v[i];
        proof {
            assert(s[i - from] == v@[i as int]);
        }
        if !byte_is_digit(b) {
            proof {
                assert(!all_digits(s));
            }
            return None;
        }
        let d = (b - 48) as usize;
        proof {
            assert(s.take(i - from + 1) =~= s.take(i - from).push(b));
            assert(s.take(i - from + 1).drop_last() =~= s.take(i - from));
        }
        if value > (usize::MAX - d) / 10 {
            proof {
                assert(value * 10 + d > usize::MAX) by (nonlinear_arith)
                    requires
                        value > (usize::MAX - d) / 10,
                        d <= 9,
                        value >= 0,
                ;
                assert(spec_digits_value(s.take(i - from + 1)) > usize::MAX);
                if all_digits(s) {
                    lemma_digits_value_prefix_le(s, i - from + 1);
                }
            }
            return None;
        }
        proof {
            assert(value * 10 + d <= usize::MAX) by (nonlinear_arith)
                requires
                    value <= (usize::MAX - d) / 10,
                    d <= 9,
                    value >= 0,
            ;
        }
        value = value * 10 + d;
        i = i + 1;
    }
    proof {
        assert(s.take(v@.len() - from) =~= s);
    }
    Some(value)
}

/// A fresh byte string with the same bytes as `v`.
pub fn copy_bytes(v: &Vec<u8>) -> (r: Vec<u8>)
    ensures
        r@ == v@,
{
    let mut out: Vec<u8> = Vec::new();
    push_all(&mut out, v);
    proof {
        assert(out@ =~= v@);
    }
    out
}

/// The bytes of `v` from `start` (inclusive) to `end` (exclusive).
pub fn sub_bytes(v: &Vec<u8>, start: usize, end: usize) -> (r: Vec<u8>)
    requires
        start <= end <= v@.len(),
    ensures
        r@ == v@.subrange(start as int, end as int),
{
    let mut out: Vec<u8> = Vec::new();
    let mut k = start;
    while k < end
        invariant
            start <= k <= end <= v@.len(),
            out@ == v@.subrange(start as int, k as int),
        decreases end - k,
    {
        out.push(v[k]);
        proof {
            assert(v@.subrange(start as int, k + 1) =~= v@.subrange(start as int, k as int).push(
                v@[k as int],
            ));
        }
        k = k + 1;
    }
    out
}

} // verus!



