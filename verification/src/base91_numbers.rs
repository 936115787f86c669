//! Texts and bytes as numbers: a text and the bytes that it stands for are the same number, the
//! one in digits of 91, the other in digits of 256.
use crate::base91::{
    alphabet, decoded, digits, digits_of, encoded, last_digits, lemma_chunk, lemma_digits_small,
    lemma_index_of, lemma_join, lemma_low_bytes_add, lemma_low_bytes_split, lemma_next_byte,
    lemma_rest, low_bytes, power, undigits, width,
};
use vstd::arithmetic::div_mod::*;
use vstd::arithmetic::mul::*;
use vstd::arithmetic::power2::{lemma2_to64, lemma_pow2_adds, lemma_pow2_pos, pow2};
use vstd::prelude::*;

verus! {

/// The number that digits from zero to 90 stand for: two of them give 13 bits, or 14 where the
/// low 13 bits are 88 at most, and a last one on its own gives its value.
spec fn number_of(ds: Seq<int>) -> int
    decreases ds.len(),
{
    if ds.len() == 0 {
        0
    } else if ds.len() == 1 {
        ds[0]
    } else {
        let v = ds[0] + 91 * ds[1];
        v + power(width(v)) * number_of(ds.skip(2))
    }
}

/// The number of bits that the pairs of digits give.
spec fn bits_of(ds: Seq<int>) -> int
    decreases ds.len(),
{
    if ds.len() <= 1 {
        0
    } else {
        width(ds[0] + 91 * ds[1]) + bits_of(ds.skip(2))
    }
}

/// Whether all digits are from zero to 90.
spec fn are_digits(ds: Seq<int>) -> bool {
    forall|i: int| 0 <= i < ds.len() ==> 0 <= #[trigger] ds[i] < 91
}

/// The number that bytes stand for, the first one in the lowest bits.
spec fn number_of_bytes(bytes: Seq<u8>) -> int
    decreases bytes.len(),
{
    if bytes.len() == 0 {
        0
    } else {
        bytes[0] + 256 * number_of_bytes(bytes.drop_first())
    }
}

proof fn lemma_number_of(ds: Seq<int>)
    requires
        are_digits(ds),
    ensures
        0 <= number_of(ds),
        0 <= bits_of(ds),
    decreases ds.len(),
{
    if ds.len() > 1 {
        let v = ds[0] + 91 * ds[1];
        let rest = ds.skip(2);
        assert forall|i: int| 0 <= i < rest.len() implies 0 <= #[trigger] rest[i] < 91 by {
            assert(rest[i] == ds[i + 2]);
        }
        assert(0 <= ds[0] && 0 <= ds[1]);
        lemma_number_of(rest);
        lemma_mul_nonnegative(power(width(v)), number_of(rest));
    } else if ds.len() == 1 {
        assert(0 <= ds[0]);
    }
}

/// The pairs of digits are read one after the other, each above the bits of those before it.
proof fn lemma_pairs(
    ds: Seq<int>,
    position: spec_fn(int) -> int,
    number: spec_fn(int) -> int,
    j: int,
)
    requires
        are_digits(ds),
        0 <= 2 * j <= ds.len(),
        position(0) == 0,
        number(0) == 0,
        forall|i: int|
            0 <= i && 2 * i + 1 < ds.len() ==> #[trigger] position(i + 1) == position(i) + width(
                ds[2 * i] + 91 * ds[2 * i + 1],
            ),
        forall|i: int|
            0 <= i && 2 * i + 1 < ds.len() ==> #[trigger] number(i + 1) == number(i) + (ds[2 * i]
                + 91 * ds[2 * i + 1]) * pow2(position(i) as nat),
    ensures
        0 <= position(j),
        0 <= number(j),
        number_of(ds) == number(j) + pow2(position(j) as nat) * number_of(ds.skip(2 * j)),
        bits_of(ds) == position(j) + bits_of(ds.skip(2 * j)),
    decreases j,
{
    lemma2_to64();
    if j == 0 {
        assert(ds.skip(0) =~= ds);
        assert(pow2(0) * number_of(ds) == number_of(ds));
    } else {
        let i = j - 1;
        lemma_pairs(ds, position, number, i);
        let here = ds.skip(2 * i);
        assert(here[0] == ds[2 * i] && here[1] == ds[2 * i + 1]);
        assert(here.skip(2) =~= ds.skip(2 * j));
        let v = ds[2 * i] + 91 * ds[2 * i + 1];
        assert(0 <= ds[2 * i] && 0 <= ds[2 * i + 1]);
        let p = pow2(position(i) as nat) as int;
        let (s, r) = (power(width(v)), number_of(ds.skip(2 * j)));
        assert(position(i + 1) == position(i) + width(v));
        lemma_pow2_adds(position(i) as nat, width(v) as nat);
        assert(number(i + 1) == number(i) + v * p);
        lemma_pow2_pos(position(i) as nat);
        lemma_mul_nonnegative(v, p);
        assert(p * (v + s * r) == v * p + (p * s) * r) by (nonlinear_arith);
    }
}

/// The low bytes of a number, one by one.
proof fn lemma_low_byte(v: int, n: int, i: int)
    requires
        0 <= v,
        0 <= i < n,
    ensures
        low_bytes(v, n).len() == n,
        low_bytes(v, n)[i] == v / (pow2((8 * i) as nat) as int) % 256,
    decreases n,
{
    lemma2_to64();
    let rest = low_bytes(v / 256, n - 1);
    assert(low_bytes(v, n) == seq![(v % 256) as u8] + rest);
    lemma_low_bytes_len(v / 256, n - 1);
    if i > 0 {
        lemma_low_byte(v / 256, n - 1, i - 1);
        lemma_pow2_adds(8, (8 * (i - 1)) as nat);
        lemma_pow2_pos((8 * (i - 1)) as nat);
        lemma_div_denominator(v, 256, pow2((8 * (i - 1)) as nat) as int);
        assert(low_bytes(v, n)[i] == rest[i - 1]);
        assert(pow2((8 * i) as nat) == 256 * pow2((8 * (i - 1)) as nat));
    } else {
        assert(v / 1 == v);
    }
}

proof fn lemma_low_bytes_len(v: int, n: int)
    requires
        0 <= n,
    ensures
        low_bytes(v, n).len() == n,
    decreases n,
{
    if n > 0 {
        lemma_low_bytes_len(v / 256, n - 1);
    }
}

/// Digits are read to the whole bytes of the number that they stand for, above the bits that are
/// there; a last digit on its own gives one byte more.
#[verifier::spinoff_prover]
proof fn lemma_undigits(ds: Seq<int>, b: int, n: int)
    requires
        are_digits(ds),
        0 <= n < 8,
        0 <= b < power(n),
    ensures
        undigits(ds, b, n) == low_bytes(
            b + power(n) * number_of(ds),
            (n + bits_of(ds)) / 8 + ds.len() as int % 2,
        ),
    decreases ds.len(),
{
    if ds.len() == 0 {
        assert(power(n) * 0 == 0);
    } else if ds.len() == 1 {
        assert(power(n) * ds[0] == ds[0] * power(n)) by (nonlinear_arith);
    } else {
        let v = ds[0] + 91 * ds[1];
        let s = width(v);
        let all = b + v * power(n);
        let count = (n + s) / 8;
        let rest = ds.skip(2);
        let (left, r) = (n + s - 8 * count, number_of(rest));
        assert forall|i: int| 0 <= i < rest.len() implies 0 <= #[trigger] rest[i] < 91 by {
            assert(rest[i] == ds[i + 2]);
        }
        assert(0 <= ds[0] < 91 && 0 <= ds[1] < 91);
        lemma_number_of(rest);
        lemma_join(b, n, v);
        lemma_rest(all, n + s, count);
        let low = all / power(8 * count);
        lemma_undigits(rest, low, left);
        let bytes = (left + bits_of(rest)) / 8 + rest.len() as int % 2;
        lemma_pow2_adds(n as nat, s as nat);
        lemma_pow2_adds(left as nat, (8 * count) as nat);
        lemma_pow2_pos((8 * count) as nat);
        lemma_pow2_pos(left as nat);
        let high = power(left) * r;
        lemma_mul_nonnegative(power(left), r);
        let whole = b + power(n) * number_of(ds);
        lemma_read_pair(b, v, power(n), power(s), power(left), power(8 * count), r);
        assert(whole == all + high * power(8 * count));
        lemma_low_bytes_split(whole, count, bytes);
        lemma_low_bytes_add(all, count, high);
        lemma_multiple_above(all, high, power(8 * count));
        assert((n + bits_of(ds)) / 8 == count + (left + bits_of(rest)) / 8);
        assert(undigits(ds, b, n) == low_bytes(all, count) + undigits(rest, low, (n + s) % 8));
    }
}

/// The products in a number of which a pair of digits is read.
proof fn lemma_read_pair(b: int, v: int, n: int, s: int, left: int, bytes: int, r: int)
    requires
        n * s == left * bytes,
    ensures
        b + n * (v + s * r) == b + v * n + (left * r) * bytes,
{
    assert(n * (v + s * r) == v * n + (n * s) * r) by (nonlinear_arith);
    assert((left * bytes) * r == (left * r) * bytes) by (nonlinear_arith);
}

/// A multiple of the divisor adds its factor to a quotient.
proof fn lemma_multiple_above(low: int, factor: int, d: int)
    requires
        0 <= low,
        0 < d,
    ensures
        (low + factor * d) / d == low / d + factor,
{
    lemma_fundamental_div_mod(low, d);
    lemma_mod_bound(low, d);
    assert(low + factor * d == (low / d + factor) * d + low % d) by (nonlinear_arith)
        requires
            low == d * (low / d) + low % d,
    ;
    lemma_fundamental_div_mod_converse(low + factor * d, d, low / d + factor, low % d);
}

/// What is written for bytes above bits that are there: digits for the same number, enough for
/// all bits, and no more than are needed.
#[verifier::spinoff_prover]
proof fn lemma_digits(bytes: Seq<u8>, b: int, n: int)
    requires
        0 <= n <= 13,
        0 <= b < power(n),
    ensures
        ({
            let ds = digits(bytes, b, n);
            let bits = n + 8 * bytes.len();
            let last = ds[ds.len() - 2] + 91 * ds[ds.len() - 1];
            &&& number_of(ds) == b + power(n) * number_of_bytes(bytes)
            &&& ds.len() % 2 == 0 ==> bits <= bits_of(ds)
            &&& ds.len() % 2 == 1 ==> bits_of(ds) < bits <= bits_of(ds) + 7
            &&& ds.len() % 2 == 0 && ds.len() > 0 ==> {
                &&& bits_of(ds) - width(last) < bits
                &&& bits <= bits_of(ds) - width(last) + 7 ==> last > 90
            }
        }),
    decreases bytes.len(),
{
    lemma2_to64();
    lemma_digits_small(bytes, b, n);
    let ds = digits(bytes, b, n);
    if bytes.len() == 0 {
        lemma_last(b, n);
        assert(power(n) * 0 == 0);
    } else {
        let all = b + bytes[0] * power(n);
        let rest = bytes.drop_first();
        let r = number_of_bytes(rest);
        lemma_next_byte(b, n, bytes[0]);
        lemma_pow2_adds(n as nat, 8);
        let (p, byte) = (power(n), bytes[0] as int);
        assert(p * (byte + 256 * r) == byte * p + (p * 256) * r) by (nonlinear_arith);
        if n + 8 > 13 {
            let s = width(all);
            let v = all % power(s);
            lemma_chunk(all, n + 8);
            lemma_digits(rest, all / power(s), n + 8 - s);
            let tail = digits(rest, all / power(s), n + 8 - s);
            assert(ds == seq![v % 91, v / 91] + tail);
            assert(ds[0] + 91 * ds[1] == v);
            assert(ds.skip(2) =~= tail);
            lemma_pow2_adds(s as nat, (n + 8 - s) as nat);
            let (ps, pr, q) = (power(s), power(n + 8 - s), all / power(s));
            assert(ps * (q + pr * r) == ps * q + (ps * pr) * r) by (nonlinear_arith);
            if tail.len() >= 2 {
                assert(ds[ds.len() - 2] == tail[tail.len() - 2]);
                assert(ds[ds.len() - 1] == tail[tail.len() - 1]);
            } else if tail.len() == 0 {
                assert(bits_of(tail) == 0);
            }
        } else {
            lemma_digits(rest, all, n + 8);
            assert(ds == digits(rest, all, n + 8));
        }
    }
}

/// The last digits, for the bits that are left.
proof fn lemma_last(b: int, n: int)
    requires
        0 <= n <= 13,
        0 <= b < power(n),
    ensures
        ({
            let ds = last_digits(b, n);
            let last = ds[ds.len() - 2] + 91 * ds[ds.len() - 1];
            &&& number_of(ds) == b
            &&& ds.len() % 2 == 0 ==> n <= bits_of(ds)
            &&& ds.len() % 2 == 1 ==> bits_of(ds) < n <= bits_of(ds) + 7
            &&& ds.len() % 2 == 0 && ds.len() > 0 ==> {
                &&& bits_of(ds) - width(last) < n
                &&& n <= bits_of(ds) - width(last) + 7 ==> last > 90
            }
        }),
{
    lemma2_to64();
    let ds = last_digits(b, n);
    if n > 0 {
        if n > 7 || b > 90 {
            let rest = ds.skip(2);
            assert(ds[0] + 91 * ds[1] == b);
            assert(number_of(rest) == 0 && bits_of(rest) == 0);
            assert(power(width(b)) * 0 == 0);
        } else {
            assert(b % 91 == b);
        }
    }
}

/// The number that bytes stand for, summed up from the first to the last.
proof fn lemma_bytes_total(bytes: Seq<u8>, total: spec_fn(int) -> int, i: int)
    requires
        0 <= i <= bytes.len(),
        total(0) == 0,
        forall|k: int|
            0 <= k < bytes.len() ==> #[trigger] total(k + 1) == total(k) + bytes[k] * pow2(
                (8 * k) as nat,
            ),
    ensures
        number_of_bytes(bytes) == total(i) + pow2((8 * i) as nat) * number_of_bytes(bytes.skip(i)),
    decreases i,
{
    lemma2_to64();
    if i == 0 {
        assert(bytes.skip(0) =~= bytes);
        assert(pow2(0) * number_of_bytes(bytes) == number_of_bytes(bytes));
    } else {
        let k = i - 1;
        lemma_bytes_total(bytes, total, k);
        assert(bytes.skip(k).drop_first() =~= bytes.skip(i));
        assert(bytes.skip(k)[0] == bytes[k]);
        lemma_pow2_adds((8 * k) as nat, 8);
        let (p, byte, r) = (
            pow2((8 * k) as nat) as int,
            bytes[k] as int,
            number_of_bytes(bytes.skip(i)),
        );
        assert(total(k + 1) == total(k) + byte * p);
        assert(p * (byte + 256 * r) == byte * p + (p * 256) * r) by (nonlinear_arith);
    }
}

/// A text is read in pairs of digits: `v`, the first plus 91 times the second, stands for 13 bits,
/// or for 14 where the low 13 bits of `v` are 88 at most, above the bits of the pairs before it. A
/// last digit on its own stands above all pairs. The bytes for the text are those of this number,
/// from the low bits up: as many as the pairs fill, and one more for a last digit on its own.
pub proof fn texts_are_numbers(
    text: Seq<char>,
    ds: Seq<int>,
    position: spec_fn(int) -> int,
    number: spec_fn(int) -> int,
    whole: int,
    i: int,
)
    requires
        ds.len() == text.len(),
        forall|k: int| 0 <= k < ds.len() ==> 0 <= #[trigger] ds[k] < 91,
        forall|k: int| 0 <= k < ds.len() ==> #[trigger] text[k] == alphabet()[ds[k]],
        position(0) == 0,
        number(0) == 0,
        forall|j: int|
            0 <= j && 2 * j + 1 < ds.len() ==> #[trigger] position(j + 1) == position(j) + if (ds[2
                * j] + 91 * ds[2 * j + 1]) % 8192 > 88 {
                13
            } else {
                14int
            },
        forall|j: int|
            0 <= j && 2 * j + 1 < ds.len() ==> #[trigger] number(j + 1) == number(j) + (ds[2 * j]
                + 91 * ds[2 * j + 1]) * pow2(position(j) as nat),
        ds.len() % 2 == 0 ==> whole == number(ds.len() as int / 2),
        ds.len() % 2 == 1 ==> whole == number(ds.len() as int / 2) + ds.last() * pow2(
            position(ds.len() as int / 2) as nat,
        ),
    ensures
        decoded(text).len() == position(ds.len() as int / 2) / 8 + ds.len() as int % 2,
        0 <= i < decoded(text).len() ==> decoded(text)[i] == whole / (pow2(
            (8 * i) as nat,
        ) as int) % 256,
{
    let k = ds.len() as int / 2;
    lemma2_to64();
    assert(digits_of(text) =~= ds) by {
        assert forall|i: int| 0 <= i < ds.len() implies #[trigger] digits_of(text)[i] == ds[i] by {
            assert(text[i] == alphabet()[ds[i]]);
            lemma_index_of(ds[i]);
        }
    }
    lemma_pairs(ds, position, number, k);
    lemma_number_of(ds);
    lemma_rest_of_pairs(ds, position(k), whole, number(k));
    lemma_undigits(ds, 0, 0);
    let n = position(k) / 8 + ds.len() as int % 2;
    assert(power(0) == 1);
    assert(power(0) * whole == whole) by (nonlinear_arith)
        requires
            power(0) == 1,
    ;
    lemma_low_bytes_len(whole, n);
    if 0 <= i < n {
        lemma_low_byte(whole, n, i);
    }
}

/// What is left after all pairs is a last digit on its own or nothing.
proof fn lemma_rest_of_pairs(ds: Seq<int>, position: int, whole: int, number: int)
    requires
        ({
            let k = ds.len() as int / 2;
            &&& number_of(ds) == number + pow2(position as nat) * number_of(ds.skip(2 * k))
            &&& bits_of(ds) == position + bits_of(ds.skip(2 * k))
        }),
        ds.len() % 2 == 0 ==> whole == number,
        ds.len() % 2 == 1 ==> whole == number + ds.last() * pow2(position as nat),
    ensures
        number_of(ds) == whole,
        bits_of(ds) == position,
{
    let k = ds.len() as int / 2;
    let rest = ds.skip(2 * k);
    let p = pow2(position as nat) as int;
    if ds.len() % 2 == 0 {
        assert(rest.len() == 0);
        assert(p * 0 == 0);
    } else {
        assert(rest.len() == 1 && rest[0] == ds.last());
        assert(p * ds.last() == ds.last() * p) by (nonlinear_arith);
    }
}

/// The text for bytes is the one, read in pairs as [`texts_are_numbers`] says, that stands for the
/// same number as the bytes from the low bits up, whose pairs cover all bits of the bytes, or all
/// but seven at most where there is a last digit on its own. No pair is there beyond the bits of
/// the bytes, and a last pair for seven bits or less is there only where their number is no digit.
pub proof fn texts_are_written_for_numbers(
    bytes: Seq<u8>,
    ds: Seq<int>,
    position: spec_fn(int) -> int,
    number: spec_fn(int) -> int,
    total: spec_fn(int) -> int,
)
    requires
        ds.len() == encoded(bytes).len(),
        forall|k: int| 0 <= k < ds.len() ==> 0 <= #[trigger] ds[k] < 91,
        forall|k: int| 0 <= k < ds.len() ==> #[trigger] encoded(bytes)[k] == alphabet()[ds[k]],
        position(0) == 0,
        number(0) == 0,
        forall|j: int|
            0 <= j && 2 * j + 1 < ds.len() ==> #[trigger] position(j + 1) == position(j) + if (ds[2
                * j] + 91 * ds[2 * j + 1]) % 8192 > 88 {
                13
            } else {
                14int
            },
        forall|j: int|
            0 <= j && 2 * j + 1 < ds.len() ==> #[trigger] number(j + 1) == number(j) + (ds[2 * j]
                + 91 * ds[2 * j + 1]) * pow2(position(j) as nat),
        total(0) == 0,
        forall|i: int|
            0 <= i < bytes.len() ==> #[trigger] total(i + 1) == total(i) + bytes[i] * pow2(
                (8 * i) as nat,
            ),
    ensures
        ({
            let k = ds.len() as int / 2;
            let bits = 8 * bytes.len();
            &&& ds.len() % 2 == 0 ==> {
                &&& number(k) == total(bytes.len() as int)
                &&& bits <= position(k)
                &&& k > 0 ==> position(k - 1) < bits
                &&& k > 0 && bits <= position(k - 1) + 7 ==> ds[2 * k - 2] + 91 * ds[2 * k - 1] > 90
            }
            &&& ds.len() % 2 == 1 ==> {
                &&& number(k) + ds.last() * pow2(position(k) as nat) == total(bytes.len() as int)
                &&& position(k) < bits <= position(k) + 7
            }
        }),
{
    let k = ds.len() as int / 2;
    let own = digits(bytes, 0, 0);
    lemma2_to64();
    lemma_digits_small(bytes, 0, 0);
    assert(own =~= ds) by {
        assert forall|i: int| 0 <= i < ds.len() implies #[trigger] own[i] == ds[i] by {
            assert(encoded(bytes)[i] == alphabet()[ds[i]]);
            lemma_index_of(ds[i]);
            lemma_index_of(own[i]);
        }
    }
    lemma_digits(bytes, 0, 0);
    lemma_pairs(ds, position, number, k);
    let whole = if ds.len() % 2 == 0 {
        number(k)
    } else {
        number(k) + ds.last() * pow2(position(k) as nat)
    };
    lemma_rest_of_pairs(ds, position(k), whole, number(k));
    lemma_bytes_total(bytes, total, bytes.len() as int);
    assert(number_of_bytes(bytes.skip(bytes.len() as int)) == 0);
    assert(pow2((8 * bytes.len()) as nat) * 0 == 0);
    let all = number_of_bytes(bytes);
    assert(power(0) * all == all) by (nonlinear_arith)
        requires
            power(0) == 1,
    ;
    if k > 0 {
        assert(position((k - 1) + 1) == position(k - 1) + width(
            ds[2 * (k - 1)] + 91 * ds[2 * (k - 1) + 1],
        ));
    }
}

} // verus!
