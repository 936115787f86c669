//! A text form of hashes: base 91, in characters that a JSON string holds without escapes.
//!
//! The bytes are read as one stream of bits, low bits first. Two digits hold 13 bits of it, or
//! 14 where the low 13 bits are so small that the number stays below the square of 91.
use vstd::arithmetic::div_mod::*;
use vstd::arithmetic::mul::*;
use vstd::arithmetic::power2::{
    lemma2_to64, lemma_pow2_adds, lemma_pow2_pos, lemma_pow2_strictly_increases, pow2,
};
use vstd::prelude::*;

verus! {

/// Two raised to the power `n`.
pub open spec fn power(n: int) -> int {
    pow2(n as nat) as int
}

/// The number of bits that the two digits of the number `v` hold.
pub open spec fn width(v: int) -> int {
    if v % 8192 > 88 {
        13
    } else {
        14
    }
}

/// The digits of the last `n` bits of a stream, which hold the number `b`: none where nothing is
/// left, and a single one where that is enough.
pub open spec fn last_digits(b: int, n: int) -> Seq<int> {
    if n == 0 {
        Seq::empty()
    } else if n > 7 || b > 90 {
        seq![b % 91, b / 91]
    } else {
        seq![b % 91]
    }
}

/// The digits of a stream that begins with the `n` bits of the number `b` and goes on with
/// `bytes`.
pub open spec fn digits(bytes: Seq<u8>, b: int, n: int) -> Seq<int>
    decreases bytes.len(),
{
    if bytes.len() == 0 {
        last_digits(b, n)
    } else {
        let all = b + bytes[0] * power(n);
        let rest = bytes.drop_first();
        if n + 8 > 13 {
            let s = width(all);
            let v = all % power(s);
            seq![v % 91, v / 91] + digits(rest, all / power(s), n + 8 - s)
        } else {
            digits(rest, all, n + 8)
        }
    }
}

/// The lowest `n` bytes of the number `v`, from the lowest up.
pub open spec fn low_bytes(v: int, n: int) -> Seq<u8>
    decreases n,
{
    if n <= 0 {
        Seq::empty()
    } else {
        seq![(v % 256) as u8] + low_bytes(v / 256, n - 1)
    }
}

/// The bytes of the stream that `digits` hold, where the `n` bits of the number `b` come first.
pub open spec fn undigits(digits: Seq<int>, b: int, n: int) -> Seq<u8>
    decreases digits.len(),
{
    if digits.len() == 0 {
        Seq::empty()
    } else if digits.len() == 1 {
        low_bytes(b + digits[0] * power(n), 1)
    } else {
        let v = digits[0] + 91 * digits[1];
        let all = b + v * power(n);
        let count = (n + width(v)) / 8;
        low_bytes(all, count) + undigits(
            digits.skip(2),
            all / power(8 * count),
            (n + width(v)) % 8,
        )
    }
}

/// Every digit is below 91.
pub proof fn lemma_digits_small(bytes: Seq<u8>, b: int, n: int)
    requires
        0 <= n <= 13,
        0 <= b < power(n),
    ensures
        forall|i: int|
            0 <= i < digits(bytes, b, n).len() ==> 0 <= #[trigger] digits(bytes, b, n)[i] < 91,
    decreases bytes.len(),
{
    lemma2_to64();
    if bytes.len() == 0 {
        if n < 13 {
            lemma_pow2_strictly_increases(n as nat, 13);
        }
        assert(0 <= b / 91 < 91 && 0 <= b % 91 < 91);
        assert(digits(bytes, b, n) == last_digits(b, n));
    } else {
        let all = b + bytes[0] * power(n);
        let rest = bytes.drop_first();
        lemma_next_byte(b, n, bytes[0]);
        if n + 8 > 13 {
            let s = width(all);
            let v = all % power(s);
            lemma_chunk(all, n + 8);
            lemma_digits_small(rest, all / power(s), n + 8 - s);
            assert(0 <= v / 91 < 91 && 0 <= v % 91 < 91);
            let tail = digits(rest, all / power(s), n + 8 - s);
            assert(digits(bytes, b, n) == seq![v % 91, v / 91] + tail);
            assert forall|i: int| 0 <= i < digits(bytes, b, n).len() implies 0
                <= #[trigger] digits(bytes, b, n)[i] < 91 by {
                if i >= 2 {
                    assert(digits(bytes, b, n)[i] == tail[i - 2]);
                }
            }
        } else {
            lemma_digits_small(rest, all, n + 8);
            assert(digits(bytes, b, n) == digits(rest, all, n + 8));
        }
    }
}

/// A stream of `n` bits that a byte is appended to has `n + 8` bits.
pub proof fn lemma_next_byte(b: int, n: int, byte: u8)
    requires
        0 <= n,
        0 <= b < power(n),
    ensures
        0 <= b + byte * power(n) < power(n + 8),
{
    lemma2_to64();
    lemma_pow2_adds(n as nat, 8);
    assert(0 <= byte * power(n) && b + byte * power(n) < 256 * power(n)) by (nonlinear_arith)
        requires
            0 <= b < power(n),
            0 <= byte <= 255,
    ;
    assert(power(n + 8) == power(n) * 256);
}

/// The first bits of a stream make up a number of two digits, from which their number can be
/// told.
pub proof fn lemma_chunk(all: int, n: int)
    requires
        13 < n,
        0 <= all < power(n),
    ensures
        0 <= all % power(width(all)) <= 8280,
        width(all % power(width(all))) == width(all),
        0 <= all / power(width(all)) < power(n - width(all)),
        all == all % power(width(all)) + power(width(all)) * (all / power(width(all))),
{
    lemma2_to64();
    let s = width(all);
    assert(power(s) == if s == 13 {
        8192
    } else {
        16384int
    });
    lemma_pow2_adds((n - s) as nat, s as nat);
    let rest = all / power(s);
    lemma_fundamental_div_mod(all, power(s));
    assert(rest < power(n - s)) by (nonlinear_arith)
        requires
            all < power(n - s) * power(s),
            power(s) * rest <= all,
            power(s) > 0,
    ;
}

/// The low bytes of a number are those of its remainder, followed by those of its quotient.
pub proof fn lemma_low_bytes_split(v: int, q: int, r: int)
    requires
        0 <= v,
        0 <= q,
        0 <= r,
    ensures
        low_bytes(v, q + r) == low_bytes(v, q) + low_bytes(v / power(8 * q), r),
    decreases q,
{
    lemma2_to64();
    if q == 0 {
        assert(v / 1 == v);
        assert(low_bytes(v, 0) + low_bytes(v, r) =~= low_bytes(v, r));
    } else {
        lemma_low_bytes_split(v / 256, q - 1, r);
        lemma_pow2_adds(8, (8 * (q - 1)) as nat);
        lemma_pow2_pos((8 * (q - 1)) as nat);
        assert(power(8 * q) == 256 * power(8 * (q - 1)));
        lemma_div_denominator(v, 256, power(8 * (q - 1)));
        assert(low_bytes(v, q + r) =~= low_bytes(v, q) + low_bytes(v / power(8 * q), r));
    }
}

/// The low bytes of a number do not depend on what lies above them.
pub proof fn lemma_low_bytes_add(v: int, q: int, high: int)
    requires
        0 <= v,
        0 <= q,
        0 <= high,
    ensures
        low_bytes(v + high * power(8 * q), q) == low_bytes(v, q),
    decreases q,
{
    lemma2_to64();
    if q > 0 {
        lemma_pow2_adds(8, (8 * (q - 1)) as nat);
        let p = power(8 * (q - 1));
        assert(power(8 * q) == 256 * p);
        assert(high * (256 * p) == (high * p) * 256) by (nonlinear_arith);
        lemma_low_bytes_add(v / 256, q - 1, high);
        let all = v + high * power(8 * q);
        lemma_fundamental_div_mod(v, 256);
        lemma_fundamental_div_mod_converse(all, 256, v / 256 + high * p, v % 256);
    }
}

/// A byte that is appended to whole bytes is the last of all of them.
proof fn lemma_low_bytes_push(v: int, q: int, byte: u8)
    requires
        0 <= q,
        0 <= v < power(8 * q),
    ensures
        low_bytes(v + byte * power(8 * q), q + 1) == low_bytes(v, q) + seq![byte],
{
    let p = power(8 * q);
    let all = v + byte * p;
    lemma_pow2_pos((8 * q) as nat);
    lemma_mul_nonnegative(byte as int, p);
    lemma_low_bytes_split(all, q, 1);
    lemma_low_bytes_add(v, q, byte as int);
    lemma_fundamental_div_mod_converse(all, p, byte as int, v);
    assert(low_bytes(byte as int, 1) =~= seq![byte]) by {
        reveal_with_fuel(low_bytes, 2);
    }
}

/// Reading the last digits of a stream back gives the whole bytes that its bits complete.
proof fn lemma_last_digits(b: int, n: int, c: int, k: int)
    requires
        0 <= n <= 13,
        0 <= b < power(n),
        0 <= k <= 7,
        0 <= c < power(k),
        (k + n) % 8 == 0,
    ensures
        undigits(last_digits(b, n), c, k) == low_bytes(c + b * power(k), (k + n) / 8),
{
    lemma2_to64();
    let ds = last_digits(b, n);
    if n == 0 {
        assert(k == 0 && c == 0);
        assert(low_bytes(c + b * power(k), 0) == Seq::<u8>::empty());
    } else {
        if n < 13 {
            lemma_pow2_strictly_increases(n as nat, 13);
        }
        if n < 7 {
            lemma_pow2_strictly_increases(n as nat, 7);
        }
        if n > 7 || b > 90 {
            lemma_fundamental_div_mod(b, 91);
            assert(ds[0] + 91 * ds[1] == b);
            assert((k + width(b)) / 8 == (k + n) / 8);
            assert(ds.skip(2) =~= Seq::empty());
            let rest = undigits(
                ds.skip(2),
                (c + b * power(k)) / power(8 * ((k + n) / 8)),
                (k + width(b)) % 8,
            );
            assert(rest == Seq::<u8>::empty());
            let count = (k + n) / 8;
            assert(low_bytes(c + b * power(k), count) + rest =~= low_bytes(
                c + b * power(k),
                count,
            ));
        } else {
            assert(ds[0] == b);
            assert(k + n == 8);
        }
    }
}

/// Reading the digits of a stream back gives its bytes. The first bits of the stream are split
/// between the reader, which has the `k` bits of the number `c`, and the writer, which has the
/// `n` bits of the number `b` that follow them.
proof fn lemma_digits_round_trip(bytes: Seq<u8>, b: int, n: int, c: int, k: int)
    requires
        0 <= n <= 13,
        0 <= b < power(n),
        0 <= k <= 7,
        0 <= c < power(k),
        (k + n) % 8 == 0,
    ensures
        undigits(digits(bytes, b, n), c, k) == low_bytes(c + b * power(k), (k + n) / 8) + bytes,
    decreases bytes.len(),
{
    lemma2_to64();
    let ds = digits(bytes, b, n);
    let t = (k + n) / 8;
    lemma_pow2_pos(k as nat);
    lemma_mul_nonnegative(b, power(k));
    if bytes.len() == 0 {
        lemma_last_digits(b, n, c, k);
        assert(low_bytes(c + b * power(k), t) + bytes =~= low_bytes(c + b * power(k), t));
    } else {
        let byte = bytes[0];
        let rest = bytes.drop_first();
        let all = b + byte * power(n);
        lemma_next_byte(b, n, byte);
        // The stream so far, as one number.
        let stream = c + all * power(k);
        lemma_pow2_adds(k as nat, n as nat);
        assert(8 * t == k + n);
        let begun = c + b * power(k);
        assert(0 <= begun < power(8 * t)) by (nonlinear_arith)
            requires
                0 <= c < power(k),
                0 <= b < power(n),
                power(8 * t) == power(k) * power(n),
                begun == c + b * power(k),
        ;
        assert(stream == begun + byte * power(8 * t)) by (nonlinear_arith)
            requires
                stream == c + (b + byte * power(n)) * power(k),
                begun == c + b * power(k),
                power(8 * t) == power(k) * power(n),
        ;
        lemma_low_bytes_push(begun, t, byte);
        assert(low_bytes(stream, t + 1) + rest =~= low_bytes(begun, t) + bytes);
        if n + 8 > 13 {
            let s = width(all);
            let v = all % power(s);
            let high = all / power(s);
            lemma_chunk(all, n + 8);
            let more = digits(rest, high, n + 8 - s);
            assert(ds == seq![v % 91, v / 91] + more);
            lemma_fundamental_div_mod(v, 91);
            assert(ds[0] + 91 * ds[1] == v);
            assert(ds.skip(2) =~= more);
            let read = c + v * power(k);
            let count = (k + s) / 8;
            let left = read / power(8 * count);
            let m = (k + s) % 8;
            lemma_pow2_adds(k as nat, s as nat);
            lemma_pow2_adds(m as nat, (8 * count) as nat);
            lemma_pow2_pos((8 * count) as nat);
            lemma_mul_nonnegative(v, power(k));
            assert(power(k + s) == power(m) * power(8 * count));
            assert(read < power(k + s)) by (nonlinear_arith)
                requires
                    0 <= c < power(k),
                    0 <= v < power(s),
                    power(k + s) == power(k) * power(s),
                    read == c + v * power(k),
            ;
            lemma_fundamental_div_mod(read, power(8 * count));
            assert(0 <= left < power(m)) by (nonlinear_arith)
                requires
                    0 <= read < power(m) * power(8 * count),
                    power(8 * count) * left <= read,
                    read < power(8 * count) * left + power(8 * count),
                    0 < power(8 * count),
            ;
            lemma_digits_round_trip(rest, high, n + 8 - s, left, m);
            // What was read and what is still to come make up the stream.
            assert(stream == read + high * power(k + s)) by (nonlinear_arith)
                requires
                    stream == c + all * power(k),
                    all == v + power(s) * high,
                    read == c + v * power(k),
                    power(k + s) == power(k) * power(s),
            ;
            let above = high * power(m);
            lemma_pow2_pos(m as nat);
            lemma_mul_nonnegative(high, power(m));
            assert(stream == read + above * power(8 * count)) by (nonlinear_arith)
                requires
                    stream == read + high * power(k + s),
                    power(k + s) == power(m) * power(8 * count),
                    above == high * power(m),
            ;
            let r = (m + n + 8 - s) / 8;
            assert(count + r == t + 1);
            lemma_low_bytes_split(stream, count, r);
            lemma_low_bytes_add(read, count, above);
            assert(stream / power(8 * count) == left + above) by {
                assert(stream == power(8 * count) * (left + above) + read % power(8 * count))
                    by (nonlinear_arith)
                    requires
                        stream == read + above * power(8 * count),
                        read == power(8 * count) * left + read % power(8 * count),
                ;
                lemma_mod_bound(read, power(8 * count));
                lemma_fundamental_div_mod_converse(
                    stream,
                    power(8 * count),
                    left + above,
                    read % power(8 * count),
                );
            }
            assert(undigits(ds, c, k) == low_bytes(read, count) + undigits(more, left, m));
            assert(undigits(ds, c, k) =~= low_bytes(stream, t + 1) + rest);
        } else {
            assert(ds == digits(rest, all, n + 8));
            lemma_digits_round_trip(rest, all, n + 8, c, k);
            assert((k + n + 8) / 8 == t + 1);
        }
    }
}

/// The digits in their order.
pub open spec fn alphabet() -> Seq<char> {
    "ABCDEFGHIJKLMNOPQRSTUVWXYZabcdefghijklmnopqrstuvwxyz0123456789!#$%&()*+,./:;<=>?@[]^_`{|}~'"@
}

/// The code of the character for the digit `d`.
spec fn code_of(d: int) -> int {
    if d < 26 {
        65 + d
    } else if d < 52 {
        71 + d
    } else if d < 62 {
        d - 4
    } else if d < 63 {
        33
    } else if d < 67 {
        d - 28
    } else if d < 72 {
        d - 27
    } else if d < 74 {
        d - 26
    } else if d < 81 {
        d - 16
    } else if d < 82 {
        91
    } else if d < 86 {
        d + 11
    } else if d < 90 {
        d + 37
    } else {
        39
    }
}

/// The alphabet has 91 digits, and `code_of` gives their codes.
proof fn lemma_alphabet()
    ensures
        alphabet().len() == 91,
        forall|d: int| 0 <= d < 91 ==> #[trigger] alphabet()[d] as int == code_of(d),
{
    reveal_strlit(
        "ABCDEFGHIJKLMNOPQRSTUVWXYZabcdefghijklmnopqrstuvwxyz0123456789!#$%&()*+,./:;<=>?@[]^_`{|}~'",
    );
    assert forall|d: int| 0 <= d < 91 implies #[trigger] alphabet()[d] as int == code_of(d) by {
        assert(d == 0 || d == 1 || d == 2 || d == 3 || d == 4 || d == 5 || d == 6 || d == 7
            || d == 8 || d == 9 || d == 10 || d == 11 || d == 12 || d == 13 || d == 14 || d == 15
            || d == 16 || d == 17 || d == 18 || d == 19 || d == 20 || d == 21 || d == 22 || d == 23
            || d == 24 || d == 25 || d == 26 || d == 27 || d == 28 || d == 29 || d == 30 || d == 31
            || d == 32 || d == 33 || d == 34 || d == 35 || d == 36 || d == 37 || d == 38 || d == 39
            || d == 40 || d == 41 || d == 42 || d == 43 || d == 44 || d == 45 || d == 46 || d == 47
            || d == 48 || d == 49 || d == 50 || d == 51 || d == 52 || d == 53 || d == 54 || d == 55
            || d == 56 || d == 57 || d == 58 || d == 59 || d == 60 || d == 61 || d == 62 || d == 63
            || d == 64 || d == 65 || d == 66 || d == 67 || d == 68 || d == 69 || d == 70 || d == 71
            || d == 72 || d == 73 || d == 74 || d == 75 || d == 76 || d == 77 || d == 78 || d == 79
            || d == 80 || d == 81 || d == 82 || d == 83 || d == 84 || d == 85 || d == 86 || d == 87
            || d == 88 || d == 89 || d == 90);
    }
}

/// The digits are the capital letters, the small letters, the decimal digits and then, in the
/// order of their codes, all other printable characters of ASCII but the quotation mark, the
/// hyphen, the backslash and the apostrophe, which comes last.
pub proof fn alphabet_is_in_runs()
    ensures
        alphabet().len() == 91,
        forall|d: int| 0 <= d < 26 ==> #[trigger] alphabet()[d] as int == 'A' as int + d,
        forall|d: int| 26 <= d < 52 ==> #[trigger] alphabet()[d] as int == 'a' as int + (d - 26),
        forall|d: int| 52 <= d < 62 ==> #[trigger] alphabet()[d] as int == '0' as int + (d - 52),
        forall|c: char| #[trigger]
            alphabet().contains(c) <==> '!' <= c <= '~' && c != '"' && c != '-' && c != '\\',
        forall|i: int, j: int|
            62 <= i < j < 90 ==> (#[trigger] alphabet()[i]) < (#[trigger] alphabet()[j]),
        alphabet()[90] == '\'',
{
    lemma_alphabet();
    assert forall|c: char| #[trigger] alphabet().contains(c) <==> '!' <= c <= '~' && c != '"' && c
        != '-' && c != '\\' by {
        if alphabet().contains(c) {
            let d = choose|d: int| 0 <= d < alphabet().len() && alphabet()[d] == c;
            assert(alphabet()[d] as int == code_of(d));
        } else if '!' <= c <= '~' && c != '"' && c != '-' && c != '\\' {
            let n = c as int;
            let d = if n == 33 {
                62
            } else if n < 39 {
                n + 28
            } else if n == 39 {
                90
            } else if n < 45 {
                n + 27
            } else if n < 48 {
                n + 26
            } else if n < 58 {
                n + 4
            } else if n < 65 {
                n + 16
            } else if n < 91 {
                n - 65
            } else if n == 91 {
                81
            } else if n < 97 {
                n - 11
            } else if n < 123 {
                n - 71
            } else {
                n - 37
            };
            assert(code_of(d) == n);
            assert(alphabet()[d] as int == n);
            assert(alphabet()[d] == c);
        }
    }
}

/// A text is made up of digits where all its characters are printable ASCII without spaces,
/// quotation marks, hyphens and backslashes.
pub proof fn texts_are_of_printable_characters(text: Seq<char>)
    ensures
        is_text(text) <==> forall|i: int|
            0 <= i < text.len() ==> '!' <= #[trigger] text[i] <= '~' && text[i] != '"' && text[i]
                != '-' && text[i] != '\\',
{
    alphabet_is_in_runs();
    if is_text(text) {
        assert forall|i: int| 0 <= i < text.len() implies '!' <= #[trigger] text[i] <= '~'
            && text[i] != '"' && text[i] != '-' && text[i] != '\\' by {
            assert(alphabet().contains(text[i]));
        }
    } else {
        let i = choose|i: int| 0 <= i < text.len() && !alphabet().contains(#[trigger] text[i]);
        assert(!alphabet().contains(text[i]));
    }
}

/// The characters for `digits`.
pub open spec fn text_of(digits: Seq<int>) -> Seq<char> {
    Seq::new(digits.len(), |i: int| alphabet()[digits[i]])
}

/// The text for `bytes`.
pub open spec fn encoded(bytes: Seq<u8>) -> Seq<char> {
    text_of(digits(bytes, 0, 0))
}

/// Whether `text` is made up of digits.
pub open spec fn is_text(text: Seq<char>) -> bool {
    forall|i: int| 0 <= i < text.len() ==> alphabet().contains(#[trigger] text[i])
}

/// The digits that `text` is made up of.
pub open spec fn digits_of(text: Seq<char>) -> Seq<int> {
    Seq::new(text.len(), |i: int| alphabet().index_of(text[i]))
}

/// The bytes for `text`.
pub open spec fn decoded(text: Seq<char>) -> Seq<u8> {
    undigits(digits_of(text), 0, 0)
}

/// A character stands for one digit only.
pub proof fn lemma_index_of(d: int)
    requires
        0 <= d < 91,
    ensures
        alphabet().contains(alphabet()[d]),
        alphabet().index_of(alphabet()[d]) == d,
{
    lemma_alphabet();
    let i = alphabet().index_of(alphabet()[d]);
    assert(0 <= i < alphabet().len() && alphabet()[i] == alphabet()[d]);
    assert(code_of(i) == code_of(d));
}

/// The digit for the character with the code `byte`.
fn find_digit(byte: u8) -> (r: Option<u8>)
    ensures
        r matches Some(d) ==> d < 91 && alphabet()[d as int] as int == byte,
        r is None ==> forall|d: int| 0 <= d < 91 ==> #[trigger] alphabet()[d] as int != byte,
{
    proof {
        lemma_alphabet();
    }
    if 65 <= byte && byte <= 90 {
        Some(byte - 65)
    } else if 97 <= byte && byte <= 122 {
        Some(byte - 71)
    } else if 48 <= byte && byte <= 57 {
        Some(byte + 4)
    } else if byte == 33 {
        Some(62)
    } else if 35 <= byte && byte <= 38 {
        Some(byte + 28)
    } else if 40 <= byte && byte <= 44 {
        Some(byte + 27)
    } else if 46 <= byte && byte <= 47 {
        Some(byte + 26)
    } else if 58 <= byte && byte <= 64 {
        Some(byte + 16)
    } else if byte == 91 {
        Some(81)
    } else if 93 <= byte && byte <= 96 {
        Some(byte - 11)
    } else if 123 <= byte && byte <= 126 {
        Some(byte - 37)
    } else if byte == 39 {
        Some(90)
    } else {
        None
    }
}

/// Appends the characters for the two digits of `v` to `text`.
fn push_pair(text: &mut String, v: u32)
    requires
        v <= 8280,
    ensures
        final(text)@ == old(text)@ + text_of(seq![v as int % 91, v as int / 91]),
{
    push_digit(text, v % 91);
    push_digit(text, v / 91);
    assert(text@ =~= old(text)@ + text_of(seq![v as int % 91, v as int / 91]));
}

/// Appends the character for the digit `d` to `text`.
fn push_digit(text: &mut String, d: u32)
    requires
        d < 91,
    ensures
        final(text)@ == old(text)@.push(alphabet()[d as int]),
{
    let letters =
        "ABCDEFGHIJKLMNOPQRSTUVWXYZabcdefghijklmnopqrstuvwxyz0123456789!#$%&()*+,./:;<=>?@[]^_`{|}~'";
    proof {
        lemma_alphabet();
        assert(letters@ == alphabet());
        assert forall|i: int| 0 <= i < letters@.len() implies (#[trigger] letters@[i] as int)
            < 128 by {
            assert(alphabet()[i] as int == code_of(i));
        }
        assert(letters.is_ascii());
    }
    text.append(letters.substring_ascii(d as usize, d as usize + 1));
    assert(text@ =~= old(text)@.push(alphabet()[d as int]));
}

/// Writes `bytes` as text.
pub fn base91_encode(bytes: &[u8]) -> (text: String)
    ensures
        text@ == encoded(bytes@),
{
    let mut text = String::new();
    let mut b: u32 = 0;
    let mut n: u32 = 0;
    let mut i: usize = 0;
    proof {
        lemma2_to64();
        assert(bytes@.skip(0) == bytes@);
        assert(text@ + text_of(digits(bytes@, 0, 0)) =~= encoded(bytes@));
    }
    while i < bytes.len()
        invariant
            i <= bytes@.len(),
            n <= 13,
            b < power(n as int),
            text@ + text_of(digits(bytes@.skip(i as int), b as int, n as int)) == encoded(bytes@),
        decreases bytes@.len() - i,
    {
        let ghost rest = bytes@.skip(i as int);
        let ghost before = text@;
        let byte = bytes[i];
        proof {
            lemma2_to64();
            lemma_next_byte(b as int, n as int, byte);
            if n < 13 {
                lemma_pow2_strictly_increases((n + 8) as nat, 21);
            }
            vstd::bits::lemma_u32_shl_is_mul(byte as u32, n);
            assert(rest.drop_first() =~= bytes@.skip(i + 1));
        }
        let ghost start = b as int;
        let all: u32 = b + ((byte as u32) << n);
        assert(all == start + rest[0] * power(n as int));
        if n + 8 > 13 {
            proof {
                lemma_chunk(all as int, n + 8);
            }
            let ghost s = width(all as int);
            let ghost v = all as int % power(s);
            let ghost more = digits(rest.drop_first(), all as int / power(s), n + 8 - s);
            assert(digits(rest, start, n as int) == seq![v % 91, v / 91] + more);
            if all % 8192 > 88 {
                push_pair(&mut text, all % 8192);
                b = all / 8192;
                n = n - 5;
            } else {
                push_pair(&mut text, all % 16384);
                b = all / 16384;
                n = n - 6;
            }
            assert(text_of(seq![v % 91, v / 91] + more) =~= text_of(seq![v % 91, v / 91])
                + text_of(more));
            assert(text@ + text_of(more) =~= before + text_of(
                digits(rest, start, n as int + s - 8),
            ));
        } else {
            b = all;
            n = n + 8;
        }
        i += 1;
    }
    proof {
        lemma2_to64();
        if n < 13 {
            lemma_pow2_strictly_increases(n as nat, 13);
        }
        assert(bytes@.skip(i as int) =~= Seq::empty());
    }
    let ghost before = text@;
    if n > 0 {
        if n > 7 || b > 90 {
            push_pair(&mut text, b);
        } else {
            push_digit(&mut text, b);
        }
    }
    assert(text@ =~= before + text_of(last_digits(b as int, n as int)));
    text
}

/// Reads the digits of a text.
fn read_digits(text: &str) -> (r: Result<Vec<u8>, ()>)
    ensures
        r is Ok <==> is_text(text@),
        r matches Ok(ds) ==> {
            &&& ds@.len() == text@.len()
            &&& forall|i: int|
                0 <= i < ds@.len() ==> (#[trigger] ds@[i]) < 91 && ds@[i] as int == digits_of(
                    text@,
                )[i]
        },
{
    proof {
        lemma_alphabet();
    }
    if !text.is_ascii() {
        proof {
            if is_text(text@) {
                assert forall|i: int| 0 <= i < text@.len() implies (#[trigger] text@[i] as int)
                    < 128 by {
                    let d = alphabet().index_of(text@[i]);
                    assert(alphabet()[d] as int == code_of(d));
                }
                assert(text.is_ascii());
            }
        }
        return Err(());
    }
    let bytes = text.as_bytes();
    assert(bytes@ == Seq::new(text@.len(), |i: int| text@[i] as u8)) by {
        vstd::string::is_ascii_spec_bytes(text);
    }
    let mut ds: Vec<u8> = Vec::new();
    let mut i: usize = 0;
    while i < bytes.len()
        invariant
            i <= bytes@.len(),
            text.is_ascii(),
            bytes@ == Seq::new(text@.len(), |i: int| text@[i] as u8),
            alphabet().len() == 91,
            ds@.len() == i,
            forall|k: int| 0 <= k < i ==> alphabet().contains(#[trigger] text@[k]),
            forall|k: int|
                0 <= k < i ==> (#[trigger] ds@[k]) < 91 && ds@[k] as int == digits_of(text@)[k],
        decreases bytes@.len() - i,
    {
        match find_digit(bytes[i]) {
            Some(d) => {
                proof {
                    lemma_index_of(d as int);
                    assert(alphabet()[d as int] == text@[i as int]);
                }
                ds.push(d);
            },
            None => {
                proof {
                    if alphabet().contains(text@[i as int]) {
                        let d = alphabet().index_of(text@[i as int]);
                        assert(alphabet()[d] == text@[i as int]);
                    }
                }
                return Err(());
            },
        }
        i += 1;
    }
    Ok(ds)
}

/// Reads the bytes that a text stands for. Fails where the text holds a character that is not a
/// digit.
pub fn base91_decode(text: &str) -> (r: Result<Vec<u8>, ()>)
    ensures
        r is Ok <==> is_text(text@),
        r matches Ok(bytes) ==> bytes@ == decoded(text@),
{
    let ds = match read_digits(text) {
        Ok(ds) => ds,
        Err(_) => {
            return Err(());
        },
    };
    let ghost all_digits = digits_of(text@);
    let mut bytes: Vec<u8> = Vec::new();
    let mut b: u32 = 0;
    let mut n: u32 = 0;
    let mut i: usize = 0;
    proof {
        lemma2_to64();
        assert(all_digits.skip(0) =~= all_digits);
        assert(bytes@ + undigits(all_digits, 0, 0) =~= decoded(text@));
    }
    while ds.len() - i >= 2
        invariant
            i <= ds@.len(),
            all_digits.len() == ds@.len(),
            forall|k: int|
                0 <= k < ds@.len() ==> (#[trigger] ds@[k]) < 91 && ds@[k] as int == all_digits[k],
            n <= 7,
            b < power(n as int),
            bytes@ + undigits(all_digits.skip(i as int), b as int, n as int) == decoded(text@),
        decreases ds@.len() - i,
    {
        let ghost before = bytes@;
        let ghost start = (b as int, n as int);
        let ghost left = all_digits.skip(i as int);
        let v: u32 = ds[i] as u32 + 91 * ds[i + 1] as u32;
        proof {
            lemma2_to64();
            assert(left.skip(2) =~= all_digits.skip(i + 2));
            assert(v == left[0] + 91 * left[1]);
            if n < 7 {
                lemma_pow2_strictly_increases(n as nat, 7);
            }
            lemma_mul_upper_bound(v as int, 8280, power(n as int), 128);
            vstd::bits::lemma_u32_shl_is_mul(v, n);
            lemma_join(b as int, n as int, v as int);
        }
        let w: u32 = if v % 8192 > 88 {
            13
        } else {
            14
        };
        let all: u32 = b + (v << n);
        let ghost count = (n + w) / 8;
        let ghost joined = all as int;
        assert(undigits(left, start.0, start.1) == low_bytes(joined, count as int) + undigits(
            left.skip(2),
            joined / power(8 * count),
            (n + w) as int % 8,
        ));
        bytes.push((all % 256) as u8);
        if n + w >= 16 {
            bytes.push((all / 256 % 256) as u8);
            b = all / 65536;
            n = n + w - 16;
        } else {
            b = all / 256;
            n = n + w - 8;
        }
        proof {
            reveal_with_fuel(low_bytes, 3);
            assert(joined / 256 / 256 == joined / 65536);
            assert(power(8 * count) == if count == 2 {
                65536
            } else {
                256int
            });
            assert(bytes@ =~= before + low_bytes(joined, count as int));
            let more = undigits(left.skip(2), b as int, n as int);
            assert(bytes@ + more =~= before + (low_bytes(joined, count as int) + more));
            lemma_rest(joined, start.1 + w as int, count as int);
        }
        i += 2;
    }
    let ghost before = bytes@;
    let ghost left = all_digits.skip(i as int);
    if i < ds.len() {
        proof {
            lemma2_to64();
            if n < 7 {
                lemma_pow2_strictly_increases(n as nat, 7);
            }
            lemma_mul_upper_bound(ds[i as int] as int, 90, power(n as int), 128);
            vstd::bits::lemma_u32_shl_is_mul(ds[i as int] as u32, n);
            reveal_with_fuel(low_bytes, 2);
        }
        let all: u32 = b + ((ds[i] as u32) << n);
        bytes.push((all % 256) as u8);
        assert(left[0] == ds@[i as int]);
        assert(low_bytes(all as int, 1) =~= seq![(all % 256) as u8]);
        assert(bytes@ =~= before + undigits(left, b as int, n as int));
    } else {
        assert(bytes@ =~= before + undigits(left, b as int, n as int));
    }
    Ok(bytes)
}

/// The bits of a number of two digits follow those that are there.
pub proof fn lemma_join(b: int, n: int, v: int)
    requires
        0 <= n,
        0 <= b < power(n),
        0 <= v <= 8280,
    ensures
        0 <= b + v * power(n) < power(n + width(v)),
{
    lemma2_to64();
    let s = width(v);
    lemma_pow2_adds(n as nat, s as nat);
    assert(v < power(s));
    assert(0 <= v * power(n) && b + v * power(n) < power(n) * power(s)) by (nonlinear_arith)
        requires
            0 <= b < power(n),
            0 <= v < power(s),
    ;
}

/// The bits that whole bytes are taken from leave fewer than eight.
pub proof fn lemma_rest(all: int, n: int, count: int)
    requires
        0 <= count,
        8 * count <= n,
        0 <= all < power(n),
    ensures
        0 <= all / power(8 * count) < power(n - 8 * count),
{
    lemma_pow2_adds((n - 8 * count) as nat, (8 * count) as nat);
    lemma_pow2_pos((8 * count) as nat);
    lemma_fundamental_div_mod(all, power(8 * count));
    lemma_mod_bound(all, power(8 * count));
    let q = all / power(8 * count);
    assert(0 <= q < power(n - 8 * count)) by (nonlinear_arith)
        requires
            0 <= all < power(n - 8 * count) * power(8 * count),
            power(8 * count) * q <= all,
            all < power(8 * count) * q + power(8 * count),
            0 < power(8 * count),
    ;
}

/// Every text that is written is read back as the bytes that it was written for.
pub proof fn base91_round_trip(bytes: Seq<u8>)
    ensures
        is_text(encoded(bytes)),
        decoded(encoded(bytes)) == bytes,
{
    lemma2_to64();
    lemma_alphabet();
    lemma_digits_small(bytes, 0, 0);
    let ds = digits(bytes, 0, 0);
    let text = encoded(bytes);
    assert forall|i: int| 0 <= i < ds.len() implies alphabet().contains(#[trigger] text[i])
        && digits_of(text)[i] == ds[i] by {
        assert(0 <= ds[i] < 91);
        lemma_index_of(ds[i]);
    }
    assert(digits_of(text) =~= ds);
    lemma_digits_round_trip(bytes, 0, 0, 0, 0);
    assert(low_bytes(0, 0) + bytes =~= bytes);
}

/// A JSON string holds a written text as it is: it is printable ASCII without spaces, quotation
/// marks and backslashes. Nor does it hold a hyphen.
pub proof fn base91_is_json_safe(bytes: Seq<u8>)
    ensures
        forall|i: int|
            0 <= i < encoded(bytes).len() ==> '!' <= #[trigger] encoded(bytes)[i] <= '~' && encoded(
                bytes,
            )[i] != '"' && encoded(bytes)[i] != '\\' && encoded(bytes)[i] != '-',
{
    lemma2_to64();
    lemma_alphabet();
    lemma_digits_small(bytes, 0, 0);
    let ds = digits(bytes, 0, 0);
    assert forall|i: int| 0 <= i < encoded(bytes).len() implies '!' <= #[trigger] encoded(bytes)[i]
        <= '~' && encoded(bytes)[i] != '"' && encoded(bytes)[i] != '\\' && encoded(bytes)[i]
        != '-' by {
        assert(0 <= ds[i] < 91);
        assert(alphabet()[ds[i]] as int == code_of(ds[i]));
    }
}

proof fn lemma_digits_len(bytes: Seq<u8>, b: int, n: int)
    requires
        0 <= n <= 13,
    ensures
        13 * digits(bytes, b, n).len() <= 2 * (8 * bytes.len() + n) + 24,
    decreases bytes.len(),
{
    if bytes.len() > 0 {
        let all = b + bytes[0] * power(n);
        if n + 8 > 13 {
            lemma_digits_len(bytes.drop_first(), all / power(width(all)), n + 8 - width(all));
        } else {
            lemma_digits_len(bytes.drop_first(), all, n + 8);
        }
    }
}

/// A text has at most sixteen characters for each thirteen bytes, and fewer than two more.
pub proof fn base91_overhead(bytes: Seq<u8>)
    ensures
        13 * encoded(bytes).len() <= 16 * bytes.len() + 24,
{
    lemma_digits_len(bytes, 0, 0);
}

} // verus!
