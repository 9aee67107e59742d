//! The numeral parser and its specification.

use vstd::prelude::*;

verus! {

/// Largest magnitude a leading-minus decimal numeral may carry: 2^127,
/// the absolute value of the smallest signed 128-bit integer.
pub const NEG_LIMIT: u128 = 0x8000_0000_0000_0000_0000_0000_0000_0000;

/// Numeric value of a digit character: `'0'`-`'9'` count 0-9, `'a'`-`'f'`
/// and `'A'`-`'F'` count 10-15. Any other character yields 0; `is_digit`
/// rules such characters out wherever a value matters.
pub open spec fn digit_val(c: char) -> nat {
    if '0' <= c && c <= '9' {
        ((c as int) - ('0' as int)) as nat
    } else if 'a' <= c && c <= 'f' {
        ((c as int) - ('a' as int) + 10) as nat
    } else if 'A' <= c && c <= 'F' {
        ((c as int) - ('A' as int) + 10) as nat
    } else {
        0
    }
}

/// Whether `c` is a digit of the given radix (10 or 16).
pub open spec fn is_digit(c: char, radix: nat) -> bool {
    &&& (('0' <= c && c <= '9') || ('a' <= c && c <= 'f') || ('A' <= c && c <= 'F'))
    &&& digit_val(c) < radix
}

/// Whether `s` is a non-empty run of digits of the given radix.
pub open spec fn is_digit_run(s: Seq<char>, radix: nat) -> bool {
    &&& s.len() > 0
    &&& forall|i: int| 0 <= i < s.len() ==> is_digit(#[trigger] s[i], radix)
}

/// Value of a digit string read in the given radix, most significant first.
pub open spec fn digits_value(s: Seq<char>, radix: nat) -> nat
    decreases s.len(),
{
    if s.len() == 0 {
        0
    } else {
        digits_value(s.drop_last(), radix) * radix + digit_val(s.last())
    }
}

/// Two's-complement encoding within 128 bits of the negation of `d`:
/// `(2^128 - d) mod 2^128`.
pub open spec fn twos_complement_128(d: nat) -> nat
    recommends
        d <= 2 * (NEG_LIMIT as nat),
{
    if d == 0 {
        0
    } else {
        (2 * (NEG_LIMIT as nat) - d) as nat
    }
}

/// The result the parser owes for every input, over the input's characters.
///
/// An empty input yields nothing. A leading `'-'` demands a run of decimal
/// digits whose value is at most 2^127; the result is its two's-complement
/// encoding with the sign flag set. A `0x` prefix on a string of at least
/// three characters demands a run of hexadecimal digits after the prefix.
/// Anything else is read as a run of decimal digits. A value above
/// 2^128 - 1, an empty digit run or a character outside the radix yields
/// nothing.
pub open spec fn spec_parse(s: Seq<char>) -> Option<(u128, bool)> {
    if s.len() == 0 {
        None
    } else if s[0] == '-' {
        let d = s.drop_first();
        if is_digit_run(d, 10) && digits_value(d, 10) <= NEG_LIMIT {
            Some((twos_complement_128(digits_value(d, 10)) as u128, true))
        } else {
            None
        }
    } else if s.len() >= 3 && s[0] == '0' && s[1] == 'x' {
        let h = s.skip(2);
        if is_digit_run(h, 16) && digits_value(h, 16) <= u128::MAX {
            Some((digits_value(h, 16) as u128, false))
        } else {
            None
        }
    } else {
        if is_digit_run(s, 10) && digits_value(s, 10) <= u128::MAX {
            Some((digits_value(s, 10) as u128, false))
        } else {
            None
        }
    }
}

/// Digit value of `c` in the given radix, or `None` when `c` is no digit
/// of it.
fn digit_value(c: char, radix: u32) -> (r: Option<u32>)
    requires
        radix == 10 || radix == 16,
    ensures
        r is Some <==> is_digit(c, radix as nat),
        r is Some ==> r == Some(digit_val(c) as u32),
{
    let u = c as u32;
    if '0' as u32 <= u && u <= '9' as u32 {
        Some(u - '0' as u32)
    } else if radix == 16 && 'a' as u32 <= u && u <= 'f' as u32 {
        Some(u - 'a' as u32 + 10)
    } else if radix == 16 && 'A' as u32 <= u && u <= 'F' as u32 {
        Some(u - 'A' as u32 + 10)
    } else {
        None
    }
}

/// Reading one more digit multiplies the value so far by the radix and adds
/// the digit.
proof fn lemma_digits_value_push(s: Seq<char>, a: int, b: int, radix: nat)
    requires
        0 <= a <= b < s.len(),
    ensures
        digits_value(s.subrange(a, b + 1), radix) == digits_value(s.subrange(a, b), radix) * radix
            + digit_val(s[b]),
{
    assert(s.subrange(a, b + 1).drop_last() =~= s.subrange(a, b));
    assert(s.subrange(a, b + 1).last() == s[b]);
}

/// The value of a digit string is at least the value of any of its prefixes.
proof fn lemma_digits_value_prefix_le(s: Seq<char>, k: int, radix: nat)
    requires
        0 <= k <= s.len(),
        radix >= 1,
    ensures
        digits_value(s.subrange(0, k), radix) <= digits_value(s, radix),
    decreases s.len() - k,
{
    if k == s.len() {
        assert(s.subrange(0, k) =~= s);
    } else {
        lemma_digits_value_prefix_le(s, k + 1, radix);
        lemma_digits_value_push(s, 0, k, radix);
        let p = digits_value(s.subrange(0, k), radix);
        assert(p * radix >= p * 1) by (nonlinear_arith)
            requires radix >= 1, p >= 0;
    }
}

/// Reads the digits of `s` from position `start` to the end in the given
/// radix. Yields their value exactly when the run is non-empty, every
/// character is a digit of the radix, and the value is at most `limit`.
fn parse_digits(s: &str, start: usize, radix: u32, limit: u128) -> (r: Option<u128>)
    requires
        start <= s@.len(),
        radix == 10 || radix == 16,
    ensures
        ({
            let run = s@.skip(start as int);
            if is_digit_run(run, radix as nat) && digits_value(run, radix as nat) <= limit {
                r == Some(digits_value(run, radix as nat) as u128)
            } else {
                r is None
            }
        }),
{
    let ghost run = s@.skip(start as int);
    let n = s.unicode_len();
    if start >= n {
        return None;
    }
    let mut i: usize = start;
    let mut acc: u128 = 0;
    while i < n
        invariant
            start <= i <= n,
            n == s@.len(),
            radix == 10 || radix == 16,
            run == s@.skip(start as int),
            forall|j: int| start <= j < i ==> is_digit(#[trigger] s@[j], radix as nat),
            acc == digits_value(s@.subrange(start as int, i as int), radix as nat),
            acc <= limit,
        decreases n - i,
    {
        let c = s.get_char(i);
        match digit_value(c, radix) {
            None => {
                assert(!is_digit(run[i - start], radix as nat));
                return None;
            },
            Some(d) => {
                proof {
                    lemma_digits_value_push(s@, start as int, i as int, radix as nat);
                    assert(s@.subrange(start as int, i as int + 1) =~= run.subrange(
                        0,
                        i - start + 1,
                    ));
                    lemma_digits_value_prefix_le(run, i - start + 1, radix as nat);
                }
                let acc2 = match acc.checked_mul(radix as u128) {
                    Some(acc2) => acc2,
                    None => {
                        return None;
                    },
                };
                let next = match acc2.checked_add(d as u128) {
                    Some(next) => next,
                    None => {
                        return None;
                    },
                };
                if next > limit {
                    return None;
                }
                acc = next;
                i = i + 1;
            },
        }
    }
    proof {
        assert(s@.subrange(start as int, n as int) =~= run);
    }
    Some(acc)
}

/// Parses `s` as a numeral: decimal, hexadecimal behind a `0x` prefix, or
/// negative decimal behind a `-` sign. Returns the 128-bit magnitude and a
/// flag that is true exactly when the input carried a leading minus; a
/// negative value is returned as its two's-complement bit pattern. Returns
/// `None` on an empty input, a malformed numeral, a value out of range, or
/// a negative hexadecimal form. `spec_parse` states the exact result for
/// every input.
pub fn format_string_into_number(s: &str) -> (r: Option<(u128, bool)>)
    ensures
        r == spec_parse(s@),
{
    let n = s.unicode_len();
    if n == 0 {
        return None;
    }
    let c0 = s.get_char(0);
    if c0 == '-' {
        proof {
            assert(s@.drop_first() =~= s@.skip(1));
        }
        match parse_digits(s, 1, 10, NEG_LIMIT) {
            Some(d) => {
                let m: u128 = if d == 0 {
                    0
                } else {
                    (u128::MAX - d) + 1
                };
                Some((m, true))
            },
            None => None,
        }
    } else if n >= 3 && c0 == '0' && s.get_char(1) == 'x' {
        match parse_digits(s, 2, 16, u128::MAX) {
            Some(v) => Some((v, false)),
            None => None,
        }
    } else {
        proof {
            assert(s@.skip(0) =~= s@);
        }
        match parse_digits(s, 0, 10, u128::MAX) {
            Some(v) => Some((v, false)),
            None => None,
        }
    }
}

/// Every plain run of decimal digits whose value fits in 128 bits parses to
/// that value with the sign flag clear.
pub proof fn lemma_parse_decimal(s: Seq<char>)
    requires
        is_digit_run(s, 10),
        digits_value(s, 10) <= u128::MAX,
    ensures
        spec_parse(s) == Some((digits_value(s, 10) as u128, false)),
{
    assert(is_digit(s[0], 10));
    if s.len() >= 3 {
        assert(is_digit(s[1], 10));
    }
}

/// Every numeral `"0x"` followed by a run of hex digits whose value fits in
/// 128 bits parses to that value with the sign flag clear.
pub proof fn lemma_parse_hex(h: Seq<char>)
    requires
        is_digit_run(h, 16),
        digits_value(h, 16) <= u128::MAX,
    ensures
        spec_parse(seq!['0', 'x'] + h) == Some((digits_value(h, 16) as u128, false)),
{
    let s = seq!['0', 'x'] + h;
    assert(s.len() >= 3);
    assert(s[0] == '0');
    assert(s[1] == 'x');
    assert(s.skip(2) =~= h);
}

/// Every numeral `"-"` followed by a run of decimal digits whose value lies
/// within the signed 128-bit range parses to the two's-complement encoding
/// of its negation, with the sign flag set.
pub proof fn lemma_parse_negative(d: Seq<char>)
    requires
        is_digit_run(d, 10),
        digits_value(d, 10) <= NEG_LIMIT,
    ensures
        spec_parse(seq!['-'] + d) == Some((twos_complement_128(digits_value(d, 10)) as u128, true)),
{
    let s = seq!['-'] + d;
    assert(s[0] == '-');
    assert(s.drop_first() =~= d);
}

/// The digit character for a value below 16, lowercase for 10-15.
pub open spec fn digit_char(d: nat) -> char
    recommends
        d < 16,
{
    if d == 0 {
        '0'
    } else if d == 1 {
        '1'
    } else if d == 2 {
        '2'
    } else if d == 3 {
        '3'
    } else if d == 4 {
        '4'
    } else if d == 5 {
        '5'
    } else if d == 6 {
        '6'
    } else if d == 7 {
        '7'
    } else if d == 8 {
        '8'
    } else if d == 9 {
        '9'
    } else if d == 10 {
        'a'
    } else if d == 11 {
        'b'
    } else if d == 12 {
        'c'
    } else if d == 13 {
        'd'
    } else if d == 14 {
        'e'
    } else {
        'f'
    }
}

/// Decimal rendering of `v`: its digits, most significant first, with no
/// sign and no leading zero except for `v == 0` itself.
pub open spec fn dec_repr(v: nat) -> Seq<char>
    decreases v,
{
    if v < 10 {
        seq![digit_char(v)]
    } else {
        dec_repr(v / 10).push(digit_char(v % 10))
    }
}

/// Hexadecimal rendering of `v`: its hex digits, most significant first,
/// lowercase, with no prefix and no leading zero except for `v == 0` itself.
pub open spec fn hex_repr(v: nat) -> Seq<char>
    decreases v,
{
    if v < 16 {
        seq![digit_char(v)]
    } else {
        hex_repr(v / 16).push(digit_char(v % 16))
    }
}

/// `digit_char` and `digit_val` are inverse on the digit values.
proof fn lemma_digit_char_val(d: nat)
    requires
        d < 16,
    ensures
        is_digit(digit_char(d), 16),
        digit_val(digit_char(d)) == d,
        d < 10 ==> is_digit(digit_char(d), 10),
{
}

/// The decimal rendering of `v` is a run of decimal digits whose value is
/// `v` again.
pub proof fn lemma_dec_repr_value(v: nat)
    ensures
        is_digit_run(dec_repr(v), 10),
        digits_value(dec_repr(v), 10) == v,
    decreases v,
{
    lemma_digit_char_val(v % 10);
    if v < 10 {
        let s = dec_repr(v);
        assert(s.drop_last() =~= Seq::<char>::empty());
        assert(s.last() == digit_char(v));
        assert(digits_value(Seq::<char>::empty(), 10) == 0);
        assert(digits_value(s, 10) == digits_value(s.drop_last(), 10) * 10 + digit_val(s.last()));
        assert(digits_value(s, 10) == digit_val(digit_char(v)));
    } else {
        lemma_dec_repr_value(v / 10);
        let p = dec_repr(v / 10);
        let s = p.push(digit_char(v % 10));
        assert(s.drop_last() =~= p);
        assert(s.last() == digit_char(v % 10));
        vstd::arithmetic::div_mod::lemma_fundamental_div_mod(v as int, 10);
        assert forall|i: int| 0 <= i < s.len() implies is_digit(#[trigger] s[i], 10) by {
            if i < p.len() {
                assert(is_digit(p[i], 10));
            } else {
                assert(s[i] == digit_char(v % 10));
            }
        }
    }
}

/// The hexadecimal rendering of `v` is a run of hex digits whose value is
/// `v` again.
pub proof fn lemma_hex_repr_value(v: nat)
    ensures
        is_digit_run(hex_repr(v), 16),
        digits_value(hex_repr(v), 16) == v,
    decreases v,
{
    lemma_digit_char_val(v % 16);
    if v < 16 {
        let s = hex_repr(v);
        assert(s.drop_last() =~= Seq::<char>::empty());
        assert(s.last() == digit_char(v));
        assert(digits_value(Seq::<char>::empty(), 16) == 0);
        assert(digits_value(s, 16) == digits_value(s.drop_last(), 16) * 16 + digit_val(s.last()));
        assert(digits_value(s, 16) == digit_val(digit_char(v)));
    } else {
        lemma_hex_repr_value(v / 16);
        let p = hex_repr(v / 16);
        let s = p.push(digit_char(v % 16));
        assert(s.drop_last() =~= p);
        assert(s.last() == digit_char(v % 16));
        vstd::arithmetic::div_mod::lemma_fundamental_div_mod(v as int, 16);
        assert forall|i: int| 0 <= i < s.len() implies is_digit(#[trigger] s[i], 16) by {
            if i < p.len() {
                assert(is_digit(p[i], 16));
            } else {
                assert(s[i] == digit_char(v % 16));
            }
        }
    }
}

/// Round trip in decimal: rendering a magnitude as a decimal numeral and
/// parsing the rendering yields the same magnitude with the sign flag
/// clear.
pub proof fn lemma_round_trip_decimal(v: u128)
    ensures
        spec_parse(dec_repr(v as nat)) == Some((v, false)),
{
    lemma_dec_repr_value(v as nat);
    lemma_parse_decimal(dec_repr(v as nat));
}

/// Round trip in hexadecimal: rendering a magnitude as a `0x`-prefixed hex
/// numeral and parsing the rendering yields the same magnitude with the
/// sign flag clear.
pub proof fn lemma_round_trip_hex(v: u128)
    ensures
        spec_parse(seq!['0', 'x'] + hex_repr(v as nat)) == Some((v, false)),
{
    lemma_hex_repr_value(v as nat);
    lemma_parse_hex(hex_repr(v as nat));
}

} // verus!
