//! What numbers look like, in bytes and in text.

use vstd::prelude::*;

use vstd::arithmetic::power::pow;

use crate::text;
use crate::wire;

verus! {

/// Byte `i` of a little-endian number is its digit at 256 to the power of `i`.
pub proof fn law_bytes_are_the_digits(x: nat, width: nat, i: nat)
    requires
        i < width,
    ensures
        wire::le_bytes(x, width).len() == width,
        pow(256, i) > 0,
        wire::le_bytes(x, width)[i as int] as int == (x as int / pow(256, i)) % 256,
    decreases i,
{
    wire::lemma_le_bytes_len(x, width);
    vstd::arithmetic::power::lemma_pow_positive(256, i);
    if i == 0 {
        vstd::arithmetic::power::lemma_pow0(256);
    } else {
        let j = (i - 1) as nat;
        law_bytes_are_the_digits(x / 256, (width - 1) as nat, j);
        assert(wire::le_bytes(x, width)[i as int] == wire::le_bytes(x / 256, (width - 1) as nat)[j as int]);
        vstd::arithmetic::power::lemma_pow_adds(256, 1, j);
        vstd::arithmetic::power::lemma_pow1(256);
        vstd::arithmetic::power::lemma_pow_positive(256, j);
        vstd::arithmetic::div_mod::lemma_div_denominator(x as int, 256, pow(256, j));
    }
}

/// A number is read from its bytes, least significant first: the first byte counts once,
/// and the rest 256 times. Writing what was read gives the bytes back.
pub proof fn law_value_of_bytes(bytes: Seq<u8>, b: u8)
    ensures
        wire::le_value(Seq::<u8>::empty()) == 0,
        wire::le_value(seq![b] + bytes) == b + 256 * wire::le_value(bytes),
        wire::le_bytes(wire::le_value(bytes), bytes.len()) == bytes,
        (wire::le_value(bytes) as int) < pow(256, bytes.len()),
    decreases bytes.len(),
{
    assert((seq![b] + bytes).drop_first() =~= bytes);
    wire::lemma_le_bytes_of_value(bytes);
    lemma_range_is_a_power(bytes.len());
}

proof fn lemma_range_is_a_power(width: nat)
    ensures
        wire::le_range(width) == pow(256, width),
    decreases width,
{
    if width == 0 {
        vstd::arithmetic::power::lemma_pow0(256);
    } else {
        let less = (width - 1) as nat;
        lemma_range_is_a_power(less);
        vstd::arithmetic::power::lemma_pow_adds(256, 1, less);
        vstd::arithmetic::power::lemma_pow1(256);
    }
}

/// The characters for the digits.
pub proof fn law_digits(d: nat)
    requires
        d < 16,
    ensures
        "0123456789abcdef"@.len() == 16,
        text::digit(d) == "0123456789abcdef"@[d as int],
{
    reveal_strlit("0123456789abcdef");
}

/// The number that characters stand for, read as decimal digits.
pub open spec fn read_as_decimal(s: Seq<char>) -> int
    decreases s.len(),
{
    if s.len() == 0 {
        0
    } else {
        10 * read_as_decimal(s.drop_last()) + (s.last() as int - 48)
    }
}

/// A number in decimal is digits only, stands for the number, and starts with a zero only
/// if it is zero.
pub proof fn law_decimal_stands_for_the_number(n: nat, i: int)
    ensures
        text::decimal(n).len() > 0,
        0 <= i < text::decimal(n).len() ==> 48 <= text::decimal(n)[i] as int <= 57,
        read_as_decimal(text::decimal(n)) == n,
        text::decimal(n)[0] as int == 48 ==> n == 0 && text::decimal(n).len() == 1,
    decreases n,
{
    let s = text::decimal(n);
    if n < 10 {
        assert(s.drop_last() =~= Seq::<char>::empty());
        assert(read_as_decimal(s.drop_last()) == 0);
        assert(s.last() == text::digit(n));
    } else {
        let front = text::decimal(n / 10);
        assert(s.drop_last() =~= front);
        law_decimal_stands_for_the_number(n / 10, i);
        law_decimal_stands_for_the_number(n / 10, 0);
        assert(s[0] == front[0]);
        assert(s.last() == text::digit(n % 10));
    }
}

/// Different numbers have different decimal forms.
pub proof fn law_decimal_tells_numbers_apart(a: nat, b: nat)
    requires
        text::decimal(a) == text::decimal(b),
    ensures
        a == b,
{
    law_decimal_stands_for_the_number(a, 0);
    law_decimal_stands_for_the_number(b, 0);
}

/// A padded number has the width asked for, and each of its characters is the digit that
/// belongs to its place.
pub proof fn law_padded_has_its_digits(n: nat, radix: nat, width: nat, place: nat)
    requires
        2 <= radix <= 16,
        place < width,
    ensures
        text::padded(n, radix, width).len() == width,
        pow(radix as int, place) > 0,
        text::padded(n, radix, width)[width - 1 - place] == "0123456789abcdef"@[(n as int / pow(
            radix as int,
            place,
        )) % radix as int],
    decreases width,
{
    lemma_padded_len(n, radix, width);
    vstd::arithmetic::power::lemma_pow_positive(radix as int, place);
    let front = text::padded(n / radix, radix, (width - 1) as nat);
    lemma_padded_len(n / radix, radix, (width - 1) as nat);
    if place == 0 {
        vstd::arithmetic::power::lemma_pow0(radix as int);
        assert(n as int / 1 == n as int) by (nonlinear_arith);
        assert(0 <= n as int % radix as int && (n as int % radix as int) < radix) by (nonlinear_arith)
            requires
                radix >= 2,
        ;
        law_digits(n % radix);
    } else {
        let j = (place - 1) as nat;
        law_padded_has_its_digits(n / radix, radix, (width - 1) as nat, j);
        assert(text::padded(n, radix, width)[width - 1 - place] == front[width - 2 - j]);
        vstd::arithmetic::power::lemma_pow_adds(radix as int, 1, j);
        vstd::arithmetic::power::lemma_pow1(radix as int);
        vstd::arithmetic::power::lemma_pow_positive(radix as int, j);
        vstd::arithmetic::div_mod::lemma_div_denominator(
            n as int,
            radix as int,
            pow(radix as int, j),
        );
    }
}

proof fn lemma_padded_len(n: nat, radix: nat, width: nat)
    requires
        2 <= radix,
    ensures
        text::padded(n, radix, width).len() == width,
    decreases width,
{
    if width > 0 {
        lemma_padded_len(n / radix, radix, (width - 1) as nat);
    }
}

/// Text without a plus sign in front.
pub open spec fn unsigned(s: Seq<char>) -> Seq<char> {
    if s.len() > 0 && s[0] as int == 43 {
        s.skip(1)
    } else {
        s
    }
}

/// Whether text is decimal digits, at least one.
pub open spec fn is_digits(s: Seq<char>) -> bool {
    s.len() > 0 && forall|i: int| 0 <= i < s.len() ==> 48 <= (#[trigger] s[i]) as int <= 57
}

/// Text denotes a number exactly if it is decimal digits, at least one, perhaps behind a
/// plus sign, and the number is no larger than allowed; it is then that number.
pub proof fn law_text_is_read_as_decimal(s: Seq<char>, max: nat)
    ensures
        text::parsed(s, max) is Some <==> is_digits(unsigned(s)) && read_as_decimal(unsigned(s))
            <= max,
        text::parsed(s, max) is Some ==> text::parsed(s, max)->0 == read_as_decimal(unsigned(s)),
{
    let digits = text::without_plus(s);
    assert(digits =~= unsigned(s));
    if is_digits(digits) {
        lemma_read_as_decimal(digits);
        assert forall|i: int| 0 <= i < digits.len() implies text::is_decimal_digit(
            #[trigger] digits[i],
        ) by {
            assert(48 <= digits[i] as int <= 57);
        }
    }
    if text::parsed(s, max) is Some {
        assert forall|i: int| 0 <= i < digits.len() implies 48 <= (
        #[trigger] digits[i]) as int <= 57 by {
            assert(text::is_decimal_digit(digits[i]));
        }
        lemma_read_as_decimal(digits);
    }
}

pub proof fn lemma_read_as_decimal(s: Seq<char>)
    requires
        forall|i: int| 0 <= i < s.len() ==> 48 <= (#[trigger] s[i]) as int <= 57,
    ensures
        text::decimal_value(s) == read_as_decimal(s),
        read_as_decimal(s) >= 0,
    decreases s.len(),
{
    if s.len() > 0 {
        assert forall|i: int| 0 <= i < s.drop_last().len() implies 48 <= (
        #[trigger] s.drop_last()[i]) as int <= 57 by {
            assert(s.drop_last()[i] == s[i]);
        }
        lemma_read_as_decimal(s.drop_last());
    }
}

} // verus!
