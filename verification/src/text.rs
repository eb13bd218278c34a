//! Text building blocks: characters, padding and decimal numbers.

use vstd::arithmetic::power2::{lemma2_to64, lemma_pow2_unfold, pow2};
use vstd::prelude::*;

verus! {

/// `String::push` appends one character to the end of the string.
pub assume_specification[ String::push ](s: &mut String, c: char)
    ensures
        final(s)@ == old(s)@.push(c),
;

/// `n` copies of `c`.
pub open spec fn repeated(c: char, n: nat) -> Seq<char> {
    Seq::new(n, |i: int| c)
}

/// `s` followed by as many spaces as it takes to reach `width` characters.
pub open spec fn padded_right(s: Seq<char>, width: nat) -> Seq<char> {
    if s.len() < width {
        s + repeated(' ', (width - s.len()) as nat)
    } else {
        s
    }
}

/// `s` preceded by as many spaces as it takes to reach `width` characters.
pub open spec fn padded_left(s: Seq<char>, width: nat) -> Seq<char> {
    if s.len() < width {
        repeated(' ', (width - s.len()) as nat) + s
    } else {
        s
    }
}

/// Appends `n` copies of `c` to `out`.
pub fn push_repeated(out: &mut String, c: char, n: usize)
    ensures
        final(out)@ == old(out)@ + repeated(c, n as nat),
{
    let mut i: usize = 0;
    while i < n
        invariant
            i <= n,
            out@ =~= old(out)@ + repeated(c, i as nat),
        decreases n - i,
    {
        out.push(c);
        i = i + 1;
    }
}

/// Appends `s`, left-aligned in a field of `width` characters.
pub fn push_padded_right(out: &mut String, s: &str, width: usize)
    ensures
        final(out)@ == old(out)@ + padded_right(s@, width as nat),
{
    let len: usize = s.unicode_len();
    out.append(s);
    if len < width {
        push_repeated(out, ' ', width - len);
        assert(out@ =~= old(out)@ + (s@ + repeated(' ', (width - s@.len()) as nat)));
    }
}

/// Appends `s`, right-aligned in a field of `width` characters.
pub fn push_padded_left(out: &mut String, s: &str, width: usize)
    ensures
        final(out)@ == old(out)@ + padded_left(s@, width as nat),
{
    let len: usize = s.unicode_len();
    if len < width {
        push_repeated(out, ' ', width - len);
        out.append(s);
        assert(out@ =~= old(out)@ + (repeated(' ', (width - s@.len()) as nat) + s@));
    } else {
        out.append(s);
    }
}

/// Whether two strings hold the same characters.
pub fn same_text(a: &str, b: &str) -> (same: bool)
    ensures
        same == (a@ == b@),
{
    let x = a.as_bytes();
    let y = b.as_bytes();
    proof {
        vstd::utf8::encode_utf8_decode_utf8(a@);
        vstd::utf8::encode_utf8_decode_utf8(b@);
    }
    if x.len() != y.len() {
        return false;
    }
    let mut i: usize = 0;
    while i < x.len()
        invariant
            i <= x@.len(),
            x@.len() == y@.len(),
            x@ == vstd::utf8::encode_utf8(a@),
            y@ == vstd::utf8::encode_utf8(b@),
            forall|j: int| 0 <= j < i ==> x@[j] == y@[j],
        decreases x@.len() - i,
    {
        if x[i] != y[i] {
            return false;
        }
        i = i + 1;
    }
    assert(x@ =~= y@);
    true
}

/// The character of a decimal digit.
pub open spec fn digit(d: nat) -> char {
    ((48 + d) as u8) as char
}

/// `n` in decimal, without leading zeros.
pub open spec fn decimal(n: nat) -> Seq<char>
    decreases n,
{
    if n < 10 {
        seq![digit(n)]
    } else {
        decimal(n / 10).push(digit(n % 10))
    }
}

/// The last `places` decimal digits of `n`, with leading zeros.
pub open spec fn last_digits(n: nat, places: nat) -> Seq<char>
    decreases places,
{
    if places == 0 {
        Seq::empty()
    } else {
        last_digits(n / 10, (places - 1) as nat).push(digit(n % 10))
    }
}

/// `10^k`.
pub open spec fn power_of_ten(k: nat) -> nat
    decreases k,
{
    if k == 0 {
        1
    } else {
        10 * power_of_ten((k - 1) as nat)
    }
}

fn digit_char(d: u8) -> (c: char)
    requires
        d < 10,
    ensures
        c == digit(d as nat),
{
    (48 + d) as char
}

/// Appends `n` in decimal.
pub fn push_decimal(out: &mut String, n: u128)
    ensures
        final(out)@ == old(out)@ + decimal(n as nat),
    decreases n,
{
    if n >= 10 {
        push_decimal(out, n / 10);
    }
    out.push(digit_char((n % 10) as u8));
    assert(out@ =~= old(out)@ + decimal(n as nat));
}

/// Appends the last `places` decimal digits of `n`.
pub fn push_last_digits(out: &mut String, n: u128, places: u32)
    ensures
        final(out)@ == old(out)@ + last_digits(n as nat, places as nat),
    decreases places,
{
    if places > 0 {
        push_last_digits(out, n / 10, places - 1);
        out.push(digit_char((n % 10) as u8));
    }
    assert(out@ =~= old(out)@ + last_digits(n as nat, places as nat));
}

/// The number that decimal digits stand for, the least significant first.
pub open spec fn digits_value(digits: Seq<u8>) -> nat
    decreases digits.len(),
{
    if digits.len() == 0 {
        0
    } else {
        digits[0] as nat + 10 * digits_value(digits.drop_first())
    }
}

/// Whether every entry is a digit and the most significant one is not zero.
pub open spec fn is_digits(digits: Seq<u8>) -> bool {
    &&& forall|i: int| 0 <= i < digits.len() ==> #[trigger] digits[i] < 10
    &&& digits.len() > 0 ==> digits.last() > 0
}

/// The characters of decimal digits, the least significant digit first in
/// `digits` and last in the text.
pub open spec fn digits_text(digits: Seq<u8>) -> Seq<char>
    decreases digits.len(),
{
    if digits.len() == 0 {
        Seq::empty()
    } else {
        digits_text(digits.drop_first()).push(digit(digits[0] as nat))
    }
}

proof fn lemma_digits_value_positive(digits: Seq<u8>)
    requires
        is_digits(digits),
        digits.len() > 0,
    ensures
        digits_value(digits) > 0,
    decreases digits.len(),
{
    if digits.len() > 1 {
        assert(digits.drop_first().last() == digits.last());
        lemma_digits_value_positive(digits.drop_first());
    }
}

proof fn lemma_digits_text_is_decimal(digits: Seq<u8>)
    requires
        is_digits(digits),
        digits.len() > 0,
    ensures
        digits_text(digits) == decimal(digits_value(digits)),
    decreases digits.len(),
{
    let rest = digits.drop_first();
    if rest.len() == 0 {
        assert(digits_value(rest) == 0);
        assert(digits_text(rest) =~= Seq::<char>::empty());
        assert(digits_text(digits) =~= seq![digit(digits[0] as nat)]);
    } else {
        assert(rest.last() == digits.last());
        lemma_digits_value_positive(rest);
        lemma_digits_text_is_decimal(rest);
    }
}

proof fn lemma_digits_value_push(digits: Seq<u8>, d: u8)
    ensures
        digits_value(digits.push(d)) == digits_value(digits) + d * power_of_ten(digits.len()),
    decreases digits.len(),
{
    let all = digits.push(d);
    if digits.len() == 0 {
        assert(all.drop_first() =~= Seq::<u8>::empty());
        assert(digits_value(all.drop_first()) == 0);
        assert(d * power_of_ten(0) == d) by (nonlinear_arith)
            requires
                power_of_ten(0) == 1,
        ;
    } else {
        let rest = digits.drop_first();
        assert(all.drop_first() =~= rest.push(d));
        lemma_digits_value_push(rest, d);
        let p = power_of_ten(rest.len());
        assert(10 * (d * p) == d * (10 * p)) by (nonlinear_arith);
    }
}

/// The digits of `n`, the least significant first.
fn digits_of(n: u64) -> (digits: Vec<u8>)
    ensures
        is_digits(digits@),
        digits_value(digits@) == n,
        n > 0 ==> digits@.len() > 0,
{
    let mut digits: Vec<u8> = Vec::new();
    let mut m: u64 = n;
    assert(m * 1 == m);
    while m > 0
        invariant
            digits_value(digits@) + m * power_of_ten(digits@.len()) == n,
            forall|i: int| 0 <= i < digits@.len() ==> #[trigger] digits@[i] < 10,
            m == 0 && digits@.len() > 0 ==> digits@.last() > 0,
        decreases m,
    {
        let d: u8 = (m % 10) as u8;
        proof {
            lemma_digits_value_push(digits@, d);
            let p = power_of_ten(digits@.len());
            let q = (m / 10) as int;
            assert(m == 10 * q + d);
            assert(m * p == d * p + q * (10 * p)) by (nonlinear_arith)
                requires
                    m == 10 * q + d,
            ;
        }
        digits.push(d);
        m = m / 10;
    }
    assert(0 * power_of_ten(digits@.len()) == 0);
    digits
}

/// The digits of twice the number.
fn doubled(digits: &Vec<u8>) -> (twice: Vec<u8>)
    requires
        is_digits(digits@),
    ensures
        is_digits(twice@),
        digits_value(twice@) == 2 * digits_value(digits@),
        digits@.len() > 0 ==> twice@.len() > 0,
{
    let mut twice: Vec<u8> = Vec::new();
    let mut carry: u8 = 0;
    let mut i: usize = 0;
    proof {
        assert(digits@.skip(0) =~= digits@);
        assert(1 * (0 + 2 * digits_value(digits@)) == 2 * digits_value(digits@));
    }
    while i < digits.len()
        invariant
            is_digits(digits@),
            i <= digits@.len(),
            twice@.len() == i,
            carry <= 1,
            forall|j: int| 0 <= j < twice@.len() ==> #[trigger] twice@[j] < 10,
            digits_value(twice@) + power_of_ten(i as nat) * (carry + 2 * digits_value(
                digits@.skip(i as int),
            )) == 2 * digits_value(digits@),
            i == digits@.len() && i > 0 ==> carry > 0 || twice@.last() > 0,
        decreases digits@.len() - i,
    {
        let v: u8 = 2 * digits[i] + carry;
        let d: u8 = v % 10;
        proof {
            let rest = digits@.skip(i as int);
            assert(rest.drop_first() =~= digits@.skip(i + 1));
            assert(rest[0] == digits@[i as int]);
            lemma_digits_value_push(twice@, d);
            let p = power_of_ten(i as nat) as int;
            let t = digits_value(digits@.skip(i + 1)) as int;
            let c = (v / 10) as int;
            let dd = d as int;
            assert(carry + 2 * digits_value(rest) == dd + 10 * (c + 2 * t));
            assert(p * (dd + 10 * (c + 2 * t)) == dd * p + (10 * p) * (c + 2 * t))
                by (nonlinear_arith);
        }
        twice.push(d);
        carry = v / 10;
        i = i + 1;
    }
    proof {
        assert(digits@.skip(i as int).len() == 0);
        lemma_digits_value_push(twice@, carry);
        let p = power_of_ten(i as nat) as int;
        assert(p * (carry + 2 * 0) == carry * p) by (nonlinear_arith);
    }
    if carry > 0 {
        twice.push(carry);
    }
    twice
}

/// Appends `mant * 2^exp` in decimal.
pub fn push_decimal_scaled(out: &mut String, mant: u64, exp: u32)
    ensures
        final(out)@ == old(out)@ + decimal(mant as nat * pow2(exp as nat)),
{
    if mant == 0 {
        out.push('0');
        assert(0 * pow2(exp as nat) == 0);
        assert('0' == digit(0));
        assert(out@ =~= old(out)@ + decimal(0));
        return ;
    }
    let mut digits = digits_of(mant);
    let mut i: u32 = 0;
    proof {
        lemma2_to64();
        assert(mant * 1 == mant);
    }
    while i < exp
        invariant
            i <= exp,
            is_digits(digits@),
            digits@.len() > 0,
            digits_value(digits@) == mant as nat * pow2(i as nat),
        decreases exp - i,
    {
        proof {
            lemma_pow2_unfold((i + 1) as nat);
            let p = pow2(i as nat);
            assert(2 * (mant as nat * p) == mant as nat * (2 * p)) by (nonlinear_arith);
        }
        digits = doubled(&digits);
        i = i + 1;
    }
    let mut j: usize = digits.len();
    assert(digits@.skip(j as int) =~= Seq::<u8>::empty());
    while j > 0
        invariant
            j <= digits@.len(),
            is_digits(digits@),
            out@ =~= old(out)@ + digits_text(digits@.skip(j as int)),
        decreases j,
    {
        j = j - 1;
        assert(digits@.skip(j as int).drop_first() =~= digits@.skip(j + 1));
        out.push(digit_char(digits[j]));
    }
    proof {
        assert(digits@.skip(0) =~= digits@);
        lemma_digits_text_is_decimal(digits@);
    }
}

} // verus!
