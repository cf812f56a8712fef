//! Exact decimal numbers: the numbers that a literal such as `-0.25` can write down.

use vstd::prelude::*;
use crate::text::all_digits;
use crate::text::digit_char;
use crate::text::digit_value;
use crate::text::digits_of;
use crate::text::digits_value;
use crate::text::fixed_digits;
use crate::text::is_digit;
use crate::text::lemma_digit_char;
use crate::text::lemma_digits_of;
use crate::text::lemma_digits_value_concat;
use crate::text::lemma_digits_value_push;
use crate::text::lemma_fixed_digits;
use crate::text::lemma_pow10_positive;
use crate::text::pow10;
use crate::text::push_chars;

verus! {

/// The largest magnitude that a number of this library can have: two to the power 63.
pub const MAX_MAGNITUDE: u64 = 0x8000_0000_0000_0000;

/// The number `mantissa / 10^scale`.
///
/// A value is always held in lowest terms: the mantissa of a number with a fractional
/// part does not end in a zero. So two values are equal exactly when they stand for the
/// same number.
#[derive(Debug, PartialEq, Eq, Clone, Copy, Hash)]
pub struct Decimal {
    pub(crate) mantissa: i64,
    pub(crate) scale: u8,
}

/// The lowest terms of `mantissa / 10^scale`.
pub open spec fn lowest_terms(mantissa: int, scale: nat) -> (int, nat)
    decreases scale,
{
    if scale > 0 && mantissa % 10 == 0 {
        lowest_terms(mantissa / 10, (scale - 1) as nat)
    } else {
        (mantissa, scale)
    }
}

/// Whether `mantissa / 10^scale` is in lowest terms.
pub open spec fn in_lowest_terms(mantissa: int, scale: nat) -> bool {
    scale == 0 || mantissa % 10 != 0
}

/// `n` without its last `k` decimal digits.
pub open spec fn drop_digits(n: nat, k: nat) -> nat
    decreases k,
{
    if k == 0 {
        n
    } else {
        drop_digits(n / 10, (k - 1) as nat)
    }
}

/// A run of digits without the zeros at its end.
pub open spec fn strip_zeros(s: Seq<char>) -> Seq<char>
    decreases s.len(),
{
    if s.len() > 0 && s.last() == '0' {
        strip_zeros(s.drop_last())
    } else {
        s
    }
}

/// The magnitude of an integer.
pub open spec fn magnitude(x: int) -> nat {
    if x < 0 {
        (-x) as nat
    } else {
        x as nat
    }
}

/// The text of the number `mantissa / 10^scale`: a minus sign where it is negative, the
/// digits of its whole part, a point, and the `scale` digits of its fractional part (one
/// zero where it has none).
pub open spec fn decimal_text(mantissa: int, scale: nat) -> Seq<char> {
    let m = magnitude(mantissa);
    let sign = if mantissa < 0 {
        seq!['-']
    } else {
        Seq::<char>::empty()
    };
    let fraction = if scale == 0 {
        seq!['0']
    } else {
        fixed_digits(m, scale)
    };
    sign + digits_of(drop_digits(m, scale)) + seq!['.'] + fraction
}

/// The number that the digits `whole`, a point and the digits `fraction` write down, as a
/// mantissa and a scale in lowest terms; `None` where the mantissa does not fit in 64
/// bits or the fraction has more than 255 digits that count.
pub open spec fn decimal_of(negative: bool, whole: Seq<char>, fraction: Seq<char>) -> Option<
    (int, nat),
> {
    let f = strip_zeros(fraction);
    let m = digits_value(whole + f);
    let mantissa = if negative {
        -(m as int)
    } else {
        m as int
    };
    if i64::MIN <= mantissa <= i64::MAX && f.len() <= u8::MAX {
        Some((mantissa, f.len()))
    } else {
        None
    }
}

/// The integer that the digits `digits` write down; `None` where it does not fit in 64
/// bits.
pub open spec fn integer_of(negative: bool, digits: Seq<char>) -> Option<i64> {
    let m = digits_value(digits);
    let value = if negative {
        -(m as int)
    } else {
        m as int
    };
    if i64::MIN <= value <= i64::MAX {
        Some(value as i64)
    } else {
        None
    }
}

/// The text of an integer: a minus sign where it is negative, then its digits.
pub open spec fn integer_text(x: int) -> Seq<char> {
    let sign = if x < 0 {
        seq!['-']
    } else {
        Seq::<char>::empty()
    };
    sign + digits_of(magnitude(x))
}

/// Splitting a number after its last `k` digits loses nothing.
pub proof fn lemma_drop_digits(n: nat, k: nat)
    ensures
        drop_digits(n, k) * pow10(k) + n % pow10(k) == n,
    decreases k,
{
    if k == 0 {
        assert(pow10(0) == 1);
        assert(drop_digits(n, 0) * 1 == n);
    } else {
        let j = (k - 1) as nat;
        let p = pow10(j);
        let d = drop_digits(n / 10, j);
        lemma_drop_digits(n / 10, j);
        lemma_pow10_positive(j);
        vstd::arithmetic::div_mod::lemma_mod_breakdown(n as int, 10, p as int);
        assert(d * (10 * p) == 10 * (d * p)) by (nonlinear_arith);
    }
}

/// A run of digits that does not end in a zero has no zeros to strip.
pub proof fn lemma_strip_nothing(s: Seq<char>)
    requires
        s.len() == 0 || s.last() != '0',
    ensures
        strip_zeros(s) == s,
{
}

pub proof fn lemma_strip_zeros(s: Seq<char>)
    ensures
        strip_zeros(s).len() <= s.len(),
        strip_zeros(s) == s.subrange(0, strip_zeros(s).len() as int),
        strip_zeros(s).len() == 0 || strip_zeros(s).last() != '0',
        forall|i: int| strip_zeros(s).len() <= i < s.len() ==> s[i] == '0',
    decreases s.len(),
{
    if s.len() > 0 && s.last() == '0' {
        lemma_strip_zeros(s.drop_last());
        let n = strip_zeros(s).len() as int;
        assert(s.drop_last().subrange(0, n) =~= s.subrange(0, n));
        assert forall|i: int| n <= i < s.len() implies s[i] == '0' by {
            if i < s.len() - 1 {
                assert(s.drop_last()[i] == s[i]);
            }
        }
    } else {
        assert(s.subrange(0, s.len() as int) =~= s);
    }
}

/// Reading the text of an integer gives the integer back.
pub proof fn lemma_integer_round_trip(x: i64)
    ensures
        integer_of(x < 0, digits_of(magnitude(x as int))) == Some(x),
{
    lemma_digits_of(magnitude(x as int));
}

/// Reading the text of a number in lowest terms gives its mantissa and scale back.
pub proof fn lemma_decimal_round_trip(mantissa: i64, scale: u8)
    requires
        in_lowest_terms(mantissa as int, scale as nat),
    ensures
        decimal_of(
            mantissa < 0,
            digits_of(drop_digits(magnitude(mantissa as int), scale as nat)),
            if scale == 0 {
                seq!['0']
            } else {
                fixed_digits(magnitude(mantissa as int), scale as nat)
            },
        ) == Some((mantissa as int, scale as nat)),
{
    let m = magnitude(mantissa as int);
    let s = scale as nat;
    let whole = digits_of(drop_digits(m, s));
    lemma_digits_of(drop_digits(m, s));
    lemma_drop_digits(m, s);
    if scale == 0 {
        let fraction = seq!['0'];
        assert(fraction.drop_last() =~= Seq::<char>::empty());
        assert(strip_zeros(fraction.drop_last()) == Seq::<char>::empty());
        assert(strip_zeros(fraction) =~= Seq::<char>::empty());
        assert(whole + Seq::<char>::empty() =~= whole);
        assert(pow10(0) == 1);
    } else {
        let fraction = fixed_digits(m, s);
        lemma_fixed_digits(m, s);
        lemma_digit_char(m % 10);
        assert(fraction.last() == digit_char(m % 10));
        assert(m % 10 != 0) by {
            if mantissa < 0 {
                assert((-(mantissa as int)) % 10 != 0) by (nonlinear_arith)
                    requires
                        (mantissa as int) % 10 != 0,
                ;
            }
        }
        assert(fraction.last() != '0');
        lemma_strip_nothing(fraction);
        lemma_digits_value_concat(whole, fraction);
    }
}

impl Decimal {
    #[verifier::type_invariant]
    pub open(crate) spec fn wf(self) -> bool {
        in_lowest_terms(self.mantissa as int, self.scale as nat)
    }

    /// The mantissa: the number is `mantissa / 10^scale`.
    pub open(crate) spec fn spec_mantissa(self) -> int {
        self.mantissa as int
    }

    /// The scale: how many digits stand behind the point.
    pub open(crate) spec fn spec_scale(self) -> nat {
        self.scale as nat
    }

    /// The text of the number.
    pub open spec fn text(self) -> Seq<char> {
        decimal_text(self.spec_mantissa(), self.spec_scale())
    }

    /// The number `mantissa / 10^scale`, brought to lowest terms.
    pub fn new(mantissa: i64, scale: u8) -> (d: Decimal)
        ensures
            d.wf(),
            (d.spec_mantissa(), d.spec_scale()) == lowest_terms(mantissa as int, scale as nat),
    {
        let mut m: i64 = mantissa;
        let mut s: u8 = scale;
        while s > 0 && m % 10 == 0
            invariant
                lowest_terms(m as int, s as nat) == lowest_terms(mantissa as int, scale as nat),
            decreases s,
        {
            assert(m as int % 10 == 0 ==> (m % 10) as int == 0);
            m = m / 10;
            s = s - 1;
        }
        assert(in_lowest_terms(m as int, s as nat)) by {
            if s > 0 {
                assert((m % 10) as int != 0);
                assert(m as int % 10 != 0) by {
                    if m >= 0 {
                    } else {
                        assert((m as int) % 10 == 0 ==> (m % 10) as int == 0);
                    }
                }
            }
        }
        Decimal { mantissa: m, scale: s }
    }

    /// The whole number `x`.
    pub open(crate) spec fn whole(x: i64) -> Decimal {
        Decimal { mantissa: x, scale: 0 }
    }

    /// The number `mantissa / 10^scale`, which is in lowest terms.
    pub open(crate) spec fn of(mantissa: i64, scale: u8) -> Decimal
        recommends
            in_lowest_terms(mantissa as int, scale as nat),
    {
        Decimal { mantissa, scale }
    }

    /// The whole number `x`.
    pub fn from_integer(x: i64) -> (d: Decimal)
        ensures
            d == Decimal::whole(x),
    {
        Decimal { mantissa: x, scale: 0 }
    }

    #[verifier::when_used_as_spec(spec_mantissa_i64)]
    pub fn mantissa(&self) -> (m: i64)
        ensures
            m == self.spec_mantissa(),
    {
        self.mantissa
    }

    pub open(crate) spec fn spec_mantissa_i64(&self) -> i64 {
        self.mantissa
    }

    #[verifier::when_used_as_spec(spec_scale_u8)]
    pub fn scale(&self) -> (s: u8)
        ensures
            s == self.spec_scale(),
    {
        self.scale
    }

    pub open(crate) spec fn spec_scale_u8(&self) -> u8 {
        self.scale
    }

    /// Appends the text of the number to `out`.
    pub fn write_to(&self, out: &mut String)
        ensures
            final(out)@ == old(out)@ + self.text(),
    {
        let m = magnitude_of(self.mantissa);
        let ghost sign = if self.mantissa < 0 {
            seq!['-']
        } else {
            Seq::<char>::empty()
        };
        if self.mantissa < 0 {
            out.push('-');
        }
        assert(out@ =~= old(out)@ + sign);
        let whole = digits_vec(without_digits(m, self.scale));
        push_chars(out, &whole);
        out.push('.');
        if self.scale == 0 {
            out.push('0');
            assert(out@ =~= old(out)@ + self.text());
        } else {
            let fraction = fixed_digits_vec(m, self.scale);
            push_chars(out, &fraction);
            assert(out@ =~= old(out)@ + self.text());
        }
    }

    /// The text of the number.
    pub fn to_string(&self) -> (s: String)
        ensures
            s@ == self.text(),
    {
        let mut s = String::new();
        self.write_to(&mut s);
        assert(Seq::<char>::empty() + self.text() =~= self.text());
        s
    }
}

/// The magnitude of `x`.
pub fn magnitude_of(x: i64) -> (m: u64)
    ensures
        m == magnitude(x as int),
        m <= MAX_MAGNITUDE,
{
    if x >= 0 {
        x as u64
    } else if x == i64::MIN {
        MAX_MAGNITUDE
    } else {
        (-x) as u64
    }
}

/// `n` without its last `k` decimal digits.
pub fn without_digits(n: u64, k: u8) -> (r: u64)
    ensures
        r == drop_digits(n as nat, k as nat),
{
    let mut r: u64 = n;
    let mut i: u8 = k;
    while i > 0
        invariant
            drop_digits(r as nat, i as nat) == drop_digits(n as nat, k as nat),
        decreases i,
    {
        r = r / 10;
        i = i - 1;
    }
    r
}

/// The decimal digits of `n`.
pub fn digits_vec(n: u64) -> (v: Vec<char>)
    ensures
        v@ == digits_of(n as nat),
    decreases n,
{
    if n < 10 {
        let mut v: Vec<char> = Vec::new();
        v.push(digit_of(n as u8));
        assert(v@ =~= seq![digit_char(n as nat)]);
        v
    } else {
        let mut v = digits_vec(n / 10);
        v.push(digit_of((n % 10) as u8));
        v
    }
}

/// The last `width` decimal digits of `n`.
pub fn fixed_digits_vec(n: u64, width: u8) -> (v: Vec<char>)
    ensures
        v@ == fixed_digits(n as nat, width as nat),
    decreases width,
{
    if width == 0 {
        let v: Vec<char> = Vec::new();
        assert(v@ =~= Seq::<char>::empty());
        v
    } else {
        let mut v = fixed_digits_vec(n / 10, width - 1);
        v.push(digit_of((n % 10) as u8));
        v
    }
}

/// The digit that stands for `d`.
pub fn digit_of(d: u8) -> (c: char)
    requires
        d < 10,
    ensures
        c == digit_char(d as nat),
{
    (48u8 + d) as char
}

/// Reads the digits `chars[from..to]` behind a number that already holds `start`.
/// Gives `None` exactly where the result would be above the largest magnitude.
pub fn accumulate_digits(start: u64, chars: &Vec<char>, from: usize, to: usize) -> (r: Option<u64>)
    requires
        from <= to <= chars.len(),
        all_digits(chars@.subrange(from as int, to as int)),
        start <= MAX_MAGNITUDE,
    ensures
        match r {
            Some(v) => v == start * pow10((to - from) as nat) + digits_value(
                chars@.subrange(from as int, to as int),
            ) && v <= MAX_MAGNITUDE,
            None => start * pow10((to - from) as nat) + digits_value(
                chars@.subrange(from as int, to as int),
            ) > MAX_MAGNITUDE,
        },
{
    let ghost run = chars@.subrange(from as int, to as int);
    let mut acc: u64 = start;
    let mut i: usize = from;
    assert(pow10(0) == 1);
    assert(start * 1 == start);
    assert(chars@.subrange(from as int, from as int) =~= Seq::<char>::empty());
    while i < to
        invariant
            from <= i <= to <= chars.len(),
            run == chars@.subrange(from as int, to as int),
            all_digits(run),
            acc <= MAX_MAGNITUDE,
            acc == start * pow10((i - from) as nat) + digits_value(
                chars@.subrange(from as int, i as int),
            ),
        decreases to - i,
    {
        let c = chars[i];
        assert(c == run[i - from]);
        assert(is_digit(c));
        let d: u64 = (c as u32 - 48) as u64;
        assert(d == digit_value(c));
        let ghost prefix = chars@.subrange(from as int, i as int);
        let ghost next = chars@.subrange(from as int, i + 1);
        let ghost rest = chars@.subrange(i + 1, to as int);
        proof {
            assert(next =~= prefix.push(c));
            lemma_digits_value_push(prefix, c);
            let p = pow10((i - from) as nat);
            assert(pow10((i + 1 - from) as nat) == 10 * p);
            assert(start * (10 * p) == (start * p) * 10) by (nonlinear_arith);
        }
        if acc > (MAX_MAGNITUDE - d) / 10 {
            proof {
                // What was read so far is already too large, and more digits only add to it.
                let k = (to - (i + 1)) as nat;
                let head = start * pow10((i + 1 - from) as nat) + digits_value(next);
                assert(head == acc * 10 + d);
                assert(head > MAX_MAGNITUDE);
                assert(run =~= next + rest);
                lemma_digits_value_concat(next, rest);
                lemma_pow10_positive(k);
                lemma_pow10_sum((i + 1 - from) as nat, k);
                let q = pow10(k);
                let e = pow10((i + 1 - from) as nat);
                let a = start * e;
                let b = digits_value(next);
                assert(start * (e * q) == (start * e) * q) by (nonlinear_arith);
                assert((a + b) * q == a * q + b * q) by (nonlinear_arith);
                assert(a * q + b * q >= a + b) by (nonlinear_arith)
                    requires
                        q >= 1,
                        a >= 0,
                        b >= 0,
                ;
            }
            return None;
        }
        acc = acc * 10 + d;
        i += 1;
    }
    assert(chars@.subrange(from as int, i as int) == run);
    Some(acc)
}

/// Powers of ten multiply as their exponents add.
pub proof fn lemma_pow10_sum(a: nat, b: nat)
    ensures
        pow10(a + b) == pow10(a) * pow10(b),
    decreases a,
{
    if a == 0 {
        assert(pow10(0) == 1);
        assert(1 * pow10(b) == pow10(b));
    } else {
        lemma_pow10_sum((a - 1) as nat, b);
        let x = pow10((a - 1) as nat);
        let y = pow10(b);
        assert(pow10(a + b) == 10 * pow10((a - 1 + b) as nat));
        assert(10 * (x * y) == (10 * x) * y) by (nonlinear_arith);
    }
}

/// The integer with the given sign and magnitude, where there is one.
pub fn signed(negative: bool, m: u64) -> (r: Option<i64>)
    ensures
        r == (if negative {
            if m <= MAX_MAGNITUDE {
                Some((-(m as int)) as i64)
            } else {
                None
            }
        } else {
            if m < MAX_MAGNITUDE {
                Some(m as i64)
            } else {
                None
            }
        }),
{
    if negative {
        if m < MAX_MAGNITUDE {
            Some(-(m as i64))
        } else if m == MAX_MAGNITUDE {
            Some(i64::MIN)
        } else {
            None
        }
    } else {
        if m < MAX_MAGNITUDE {
            Some(m as i64)
        } else {
            None
        }
    }
}

} // verus!
