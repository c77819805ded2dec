//! Number literals.
//!
//! A number is a decimal numeral: digits before the point and digits after
//! it.  It is held in canonical form, without leading zeros before the point
//! and without trailing zeros after it, so that two numbers are equal exactly
//! when their digits are.

use vstd::prelude::*;
use crate::text::{
    chars_of, decimal_text, digit_value, is_digit, lemma_common_prefix, lemma_run_end, run_end, Run,
};

verus! {

/// Every character of `s` is a decimal digit.
pub open spec fn all_digits(s: Seq<char>) -> bool {
    forall|i: int| 0 <= i < s.len() ==> is_digit(#[trigger] s[i])
}

/// `s` without the zeros that it starts with.
pub open spec fn without_leading_zeros(s: Seq<char>) -> Seq<char>
    decreases s.len(),
{
    if s.len() > 0 && s[0] == '0' {
        without_leading_zeros(s.drop_first())
    } else {
        s
    }
}

/// `s` without the zeros that it ends with.
pub open spec fn without_trailing_zeros(s: Seq<char>) -> Seq<char>
    decreases s.len(),
{
    if s.len() > 0 && s.last() == '0' {
        without_trailing_zeros(s.drop_last())
    } else {
        s
    }
}

/// The natural number that the digits `s` spell, most significant first.
pub open spec fn digits_value(s: Seq<char>) -> nat
    decreases s.len(),
{
    if s.len() == 0 {
        0
    } else {
        digits_value(s.drop_last()) * 10 + digit_value(s.last())
    }
}

/// Ten to the `n`.
pub open spec fn pow10(n: nat) -> nat
    decreases n,
{
    if n == 0 {
        1
    } else {
        10 * pow10((n - 1) as nat)
    }
}

/// A number as mathematics sees it: the digits before the point and the
/// digits after it.
pub ghost struct NumberView {
    pub whole: Seq<char>,
    pub frac: Seq<char>,
}

impl NumberView {
    /// The canonical form: digits only, no zero in front, no zero at the end.
    pub open spec fn wf(self) -> bool {
        &&& all_digits(self.whole)
        &&& all_digits(self.frac)
        &&& self.whole.len() > 0 ==> self.whole[0] != '0'
        &&& self.frac.len() > 0 ==> self.frac.last() != '0'
    }

    /// The number multiplied by ten to the `scale`, which is a natural number
    /// as soon as `scale` is no less than the count of digits after the point.
    pub open spec fn scaled(self, scale: nat) -> nat
        recommends
            scale >= self.frac.len(),
    {
        digits_value(self.whole + self.frac) * pow10((scale - self.frac.len()) as nat)
    }

    /// The numeric order: `self` is the smaller number.
    pub open spec fn less_than(self, other: NumberView) -> bool {
        let scale = if self.frac.len() >= other.frac.len() {
            self.frac.len()
        } else {
            other.frac.len()
        };
        self.scaled(scale) < other.scaled(scale)
    }

    /// The numeral as it is printed: at least one digit before the point, and
    /// the point only where digits follow it.
    pub open spec fn text(self) -> Seq<char> {
        let whole = if self.whole.len() == 0 {
            seq!['0']
        } else {
            self.whole
        };
        if self.frac.len() == 0 {
            whole
        } else {
            whole + seq!['.'] + self.frac
        }
    }
}

/// The number with the given digits before and after the point.
pub open spec fn number_of(whole: Seq<char>, frac: Seq<char>) -> NumberView {
    NumberView { whole: without_leading_zeros(whole), frac: without_trailing_zeros(frac) }
}

/// The number that `s` spells, where `s` is a numeral: one or more digits,
/// which a point and one or more digits may follow.
pub open spec fn parse_number(s: Seq<char>) -> Option<NumberView> {
    let point = run_end(s, 0, Run::Digits);
    if point == 0 {
        None
    } else if point == s.len() {
        Some(number_of(s, Seq::empty()))
    } else if s[point] == '.' && point + 1 < s.len() && run_end(s, point + 1, Run::Digits)
        == s.len() {
        Some(number_of(s.subrange(0, point), s.subrange(point + 1, s.len() as int)))
    } else {
        None
    }
}

/// Without its leading zeros a run of digits is a run of digits that does
/// not start with zero.
pub proof fn lemma_without_leading_zeros(s: Seq<char>)
    requires
        all_digits(s),
    ensures
        all_digits(without_leading_zeros(s)),
        without_leading_zeros(s).len() > 0 ==> without_leading_zeros(s)[0] != '0',
    decreases s.len(),
{
    if s.len() > 0 && s[0] == '0' {
        lemma_without_leading_zeros(s.drop_first());
    }
}

/// Without its trailing zeros a run of digits is a run of digits that does
/// not end with zero.
pub proof fn lemma_without_trailing_zeros(s: Seq<char>)
    requires
        all_digits(s),
    ensures
        all_digits(without_trailing_zeros(s)),
        without_trailing_zeros(s).len() > 0 ==> without_trailing_zeros(s).last() != '0',
    decreases s.len(),
{
    if s.len() > 0 && s.last() == '0' {
        lemma_without_trailing_zeros(s.drop_last());
    }
}

/// Ten to any power is positive.
pub proof fn lemma_pow10_positive(n: nat)
    ensures
        pow10(n) > 0,
    decreases n,
{
    if n > 0 {
        lemma_pow10_positive((n - 1) as nat);
    }
}

/// Ten to a sum is the product of the powers.
pub proof fn lemma_pow10_add(a: nat, b: nat)
    ensures
        pow10(a + b) == pow10(a) * pow10(b),
    decreases a,
{
    if a > 0 {
        lemma_pow10_add((a - 1) as nat, b);
        assert(pow10(a + b) == 10 * pow10((a - 1) as nat + b));
        assert(10 * (pow10((a - 1) as nat) * pow10(b)) == (10 * pow10((a - 1) as nat)) * pow10(b))
            by (nonlinear_arith);
    } else {
        assert(pow10(a) * pow10(b) == pow10(b)) by (nonlinear_arith)
            requires
                pow10(a) == 1,
        ;
    }
}

/// The powers of ten grow with the exponent.
pub proof fn lemma_pow10_monotonic(a: nat, b: nat)
    requires
        a <= b,
    ensures
        pow10(a) <= pow10(b),
    decreases b - a,
{
    if a < b {
        lemma_pow10_monotonic(a + 1, b);
        lemma_pow10_positive(a);
    }
}

/// Digits written one after the other: the value of the first run is
/// shifted by the length of the second.
pub proof fn lemma_value_concat(a: Seq<char>, b: Seq<char>)
    ensures
        digits_value(a + b) == digits_value(a) * pow10(b.len()) + digits_value(b),
    decreases b.len(),
{
    if b.len() == 0 {
        assert(a + b == a);
        assert(digits_value(a) * pow10(0) == digits_value(a)) by (nonlinear_arith)
            requires
                pow10(0) == 1,
        ;
    } else {
        assert((a + b).drop_last() == a + b.drop_last());
        lemma_value_concat(a, b.drop_last());
        let m = (b.len() - 1) as nat;
        assert(pow10(b.len()) == 10 * pow10(m));
        assert((digits_value(a) * pow10(m) + digits_value(b.drop_last())) * 10 == digits_value(a)
            * (10 * pow10(m)) + digits_value(b.drop_last()) * 10) by (nonlinear_arith);
    }
}

/// A numeral of `n` digits is less than ten to the `n`.
pub proof fn lemma_value_bound(s: Seq<char>)
    requires
        all_digits(s),
    ensures
        digits_value(s) < pow10(s.len()),
    decreases s.len(),
{
    if s.len() > 0 {
        lemma_value_bound(s.drop_last());
    }
}

/// A numeral of `n` digits that does not start with zero is at least ten to
/// the `n - 1`.
pub proof fn lemma_value_lower(s: Seq<char>)
    requires
        all_digits(s),
        s.len() > 0,
        s[0] != '0',
    ensures
        digits_value(s) >= pow10((s.len() - 1) as nat),
{
    let head = s.subrange(0, 1);
    let tail = s.subrange(1, s.len() as int);
    assert(s == head + tail);
    lemma_value_concat(head, tail);
    assert(head.drop_last() == Seq::<char>::empty());
    assert(digits_value(head.drop_last()) == 0);
    assert(digits_value(head) == digit_value(s[0]));
    assert(digits_value(head) * pow10(tail.len()) >= pow10(tail.len())) by (nonlinear_arith)
        requires
            digits_value(head) >= 1,
    ;
}

/// Of two numerals of the same length, the one with the smaller digit at
/// the first place where they differ is the smaller.
pub proof fn lemma_first_difference(x: Seq<char>, y: Seq<char>, i: int)
    requires
        all_digits(x),
        all_digits(y),
        x.len() == y.len(),
        0 <= i < x.len(),
        x.take(i) == y.take(i),
        x[i] < y[i],
    ensures
        digits_value(x) < digits_value(y),
{
    let m = (x.len() - i - 1) as nat;
    let xh = x.take(i + 1);
    let yh = y.take(i + 1);
    let xt = x.skip(i + 1);
    let yt = y.skip(i + 1);
    assert(x == xh + xt);
    assert(y == yh + yt);
    lemma_value_concat(xh, xt);
    lemma_value_concat(yh, yt);
    assert(xh.drop_last() == x.take(i));
    assert(yh.drop_last() == y.take(i));
    assert(digits_value(xh) + 1 <= digits_value(yh));
    lemma_value_bound(xt);
    assert(digits_value(xh) * pow10(m) + pow10(m) <= digits_value(yh) * pow10(m))
        by (nonlinear_arith)
        requires
            digits_value(xh) + 1 <= digits_value(yh),
    ;
}

/// A run of `n` zeros.
pub open spec fn zeros(n: nat) -> Seq<char> {
    Seq::new(n, |i: int| '0')
}

/// Zeros are digits, and spell zero.
pub proof fn lemma_zeros(n: nat)
    ensures
        all_digits(zeros(n)),
        digits_value(zeros(n)) == 0,
    decreases n,
{
    if n > 0 {
        lemma_zeros((n - 1) as nat);
        assert(zeros(n).drop_last() == zeros((n - 1) as nat));
    }
}

/// The digits after the point of `number`, filled up with zeros to `scale`
/// digits.
pub open spec fn padded_frac(number: NumberView, scale: nat) -> Seq<char> {
    number.frac + zeros((scale - number.frac.len()) as nat)
}

/// A scaled number is made of its two parts: what stands before the point,
/// shifted by the scale, and what stands after it, filled up to the scale.
pub proof fn lemma_scaled_parts(number: NumberView, scale: nat)
    requires
        number.wf(),
        scale >= number.frac.len(),
    ensures
        number.scaled(scale) == digits_value(number.whole) * pow10(scale) + digits_value(
            padded_frac(number, scale),
        ),
        digits_value(padded_frac(number, scale)) < pow10(scale),
        all_digits(padded_frac(number, scale)),
        padded_frac(number, scale).len() == scale,
{
    let shift = (scale - number.frac.len()) as nat;
    let whole = digits_value(number.whole);
    let frac = digits_value(number.frac);
    lemma_zeros(shift);
    lemma_value_concat(number.whole, number.frac);
    lemma_value_concat(number.frac, zeros(shift));
    lemma_pow10_add(number.frac.len(), shift);
    lemma_value_bound(padded_frac(number, scale));
    assert((whole * pow10(number.frac.len()) + frac) * pow10(shift) == whole * (pow10(
        number.frac.len(),
    ) * pow10(shift)) + frac * pow10(shift)) by (nonlinear_arith);
}

/// Where the parts before the point differ in value, they decide the order.
pub proof fn lemma_order_by_whole(a: NumberView, b: NumberView)
    requires
        a.wf(),
        b.wf(),
        digits_value(a.whole) < digits_value(b.whole),
    ensures
        a.less_than(b),
        !b.less_than(a),
{
    let scale = if a.frac.len() >= b.frac.len() {
        a.frac.len()
    } else {
        b.frac.len()
    };
    lemma_scaled_parts(a, scale);
    lemma_scaled_parts(b, scale);
    assert(digits_value(a.whole) * pow10(scale) + pow10(scale) <= digits_value(b.whole) * pow10(
        scale,
    )) by (nonlinear_arith)
        requires
            digits_value(a.whole) + 1 <= digits_value(b.whole),
    ;
}

/// Where the parts before the point are the same, the parts after it
/// decide the order, read as numerals of the same length.
pub proof fn lemma_order_by_frac(a: NumberView, b: NumberView, scale: nat)
    requires
        a.wf(),
        b.wf(),
        a.whole == b.whole,
        scale == if a.frac.len() >= b.frac.len() {
            a.frac.len()
        } else {
            b.frac.len()
        },
    ensures
        a.less_than(b) <==> digits_value(padded_frac(a, scale)) < digits_value(
            padded_frac(b, scale),
        ),
        b.less_than(a) <==> digits_value(padded_frac(b, scale)) < digits_value(
            padded_frac(a, scale),
        ),
{
    lemma_scaled_parts(a, scale);
    lemma_scaled_parts(b, scale);
}

/// The number with fewer digits before the point is the smaller.
pub proof fn lemma_shorter_is_less(a: NumberView, b: NumberView)
    requires
        a.wf(),
        b.wf(),
        a.whole.len() < b.whole.len(),
    ensures
        a.less_than(b),
        !b.less_than(a),
{
    lemma_value_bound(a.whole);
    lemma_value_lower(b.whole);
    lemma_pow10_monotonic(a.whole.len(), (b.whole.len() - 1) as nat);
    lemma_order_by_whole(a, b);
}

/// With as many digits before the point, the smaller digit at the first
/// place where they differ makes the smaller number.
pub proof fn lemma_whole_decides(a: NumberView, b: NumberView, i: int)
    requires
        a.wf(),
        b.wf(),
        a.whole.len() == b.whole.len(),
        0 <= i < a.whole.len(),
        a.whole.take(i) == b.whole.take(i),
        a.whole[i] < b.whole[i],
    ensures
        a.less_than(b),
        !b.less_than(a),
{
    lemma_first_difference(a.whole, b.whole, i);
    lemma_order_by_whole(a, b);
}

/// With the same digits before the point, the smaller digit at the first
/// place where the digits after it differ makes the smaller number.
pub proof fn lemma_frac_decides(a: NumberView, b: NumberView, i: int)
    requires
        a.wf(),
        b.wf(),
        a.whole == b.whole,
        0 <= i < a.frac.len(),
        i < b.frac.len(),
        a.frac.take(i) == b.frac.take(i),
        a.frac[i] < b.frac[i],
    ensures
        a.less_than(b),
        !b.less_than(a),
{
    let scale = if a.frac.len() >= b.frac.len() {
        a.frac.len()
    } else {
        b.frac.len()
    };
    let x = padded_frac(a, scale);
    let y = padded_frac(b, scale);
    lemma_scaled_parts(a, scale);
    lemma_scaled_parts(b, scale);
    assert(x.take(i) == a.frac.take(i));
    assert(y.take(i) == b.frac.take(i));
    lemma_first_difference(x, y, i);
    lemma_order_by_frac(a, b, scale);
}

/// With the same digits before the point, a number whose digits after the
/// point begin those of another is the smaller.
pub proof fn lemma_prefix_is_less(a: NumberView, b: NumberView)
    requires
        a.wf(),
        b.wf(),
        a.whole == b.whole,
        a.frac.len() < b.frac.len(),
        a.frac == b.frac.take(a.frac.len() as int),
    ensures
        a.less_than(b),
        !b.less_than(a),
{
    let scale = b.frac.len();
    let shift = (scale - a.frac.len()) as nat;
    let tail = b.frac.skip(a.frac.len() as int);
    lemma_zeros(shift);
    lemma_zeros(0);
    lemma_value_concat(a.frac, zeros(shift));
    lemma_value_concat(a.frac, tail);
    assert(b.frac == a.frac + tail);
    assert(padded_frac(b, scale) == b.frac);
    assert(tail.last() == b.frac.last());
    assert(digits_value(tail) >= 1);
    lemma_order_by_frac(a, b, scale);
}

/// Zeros in front do not change what digits spell.
pub proof fn lemma_leading_zeros_value(s: Seq<char>)
    ensures
        digits_value(without_leading_zeros(s)) == digits_value(s),
    decreases s.len(),
{
    if s.len() > 0 && s[0] == '0' {
        let head = s.subrange(0, 1);
        assert(s == head + s.drop_first());
        assert(head.drop_last() == Seq::<char>::empty());
        assert(digits_value(head.drop_last()) == 0);
        assert(digits_value(head) == 0);
        lemma_value_concat(head, s.drop_first());
        lemma_leading_zeros_value(s.drop_first());
        assert(digits_value(head) * pow10(s.drop_first().len()) == 0) by (nonlinear_arith)
            requires
                digits_value(head) == 0,
        ;
    }
}

/// Each zero at the end multiplies what digits spell by ten.
pub proof fn lemma_trailing_zeros_value(s: Seq<char>)
    ensures
        without_trailing_zeros(s).len() <= s.len(),
        digits_value(s) == digits_value(without_trailing_zeros(s)) * pow10(
            (s.len() - without_trailing_zeros(s).len()) as nat,
        ),
    decreases s.len(),
{
    let kept = without_trailing_zeros(s);
    if s.len() > 0 && s.last() == '0' {
        lemma_trailing_zeros_value(s.drop_last());
        let shift = (s.len() - 1 - kept.len()) as nat;
        assert(pow10(shift + 1) == 10 * pow10(shift));
        assert(digits_value(kept) * pow10(shift) * 10 == digits_value(kept) * (10 * pow10(shift)))
            by (nonlinear_arith);
    } else {
        assert(digits_value(kept) * pow10(0) == digits_value(kept)) by (nonlinear_arith)
            requires
                pow10(0) == 1,
        ;
    }
}

/// Bringing a numeral into canonical form keeps its value: the number
/// with the digits `whole` before the point and `frac` after it is, at any
/// scale that `frac` fits in, what `whole` and `frac` spell together.
pub proof fn lemma_number_of_value(whole: Seq<char>, frac: Seq<char>, scale: nat)
    requires
        all_digits(whole),
        all_digits(frac),
        scale >= frac.len(),
    ensures
        number_of(whole, frac).wf(),
        number_of(whole, frac).scaled(scale) == digits_value(whole + frac) * pow10(
            (scale - frac.len()) as nat,
        ),
{
    let number = number_of(whole, frac);
    let dropped = (frac.len() - number.frac.len()) as nat;
    let shift = (scale - frac.len()) as nat;
    lemma_without_leading_zeros(whole);
    lemma_without_trailing_zeros(frac);
    lemma_leading_zeros_value(whole);
    lemma_trailing_zeros_value(frac);
    lemma_value_concat(whole, frac);
    lemma_value_concat(number.whole, number.frac);
    lemma_pow10_add(number.frac.len(), dropped);
    lemma_pow10_add(dropped, shift);
    let w = digits_value(whole);
    let f = digits_value(number.frac);
    let p = pow10(number.frac.len());
    let d = pow10(dropped);
    let t = pow10(shift);
    assert((w * p + f) * (d * t) == (w * (p * d) + f * d) * t) by (nonlinear_arith);
}

/// The order of two numbers shows at every scale that both fit in.
pub proof fn lemma_less_than_at_scale(a: NumberView, b: NumberView, scale: nat)
    requires
        scale >= a.frac.len(),
        scale >= b.frac.len(),
    ensures
        a.less_than(b) <==> a.scaled(scale) < b.scaled(scale),
{
    let least = if a.frac.len() >= b.frac.len() {
        a.frac.len()
    } else {
        b.frac.len()
    };
    let more = (scale - least) as nat;
    lemma_pow10_add((least - a.frac.len()) as nat, more);
    lemma_pow10_add((least - b.frac.len()) as nat, more);
    lemma_pow10_positive(more);
    let x = digits_value(a.whole + a.frac);
    let y = digits_value(b.whole + b.frac);
    let p = pow10((least - a.frac.len()) as nat);
    let q = pow10((least - b.frac.len()) as nat);
    let m = pow10(more);
    assert(x * (p * m) == (x * p) * m) by (nonlinear_arith);
    assert(y * (q * m) == (y * q) * m) by (nonlinear_arith);
    assert((x * p < y * q) <==> ((x * p) * m < (y * q) * m)) by (nonlinear_arith)
        requires
            m > 0,
    ;
}

/// No number is less than itself, and of two numbers at most one is the
/// smaller.
pub proof fn lemma_order_asymmetric(a: NumberView, b: NumberView)
    ensures
        !a.less_than(a),
        !(a.less_than(b) && b.less_than(a)),
{
}

/// The order of numbers is transitive.
pub proof fn lemma_order_transitive(a: NumberView, b: NumberView, c: NumberView)
    requires
        a.less_than(b),
        b.less_than(c),
    ensures
        a.less_than(c),
{
    let scale = a.frac.len() + b.frac.len() + c.frac.len();
    lemma_less_than_at_scale(a, b, scale);
    lemma_less_than_at_scale(b, c, scale);
    lemma_less_than_at_scale(a, c, scale);
}

/// Of two different numbers in canonical form one is the smaller: numbers
/// that are equal in value have the same digits.
pub proof fn lemma_order_total(a: NumberView, b: NumberView)
    requires
        a.wf(),
        b.wf(),
        a != b,
    ensures
        a.less_than(b) || b.less_than(a),
{
    if a.whole.len() < b.whole.len() {
        lemma_shorter_is_less(a, b);
    } else if b.whole.len() < a.whole.len() {
        lemma_shorter_is_less(b, a);
    } else {
        assert(a.whole.take(0) == b.whole.take(0));
        let i = lemma_common_prefix(a.whole, b.whole, 0);
        if i < a.whole.len() {
            if a.whole[i] < b.whole[i] {
                lemma_whole_decides(a, b, i);
            } else {
                lemma_whole_decides(b, a, i);
            }
        } else {
            assert(a.whole.take(i) == a.whole);
            assert(b.whole.take(i) == b.whole);
            assert(a.frac.take(0) == b.frac.take(0));
            let j = lemma_common_prefix(a.frac, b.frac, 0);
            if j < a.frac.len() && j < b.frac.len() {
                if a.frac[j] < b.frac[j] {
                    lemma_frac_decides(a, b, j);
                } else {
                    lemma_frac_decides(b, a, j);
                }
            } else if a.frac.len() < b.frac.len() {
                assert(a.frac.take(j) == a.frac);
                lemma_prefix_is_less(a, b);
            } else if b.frac.len() < a.frac.len() {
                assert(b.frac.take(j) == b.frac);
                lemma_prefix_is_less(b, a);
            } else {
                assert(a.frac.take(j) == a.frac);
                assert(b.frac.take(j) == b.frac);
                assert(a.frac == b.frac);
            }
        }
    }
}

/// The decimal numeral of a natural number spells that number.
pub proof fn lemma_decimal_text_value(n: nat)
    ensures
        all_digits(decimal_text(n)),
        digits_value(decimal_text(n)) == n,
        n > 0 ==> decimal_text(n)[0] != '0',
    decreases n,
{
    if n < 10 {
        let s = decimal_text(n);
        assert(s.drop_last() == Seq::<char>::empty());
        assert(digits_value(s.drop_last()) == 0);
    } else {
        lemma_decimal_text_value(n / 10);
        assert(decimal_text(n).drop_last() == decimal_text(n / 10));
    }
}

/// A number literal.
#[derive(Debug)]
pub struct Number {
    whole: Vec<char>,
    frac: Vec<char>,
}

impl View for Number {
    type V = NumberView;

    closed spec fn view(&self) -> NumberView {
        NumberView { whole: self.whole@, frac: self.frac@ }
    }
}

/// A copy of `chars[from..to]`.
fn copy_range(chars: &Vec<char>, from: usize, to: usize) -> (copy: Vec<char>)
    requires
        from <= to <= chars@.len(),
    ensures
        copy@ == chars@.subrange(from as int, to as int),
{
    let mut copy: Vec<char> = Vec::new();
    let mut i: usize = from;
    while i < to
        invariant
            from <= i <= to <= chars@.len(),
            copy@ == chars@.subrange(from as int, i as int),
        decreases to - i,
    {
        copy.push(chars[i]);
        i += 1;
    }
    copy
}

impl Number {
    /// Every number is held in canonical form.
    #[verifier::type_invariant]
    spec fn canonical(self) -> bool {
        self@.wf()
    }

    /// The number whose digits before the point are `chars[whole_from..whole_to]`
    /// and whose digits after it are `chars[frac_from..frac_to]`.
    pub(crate) fn from_digits(
        chars: &Vec<char>,
        whole_from: usize,
        whole_to: usize,
        frac_from: usize,
        frac_to: usize,
    ) -> (number: Number)
        requires
            whole_from <= whole_to <= chars@.len(),
            frac_from <= frac_to <= chars@.len(),
            all_digits(chars@.subrange(whole_from as int, whole_to as int)),
            all_digits(chars@.subrange(frac_from as int, frac_to as int)),
        ensures
            number@ == number_of(
                chars@.subrange(whole_from as int, whole_to as int),
                chars@.subrange(frac_from as int, frac_to as int),
            ),
            number@.wf(),
    {
        let ghost whole = chars@.subrange(whole_from as int, whole_to as int);
        let ghost frac = chars@.subrange(frac_from as int, frac_to as int);
        let mut first: usize = whole_from;
        while first < whole_to && chars[first] == '0'
            invariant
                whole_from <= first <= whole_to <= chars@.len(),
                without_leading_zeros(whole) == without_leading_zeros(
                    chars@.subrange(first as int, whole_to as int),
                ),
            decreases whole_to - first,
        {
            assert(chars@.subrange(first as int, whole_to as int).drop_first() == chars@.subrange(
                first + 1,
                whole_to as int,
            ));
            first += 1;
        }
        let mut last: usize = frac_to;
        while last > frac_from && chars[last - 1] == '0'
            invariant
                frac_from <= last <= frac_to <= chars@.len(),
                without_trailing_zeros(frac) == without_trailing_zeros(
                    chars@.subrange(frac_from as int, last as int),
                ),
            decreases last - frac_from,
        {
            assert(chars@.subrange(frac_from as int, last as int).drop_last() == chars@.subrange(
                frac_from as int,
                last - 1,
            ));
            last -= 1;
        }
        proof {
            lemma_without_leading_zeros(whole);
            lemma_without_trailing_zeros(frac);
        }
        Number { whole: copy_range(chars, first, whole_to), frac: copy_range(chars, frac_from, last) }
    }

    /// Reads a numeral: `Some` exactly when `text` is one or more digits,
    /// optionally followed by a point and one or more digits.
    pub fn from_text(text: &str) -> (number: Option<Number>)
        ensures
            match number {
                Some(n) => parse_number(text@) == Some(n@) && n@.wf(),
                None => parse_number(text@).is_none(),
            },
    {
        let chars = chars_of(text);
        let point: usize = digits_end(&chars, 0);
        if point == 0 {
            None
        } else if point == chars.len() {
            assert(chars@.subrange(0, point as int) == chars@);
            assert(chars@.subrange(point as int, point as int) == Seq::<char>::empty());
            Some(Number::from_digits(&chars, 0, point, point, point))
        } else if chars[point] == '.' && point + 1 < chars.len() {
            let end: usize = digits_end(&chars, point + 1);
            if end == chars.len() {
                Some(Number::from_digits(&chars, 0, point, point + 1, end))
            } else {
                None
            }
        } else {
            None
        }
    }

    /// Whether `self` is the smaller number.
    pub fn less_than(&self, other: &Number) -> (less: bool)
        ensures
            less == self@.less_than(other@),
            !less && !other@.less_than(self@) ==> self@ == other@,
    {
        proof {
            use_type_invariant(self);
            use_type_invariant(other);
        }
        if self.whole.len() != other.whole.len() {
            proof {
                if self.whole.len() < other.whole.len() {
                    lemma_shorter_is_less(self@, other@);
                } else {
                    lemma_shorter_is_less(other@, self@);
                }
            }
            return self.whole.len() < other.whole.len();
        }
        let mut i: usize = 0;
        while i < self.whole.len()
            invariant
                self@.wf(),
                other@.wf(),
                self.whole@.len() == other.whole@.len(),
                i <= self.whole@.len(),
                self.whole@.take(i as int) == other.whole@.take(i as int),
            decreases self.whole@.len() - i,
        {
            if self.whole[i] != other.whole[i] {
                proof {
                    if self.whole@[i as int] < other.whole@[i as int] {
                        lemma_whole_decides(self@, other@, i as int);
                    } else {
                        lemma_whole_decides(other@, self@, i as int);
                    }
                }
                return self.whole[i] < other.whole[i];
            }
            assert(self.whole@.take(i + 1) == self.whole@.take(i as int).push(self.whole@[i as int]));
            assert(other.whole@.take(i + 1) == other.whole@.take(i as int).push(
                other.whole@[i as int],
            ));
            i += 1;
        }
        assert(self.whole@ == self.whole@.take(i as int));
        assert(other.whole@ == other.whole@.take(i as int));
        let mut j: usize = 0;
        while j < self.frac.len() && j < other.frac.len()
            invariant
                self@.wf(),
                other@.wf(),
                self.whole@ == other.whole@,
                j <= self.frac@.len(),
                j <= other.frac@.len(),
                self.frac@.take(j as int) == other.frac@.take(j as int),
            decreases self.frac@.len() - j,
        {
            if self.frac[j] != other.frac[j] {
                proof {
                    if self.frac@[j as int] < other.frac@[j as int] {
                        lemma_frac_decides(self@, other@, j as int);
                    } else {
                        lemma_frac_decides(other@, self@, j as int);
                    }
                }
                return self.frac[j] < other.frac[j];
            }
            assert(self.frac@.take(j + 1) == self.frac@.take(j as int).push(self.frac@[j as int]));
            assert(other.frac@.take(j + 1) == other.frac@.take(j as int).push(
                other.frac@[j as int],
            ));
            j += 1;
        }
        proof {
            if self.frac.len() < other.frac.len() {
                assert(self.frac@ == self.frac@.take(j as int));
                lemma_prefix_is_less(self@, other@);
            } else if other.frac.len() < self.frac.len() {
                assert(other.frac@ == other.frac@.take(j as int));
                lemma_prefix_is_less(other@, self@);
            } else {
                assert(self.frac@ == self.frac@.take(j as int));
                assert(other.frac@ == other.frac@.take(j as int));
                assert(self@ == other@);
            }
        }
        self.frac.len() < other.frac.len()
    }

    /// The numeral in canonical form.
    pub fn to_string(&self) -> (text: String)
        ensures
            text@ == self@.text(),
    {
        let mut text = String::new();
        if self.whole.len() == 0 {
            text.push('0');
        } else {
            push_all(&mut text, &self.whole);
        }
        if self.frac.len() > 0 {
            text.push('.');
            push_all(&mut text, &self.frac);
        }
        text
    }
}

impl Clone for Number {
    fn clone(&self) -> (copy: Self)
        ensures
            copy@ == self@,
    {
        proof {
            use_type_invariant(self);
        }
        let whole = copy_range(&self.whole, 0, self.whole.len());
        let frac = copy_range(&self.frac, 0, self.frac.len());
        assert(whole@ == self.whole@);
        assert(frac@ == self.frac@);
        Number { whole, frac }
    }
}

impl PartialEq for Number {
    fn eq(&self, other: &Self) -> (same: bool) {
        let same = same_chars(&self.whole, &other.whole) && same_chars(&self.frac, &other.frac);
        assert(same == (self@ == other@));
        same
    }
}

impl vstd::std_specs::cmp::PartialEqSpecImpl for Number {
    open spec fn obeys_eq_spec() -> bool {
        true
    }

    open spec fn eq_spec(&self, other: &Self) -> bool {
        self@ == other@
    }
}

/// Whether `a` and `b` hold the same characters.
fn same_chars(a: &Vec<char>, b: &Vec<char>) -> (same: bool)
    ensures
        same == (a@ == b@),
{
    if a.len() != b.len() {
        return false;
    }
    let mut i: usize = 0;
    while i < a.len()
        invariant
            a@.len() == b@.len(),
            i <= a@.len(),
            a@.take(i as int) == b@.take(i as int),
        decreases a@.len() - i,
    {
        if a[i] != b[i] {
            return false;
        }
        assert(a@.take(i + 1) == a@.take(i as int).push(a@[i as int]));
        assert(b@.take(i + 1) == b@.take(i as int).push(b@[i as int]));
        i += 1;
    }
    assert(a@.take(i as int) == a@);
    assert(b@.take(i as int) == b@);
    true
}

/// Appends `chars` to `text`.
fn push_all(text: &mut String, chars: &Vec<char>)
    ensures
        final(text)@ == old(text)@ + chars@,
{
    let mut i: usize = 0;
    while i < chars.len()
        invariant
            i <= chars@.len(),
            text@ == old(text)@ + chars@.take(i as int),
        decreases chars@.len() - i,
    {
        text.push(chars[i]);
        assert(chars@.take(i + 1) == chars@.take(i as int).push(chars@[i as int]));
        i += 1;
    }
    assert(chars@.take(i as int) == chars@);
}

/// Where the digits that start at `from` end.
fn digits_end(chars: &Vec<char>, from: usize) -> (end: usize)
    requires
        from <= chars@.len(),
    ensures
        end == run_end(chars@, from as int, Run::Digits),
        from <= end <= chars@.len(),
        all_digits(chars@.subrange(from as int, end as int)),
{
    let mut end: usize = from;
    while end < chars.len() && '0' <= chars[end] && chars[end] <= '9'
        invariant
            from <= end <= chars@.len(),
            run_end(chars@, from as int, Run::Digits) == run_end(chars@, end as int, Run::Digits),
        decreases chars@.len() - end,
    {
        end += 1;
    }
    proof {
        lemma_run_end(chars@, from as int, Run::Digits);
    }
    end
}

} // verus!
