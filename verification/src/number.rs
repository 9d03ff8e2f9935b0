//! The normal form of decimal numbers: numbers that are written differently
//! but are equal are brought to one text.

use vstd::prelude::*;

use crate::text;
use crate::text::push_signed_decimal;

verus! {

/// The longest number, and the largest exponent, that is brought to normal
/// form; what is beyond stays as it is written.
pub const VAST: usize = 999_999_999;

/// The first position from `i` on that holds `c` or `d`, or the length.
pub open spec fn first_of(w: Seq<char>, c: char, d: char, i: int) -> int
    decreases w.len() - i,
{
    if 0 <= i < w.len() && w[i] != c && w[i] != d {
        first_of(w, c, d, i + 1)
    } else {
        i
    }
}

/// Where the mantissa of a number ends: at its exponent mark, or its end.
pub open spec fn mantissa_end(w: Seq<char>) -> int {
    first_of(w, 'e', 'E', 0)
}

/// Where the integer part of a number ends: at its point, or the end of its
/// mantissa.
pub open spec fn integer_end(w: Seq<char>) -> int {
    first_of(w.take(mantissa_end(w)), '.', '.', 0)
}

/// Whether a number has a minus sign.
pub open spec fn is_negative(w: Seq<char>) -> bool {
    w.len() > 0 && w[0] == '-'
}

/// The digits before the point.
pub open spec fn integer_digits(w: Seq<char>) -> Seq<char> {
    let from: int = if is_negative(w) {
        1
    } else {
        0
    };
    if from <= integer_end(w) {
        w.subrange(from, integer_end(w))
    } else {
        Seq::empty()
    }
}

/// The digits after the point.
pub open spec fn fraction_digits(w: Seq<char>) -> Seq<char> {
    if integer_end(w) < mantissa_end(w) {
        w.subrange(integer_end(w) + 1, mantissa_end(w))
    } else {
        Seq::empty()
    }
}

/// What follows the exponent mark.
pub open spec fn exponent_text(w: Seq<char>) -> Seq<char> {
    if mantissa_end(w) < w.len() {
        w.skip(mantissa_end(w) + 1)
    } else {
        Seq::empty()
    }
}

/// The digits of an exponent.
pub open spec fn exponent_digits(e: Seq<char>) -> Seq<char> {
    if e.len() > 0 && (e[0] == '-' || e[0] == '+') {
        e.skip(1)
    } else {
        e
    }
}

/// The number that an exponent stands for.
pub open spec fn exponent_value(e: Seq<char>) -> int {
    let size = text::numeral(exponent_digits(e)) as int;
    if e.len() > 0 && e[0] == '-' {
        -size
    } else {
        size
    }
}

/// How many zeros a text starts with.
pub open spec fn leading_zeros(s: Seq<char>) -> nat
    decreases s.len(),
{
    if s.len() > 0 && s[0] == '0' {
        1 + leading_zeros(s.drop_first())
    } else {
        0
    }
}

/// A text without the zeros that it ends with.
pub open spec fn without_trailing_zeros(s: Seq<char>) -> Seq<char>
    decreases s.len(),
{
    if s.len() > 0 && s.last() == '0' {
        without_trailing_zeros(s.drop_last())
    } else {
        s
    }
}

/// The digits that matter: those from the first to the last that is no zero.
pub open spec fn significant(s: Seq<char>) -> Seq<char> {
    without_trailing_zeros(s.skip(leading_zeros(s) as int))
}

/// A run of zeros.
pub open spec fn zeros(n: int) -> Seq<char> {
    Seq::new(
        if n < 0 {
            0
        } else {
            n as nat
        },
        |i: int| '0',
    )
}

/// How a number is laid out whose significant digits are `digits`, the point
/// being `point` places behind the first: the digits before and after the
/// point, and the exponent if there is one.
pub open spec fn layout(digits: Seq<char>, point: int) -> (Seq<char>, Seq<char>, Option<int>) {
    if digits.len() == 0 {
        (zeros(1), zeros(1), None)
    } else if 0 < point < digits.len() && point <= 21 {
        (digits.take(point), digits.skip(point), None)
    } else if 0 < point <= 21 {
        (digits + zeros(point - digits.len()), zeros(1), None)
    } else if -6 < point <= 0 {
        (zeros(1), zeros(-point) + digits, None)
    } else if digits.len() == 1 {
        (digits, zeros(1), Some(point - 1))
    } else {
        (digits.take(1), digits.skip(1), Some(point - 1))
    }
}

/// How a number is written, given its sign and its layout.
pub open spec fn spelled(negative: bool, parts: (Seq<char>, Seq<char>, Option<int>)) -> Seq<char> {
    let sign = if negative {
        seq!['-']
    } else {
        Seq::empty()
    };
    let exponent = match parts.2 {
        Some(x) => seq!['e'] + text::signed_decimal(x),
        None => Seq::empty(),
    };
    sign + parts.0 + seq!['.'] + parts.1 + exponent
}

/// Whether a number stays as it is written.
pub open spec fn is_vast(w: Seq<char>) -> bool {
    let digits = exponent_digits(exponent_text(w));
    w.len() > VAST || !text::all_digits(digits) || text::numeral(digits) > VAST
}

/// The digits of a mantissa.
pub open spec fn digits_of(w: Seq<char>) -> Seq<char> {
    integer_digits(w) + fraction_digits(w)
}

/// How many places behind the first significant digit the point is.
pub open spec fn point_of(w: Seq<char>) -> int {
    integer_digits(w).len() - leading_zeros(digits_of(w)) + exponent_value(exponent_text(w))
}

/// The layout of a number in normal form.
pub open spec fn normal_layout(w: Seq<char>) -> (Seq<char>, Seq<char>, Option<int>) {
    layout(significant(digits_of(w)), point_of(w))
}

/// The normal form of a number.
pub open spec fn normal(w: Seq<char>) -> Seq<char> {
    if is_vast(w) {
        w
    } else {
        spelled(is_negative(w), normal_layout(w))
    }
}

/// The search for a character ends where the character is.
pub proof fn lemma_first_of_at(w: Seq<char>, c: char, d: char, i: int, at: int)
    requires
        0 <= i <= at <= w.len(),
        at < w.len() ==> w[at] == c || w[at] == d,
        forall|k: int| i <= k < at ==> (#[trigger] w[k]) != c && w[k] != d,
    ensures
        first_of(w, c, d, i) == at,
    decreases at - i,
{
    if i < at {
        assert(w[i] != c && w[i] != d);
        lemma_first_of_at(w, c, d, i + 1, at);
    }
}

/// There are no more zeros at the start than characters, and none follows.
pub proof fn lemma_leading_zeros(s: Seq<char>)
    ensures
        leading_zeros(s) <= s.len(),
        leading_zeros(s) < s.len() ==> s[leading_zeros(s) as int] != '0',
        forall|k: int| 0 <= k < leading_zeros(s) ==> (#[trigger] s[k]) == '0',
    decreases s.len(),
{
    if s.len() > 0 && s[0] == '0' {
        let rest = s.drop_first();
        lemma_leading_zeros(rest);
        assert forall|k: int| 0 <= k < leading_zeros(s) implies (#[trigger] s[k]) == '0' by {
            if k > 0 {
                assert(s[k] == rest[k - 1]);
            }
        }
        if leading_zeros(s) < s.len() {
            assert(s[leading_zeros(s) as int] == rest[leading_zeros(rest) as int]);
        }
    }
}

proof fn lemma_leading_zeros_at(s: Seq<char>, n: int)
    requires
        0 <= n <= s.len(),
        n < s.len() ==> s[n] != '0',
        forall|k: int| 0 <= k < n ==> (#[trigger] s[k]) == '0',
    ensures
        leading_zeros(s) == n,
{
    lemma_leading_zeros(s);
    let z = leading_zeros(s) as int;
    if z < n {
        assert(s[z] == '0');
    }
    if n < z {
        assert(s[n] == '0');
    }
}

/// What is left without the zeros at the end starts the text, and does not end
/// with a zero.
pub proof fn lemma_trailing_zeros(s: Seq<char>)
    ensures
        ({
            let t = without_trailing_zeros(s);
            &&& t.len() <= s.len()
            &&& t == s.take(t.len() as int)
            &&& t.len() > 0 ==> t.last() != '0'
            &&& forall|k: int| t.len() <= k < s.len() ==> (#[trigger] s[k]) == '0'
        }),
    decreases s.len(),
{
    let t = without_trailing_zeros(s);
    if s.len() > 0 && s.last() == '0' {
        let init = s.drop_last();
        lemma_trailing_zeros(init);
        assert(init.take(t.len() as int) =~= s.take(t.len() as int));
        assert forall|k: int| t.len() <= k < s.len() implies (#[trigger] s[k]) == '0' by {
            if k < init.len() {
                assert(init[k] == s[k]);
            }
        }
    } else {
        assert(s.take(s.len() as int) =~= s);
    }
}

proof fn lemma_trailing_zeros_at(s: Seq<char>, n: int)
    requires
        0 <= n <= s.len(),
        n > 0 ==> s[n - 1] != '0',
        forall|k: int| n <= k < s.len() ==> (#[trigger] s[k]) == '0',
    ensures
        without_trailing_zeros(s) == s.take(n),
    decreases s.len(),
{
    if n < s.len() {
        let init = s.drop_last();
        assert(s[s.len() - 1] == '0');
        assert forall|k: int| n <= k < init.len() implies (#[trigger] init[k]) == '0' by {
            assert(init[k] == s[k]);
        }
        lemma_trailing_zeros_at(init, n);
        assert(init.take(n) =~= s.take(n));
    } else {
        assert(s.take(n) =~= s);
    }
}

/// Zeros around digits that start and end with none do not matter.
proof fn lemma_significant_padded(before: int, digits: Seq<char>, after: int)
    requires
        before >= 0,
        after >= 0,
        digits.len() > 0,
        digits[0] != '0',
        digits.last() != '0',
    ensures
        ({
            let s = zeros(before) + digits + zeros(after);
            leading_zeros(s) == before && significant(s) == digits
        }),
{
    let s = zeros(before) + digits + zeros(after);
    assert(s[before] == digits[0]);
    lemma_leading_zeros_at(s, before);
    let t = s.skip(before);
    assert(t =~= digits + zeros(after));
    assert(t[digits.len() - 1] == digits.last());
    lemma_trailing_zeros_at(t, digits.len() as int);
    assert(t.take(digits.len() as int) =~= digits);
}

/// Significant digits start and end with no zero, and are some of the digits.
proof fn lemma_significant(s: Seq<char>)
    requires
        text::all_digits(s),
    ensures
        ({
            let d = significant(s);
            &&& text::all_digits(d)
            &&& d.len() > 0 ==> d[0] != '0' && d.last() != '0'
            &&& d.len() <= s.len()
        }),
{
    let z = leading_zeros(s) as int;
    let t = s.skip(z);
    let d = significant(s);
    lemma_leading_zeros(s);
    lemma_trailing_zeros(t);
    assert forall|k: int| 0 <= k < d.len() implies text::is_digit(#[trigger] d[k]) by {
        assert(d[k] == t[k] && t[k] == s[z + k]);
    }
    if d.len() > 0 {
        assert(d[0] == t[0] && t[0] == s[z]);
    }
}

/// Whether a layout can be written: there are digits before and after the
/// point, and no zero leads but where it stands alone.
pub open spec fn is_sound(parts: (Seq<char>, Seq<char>, Option<int>)) -> bool {
    &&& parts.0.len() > 0
    &&& parts.1.len() > 0
    &&& text::all_digits(parts.0)
    &&& text::all_digits(parts.1)
    &&& parts.0[0] == '0' ==> parts.0.len() == 1
}

proof fn lemma_layout(digits: Seq<char>, point: int)
    requires
        text::all_digits(digits),
        digits.len() > 0 ==> digits[0] != '0' && digits.last() != '0',
    ensures
        ({
            let parts = layout(digits, point);
            let all = parts.0 + parts.1;
            &&& is_sound(parts)
            &&& significant(all) == digits
            &&& digits.len() > 0 ==> parts.0.len() - leading_zeros(all) + (match parts.2 {
                Some(x) => x,
                None => 0,
            }) == point
        }),
{
    let parts = layout(digits, point);
    let all = parts.0 + parts.1;
    let n = digits.len() as int;
    if n == 0 {
        assert(all =~= zeros(2));
        lemma_leading_zeros_at(all, 2);
        assert(all.skip(2) =~= Seq::empty());
        assert(significant(all) =~= digits);
    } else if 0 < point < n && point <= 21 {
        assert(all =~= zeros(0) + digits + zeros(0));
        lemma_significant_padded(0, digits, 0);
    } else if 0 < point <= 21 {
        assert(all =~= zeros(0) + digits + zeros(point - n + 1));
        lemma_significant_padded(0, digits, point - n + 1);
    } else if -6 < point <= 0 {
        assert(all =~= zeros(1 - point) + digits + zeros(0));
        lemma_significant_padded(1 - point, digits, 0);
    } else if n == 1 {
        assert(all =~= zeros(0) + digits + zeros(1));
        lemma_significant_padded(0, digits, 1);
    } else {
        assert(all =~= zeros(0) + digits + zeros(0));
        lemma_significant_padded(0, digits, 0);
    }
    assert forall|k: int| 0 <= k < parts.0.len() implies text::is_digit(
        #[trigger] parts.0[k],
    ) by {}
    assert forall|k: int| 0 <= k < parts.1.len() implies text::is_digit(
        #[trigger] parts.1[k],
    ) by {}
}

/// What is written for a sound layout is taken apart again.
proof fn lemma_taken_apart(negative: bool, parts: (Seq<char>, Seq<char>, Option<int>))
    requires
        is_sound(parts),
    ensures
        ({
            let w = spelled(negative, parts);
            &&& is_negative(w) == negative
            &&& integer_digits(w) == parts.0
            &&& fraction_digits(w) == parts.1
            &&& text::all_digits(exponent_digits(exponent_text(w)))
            &&& exponent_value(exponent_text(w)) == match parts.2 {
                Some(x) => x,
                None => 0,
            }
        }),
{
    let w = spelled(negative, parts);
    let (a, b, x) = parts;
    let st: int = if negative {
        1
    } else {
        0
    };
    let dot = st + a.len();
    let me = dot + 1 + b.len();
    assert(text::is_digit(a[0]));
    assert(w[st] == a[0]);
    assert forall|k: int| 0 <= k < me implies (#[trigger] w[k]) != 'e' && w[k] != 'E' by {
        if st <= k < dot {
            assert(w[k] == a[k - st]);
            assert(text::is_digit(a[k - st]));
        } else if k > dot {
            assert(w[k] == b[k - dot - 1]);
            assert(text::is_digit(b[k - dot - 1]));
        }
    }
    lemma_first_of_at(w, 'e', 'E', 0, me as int);
    let m = w.take(me as int);
    assert forall|k: int| 0 <= k < dot implies (#[trigger] m[k]) != '.' by {
        assert(m[k] == w[k]);
        if st <= k {
            assert(w[k] == a[k - st]);
            assert(text::is_digit(a[k - st]));
        }
    }
    assert(m[dot as int] == '.');
    lemma_first_of_at(m, '.', '.', 0, dot as int);
    assert(w.subrange(st, dot as int) =~= a);
    assert(w.subrange(dot + 1, me as int) =~= b);
    if let Some(n) = x {
        let e = text::signed_decimal(n);
        let size: nat = if n < 0 {
            (-n) as nat
        } else {
            n as nat
        };
        assert(w.skip(me + 1) =~= e);
        text::lemma_decimal(size);
        let digits = text::decimal(size);
        if n < 0 {
            assert(e.skip(1) =~= digits);
        } else {
            assert(text::is_digit(digits[0]));
            assert(e =~= digits);
        }
    } else {
        let nothing = Seq::<char>::empty();
        assert(exponent_digits(nothing) =~= nothing);
        assert(text::numeral(nothing) == 0);
    }
}

/// A number in normal form is its own normal form, and its layout is sound.
pub proof fn lemma_normal(w: Seq<char>)
    requires
        text::all_digits(integer_digits(w)),
        text::all_digits(fraction_digits(w)),
    ensures
        normal(normal(w)) == normal(w),
        is_sound(normal_layout(w)),
{
    let digits = digits_of(w);
    let d = significant(digits);
    let point = point_of(w);
    let t = spelled(is_negative(w), normal_layout(w));
    assert forall|k: int| 0 <= k < digits.len() implies text::is_digit(#[trigger] digits[k]) by {
        if k < integer_digits(w).len() {
            assert(digits[k] == integer_digits(w)[k]);
        } else {
            assert(digits[k] == fraction_digits(w)[k - integer_digits(w).len()]);
        }
    }
    lemma_significant(digits);
    lemma_layout(d, point);
    lemma_taken_apart(is_negative(w), normal_layout(w));
    if d.len() == 0 {
        assert(layout(d, point) == layout(d, 0));
    }
    assert(normal(t) == t);
}

/// A power of ten.
pub open spec fn power(n: nat) -> nat
    decreases n,
{
    if n == 0 {
        1
    } else {
        10 * power((n - 1) as nat)
    }
}

/// The power of ten that the last digit of the mantissa counts.
pub open spec fn last_place(w: Seq<char>) -> int {
    exponent_value(exponent_text(w)) - fraction_digits(w).len()
}

/// The size of a number in units of the `shift`th place behind the point.
pub open spec fn magnitude(w: Seq<char>, shift: nat) -> nat
    recommends
        last_place(w) + shift >= 0,
{
    text::numeral(digits_of(w)) * power((last_place(w) + shift) as nat)
}

proof fn lemma_power_sum(a: nat, b: nat)
    ensures
        power(a + b) == power(a) * power(b),
        power(a) > 0,
    decreases a,
{
    if a > 0 {
        lemma_power_sum((a - 1) as nat, b);
        let x = power((a - 1) as nat);
        let y = power(b);
        assert(10 * (x * y) == (10 * x) * y) by (nonlinear_arith);
    } else {
        assert(1 * power(b) == power(b)) by (nonlinear_arith);
    }
}

proof fn lemma_numeral_trailing(s: Seq<char>, n: int)
    requires
        0 <= n <= s.len(),
        forall|k: int| n <= k < s.len() ==> (#[trigger] s[k]) == '0',
    ensures
        text::numeral(s) == text::numeral(s.take(n)) * power((s.len() - n) as nat),
    decreases s.len(),
{
    if n == s.len() {
        assert(s.take(n) =~= s);
        assert(text::numeral(s) * 1 == text::numeral(s)) by (nonlinear_arith);
    } else {
        let init = s.drop_last();
        assert(s[s.len() - 1] == '0');
        assert forall|k: int| n <= k < init.len() implies (#[trigger] init[k]) == '0' by {
            assert(init[k] == s[k]);
        }
        lemma_numeral_trailing(init, n);
        assert(init.take(n) =~= s.take(n));
        let x = text::numeral(s.take(n));
        let y = power((init.len() - n) as nat);
        assert((x * y) * 10 == x * (10 * y)) by (nonlinear_arith);
        assert(power((s.len() - n) as nat) == 10 * y);
    }
}

proof fn lemma_numeral_leading(s: Seq<char>, z: int)
    requires
        0 <= z <= s.len(),
        forall|k: int| 0 <= k < z ==> (#[trigger] s[k]) == '0',
    ensures
        text::numeral(s) == text::numeral(s.skip(z)),
    decreases s.len(),
{
    if z == s.len() {
        lemma_numeral_trailing(s, 0);
        assert(s.take(0) =~= Seq::empty());
        assert(s.skip(z) =~= Seq::empty());
        assert(text::numeral(Seq::<char>::empty()) == 0);
        assert(0 * power(s.len()) == 0) by (nonlinear_arith);
    } else {
        let init = s.drop_last();
        assert forall|k: int| 0 <= k < z implies (#[trigger] init[k]) == '0' by {
            assert(init[k] == s[k]);
        }
        lemma_numeral_leading(init, z);
        assert(s.skip(z).drop_last() =~= init.skip(z));
    }
}

/// The digits of a mantissa count as much as the significant ones in their
/// place, which is `point` places behind the first.
proof fn lemma_magnitude(w: Seq<char>, shift: nat)
    requires
        last_place(w) + shift >= 0,
    ensures
        ({
            let all = digits_of(w);
            let d = significant(all);
            let point = point_of(w);
            &&& point - d.len() + shift >= 0 || d.len() == 0
            &&& d.len() > 0 ==> magnitude(w, shift) == text::numeral(d) * power(
                (point - d.len() + shift) as nat,
            )
            &&& d.len() == 0 ==> magnitude(w, shift) == 0
        }),
{
    let all = digits_of(w);
    let z = leading_zeros(all) as int;
    let t = all.skip(z);
    let d = significant(all);
    let point = point_of(w);
    let n = d.len() as int;
    lemma_leading_zeros(all);
    lemma_trailing_zeros(t);
    lemma_numeral_leading(all, z);
    lemma_numeral_trailing(t, n);
    assert(all.len() == integer_digits(w).len() + fraction_digits(w).len());
    let x = text::numeral(d);
    let rest = (t.len() - n) as nat;
    let place = (last_place(w) + shift) as nat;
    lemma_power_sum(rest, place);
    assert((x * power(rest)) * power(place) == x * (power(rest) * power(place)))
        by (nonlinear_arith);
    assert(magnitude(w, shift) == x * power(rest + place));
    assert(rest + place == point - n + shift);
    if n == 0 {
        assert(d =~= Seq::empty());
        assert(text::numeral(Seq::<char>::empty()) == 0);
        assert(0 * power(rest + place) == 0) by (nonlinear_arith);
    }
}

proof fn lemma_numeral_positive(d: Seq<char>)
    requires
        d.len() > 0,
        text::all_digits(d),
        d[0] != '0',
    ensures
        text::numeral(d) > 0,
    decreases d.len(),
{
    assert(text::is_digit(d[0]));
    if d.len() > 1 {
        let init = d.drop_last();
        assert forall|k: int| 0 <= k < init.len() implies text::is_digit(#[trigger] init[k]) by {
            assert(init[k] == d[k]);
        }
        lemma_numeral_positive(init);
    } else {
        assert(d.drop_last() =~= Seq::empty());
        assert(text::numeral(d.drop_last()) == 0);
    }
}

/// Digits without a zero at the start are determined by what they stand for.
proof fn lemma_numeral_injective(c: Seq<char>, d: Seq<char>)
    requires
        text::all_digits(c),
        text::all_digits(d),
        c.len() > 0 ==> c[0] != '0',
        d.len() > 0 ==> d[0] != '0',
        text::numeral(c) == text::numeral(d),
    ensures
        c == d,
    decreases c.len(),
{
    if c.len() == 0 {
        if d.len() > 0 {
            lemma_numeral_positive(d);
        }
        assert(c =~= d);
    } else if d.len() == 0 {
        lemma_numeral_positive(c);
    } else {
        let a = c.drop_last();
        let b = d.drop_last();
        assert(text::is_digit(c[c.len() - 1]) && text::is_digit(d[d.len() - 1]));
        assert forall|k: int| 0 <= k < a.len() implies text::is_digit(#[trigger] a[k]) by {
            assert(a[k] == c[k]);
        }
        assert forall|k: int| 0 <= k < b.len() implies text::is_digit(#[trigger] b[k]) by {
            assert(b[k] == d[k]);
        }
        assert(text::numeral(a) == text::numeral(b) && c.last() == d.last());
        lemma_numeral_injective(a, b);
        assert(c =~= a.push(c.last()));
        assert(d =~= b.push(d.last()));
    }
}

proof fn lemma_no_tens(d: Seq<char>)
    requires
        d.len() > 0,
        text::all_digits(d),
        d.last() != '0',
    ensures
        text::numeral(d) % 10 != 0,
{
    assert(text::is_digit(d[d.len() - 1]));
}

/// Significant digits and their place are determined by what they stand for.
proof fn lemma_places_injective(c: Seq<char>, m: nat, d: Seq<char>, n: nat)
    requires
        text::all_digits(c),
        text::all_digits(d),
        c.len() > 0,
        d.len() > 0,
        c[0] != '0',
        d[0] != '0',
        c.last() != '0',
        d.last() != '0',
        m <= n,
        text::numeral(c) * power(m) == text::numeral(d) * power(n),
    ensures
        c == d,
        m == n,
{
    let x = text::numeral(c) as int;
    let y = text::numeral(d) as int;
    let k = (n - m) as nat;
    lemma_power_sum(m, k);
    lemma_power_sum(m, 0);
    let p = power(m) as int;
    let q = power(k) as int;
    assert(x == y * q) by (nonlinear_arith)
        requires
            x * p == y * (p * q),
            p > 0,
    ;
    if k > 0 {
        let r = power((k - 1) as nat) as int;
        assert(y * (10 * r) == 10 * (y * r)) by (nonlinear_arith);
        lemma_no_tens(c);
    } else {
        assert(y * 1 == y) by (nonlinear_arith);
        lemma_numeral_injective(c, d);
    }
}

/// Two numbers of the same sign have the same normal form exactly if they are
/// equal, however they are written. This leaves out what is too vast to be
/// brought to normal form.
pub proof fn law_normal_form_is_by_value(v: Seq<char>, w: Seq<char>, shift: nat)
    requires
        !is_vast(v),
        !is_vast(w),
        text::all_digits(digits_of(v)),
        text::all_digits(digits_of(w)),
        is_negative(v) == is_negative(w),
        last_place(v) + shift >= 0,
        last_place(w) + shift >= 0,
    ensures
        normal(v) == normal(w) <==> magnitude(v, shift) == magnitude(w, shift),
{
    let a = digits_of(v);
    let b = digits_of(w);
    let c = significant(a);
    let d = significant(b);
    let p = point_of(v);
    let q = point_of(w);
    lemma_significant(a);
    lemma_significant(b);
    lemma_magnitude(v, shift);
    lemma_magnitude(w, shift);
    lemma_layout(c, p);
    lemma_layout(d, q);
    lemma_taken_apart(is_negative(v), layout(c, p));
    lemma_taken_apart(is_negative(w), layout(d, q));
    if c.len() > 0 {
        lemma_numeral_positive(c);
        lemma_power_sum((p - c.len() + shift) as nat, 0);
        assert(magnitude(v, shift) > 0) by (nonlinear_arith)
            requires
                magnitude(v, shift) == text::numeral(c) * power((p - c.len() + shift) as nat),
                text::numeral(c) > 0,
                power((p - c.len() + shift) as nat) > 0,
        ;
    }
    if d.len() > 0 {
        lemma_numeral_positive(d);
        lemma_power_sum((q - d.len() + shift) as nat, 0);
        assert(magnitude(w, shift) > 0) by (nonlinear_arith)
            requires
                magnitude(w, shift) == text::numeral(d) * power((q - d.len() + shift) as nat),
                text::numeral(d) > 0,
                power((q - d.len() + shift) as nat) > 0,
        ;
    }
    if normal(v) == normal(w) {
        assert(c == d);
    } else if magnitude(v, shift) == magnitude(w, shift) {
        if c.len() == 0 {
            assert(c =~= d);
            assert(layout(c, p) == layout(d, q));
        } else {
            let m = (p - c.len() + shift) as nat;
            let n = (q - d.len() + shift) as nat;
            if m <= n {
                lemma_places_injective(c, m, d, n);
            } else {
                lemma_places_injective(d, n, c, m);
            }
        }
    }
}

fn find_first(w: &[char], c: char, d: char, to: usize) -> (r: usize)
    requires
        to <= w@.len(),
    ensures
        r == first_of(w@.take(to as int), c, d, 0),
        r <= to,
{
    let ghost part = w@.take(to as int);
    let mut i: usize = 0;
    while i < to && w[i] != c && w[i] != d
        invariant
            i <= to <= w@.len(),
            part == w@.take(to as int),
            first_of(part, c, d, 0) == first_of(part, c, d, i as int),
        decreases to - i,
    {
        assert(part[i as int] == w@[i as int]);
        i = i + 1;
    }
    if i < to {
        assert(part[i as int] == w@[i as int]);
    }
    i
}

/// Reads an exponent, unless it is too large.
fn read_exponent(w: &[char], from: usize) -> (r: Option<i64>)
    requires
        from <= w@.len(),
    ensures
        ({
            let e = w@.skip(from as int);
            let digits = exponent_digits(e);
            match r {
                Some(x) => text::all_digits(digits) && text::numeral(digits) <= VAST && x
                    == exponent_value(e),
                None => !text::all_digits(digits) || text::numeral(digits) > VAST,
            }
        }),
        r matches Some(x) ==> -(VAST as int) <= x <= VAST,
{
    let ghost e = w@.skip(from as int);
    let signed: bool = from < w.len() && (w[from] == '-' || w[from] == '+');
    let negative: bool = from < w.len() && w[from] == '-';
    let start: usize = if signed {
        from + 1
    } else {
        from
    };
    let ghost digits = exponent_digits(e);
    let mut n: u64 = 0;
    let mut i: usize = start;
    proof {
        if from < w@.len() {
            assert(e[0] == w@[from as int]);
        }
        assert(digits =~= w@.skip(start as int));
        assert(digits.take(0) =~= Seq::empty());
    }
    while i < w.len()
        invariant
            from <= start <= i <= w@.len(),
            digits == w@.skip(start as int),
            digits == exponent_digits(w@.skip(from as int)),
            forall|k: int| start <= k < i ==> text::is_digit(#[trigger] w@[k]),
            n == text::numeral(digits.take(i - start)),
            n <= VAST,
        decreases w.len() - i,
    {
        assert(digits[i - start] == w@[i as int]);
        if w[i] < '0' || w[i] > '9' {
            assert(!text::is_digit(digits[i - start]));
            return None;
        }
        assert(digits.take(i - start + 1).drop_last() =~= digits.take(i - start));
        n = n * 10 + (w[i] as u32 - '0' as u32) as u64;
        i = i + 1;
        if n > VAST as u64 {
            proof {
                text::lemma_numeral_grows(digits, i - start);
            }
            return None;
        }
    }
    assert(digits.take(i - start) =~= digits);
    assert forall|k: int| 0 <= k < digits.len() implies text::is_digit(#[trigger] digits[k]) by {
        assert(digits[k] == w@[start + k]);
    }
    if negative {
        Some(-(n as i64))
    } else {
        Some(n as i64)
    }
}

fn push_zeros(out: &mut String, n: i64)
    ensures
        final(out)@ == old(out)@ + zeros(n as int),
{
    let mut i: i64 = 0;
    assert(out@ =~= old(out)@ + zeros(0));
    if n < 0 {
        assert(zeros(n as int) =~= zeros(0));
        return;
    }
    while i < n
        invariant
            0 <= i <= n,
            out@ == old(out)@ + zeros(i as int),
        decreases n - i,
    {
        out.push('0');
        i = i + 1;
        assert(out@ =~= old(out)@ + zeros(i as int));
    }
}

fn push_range(out: &mut String, s: &[char], from: usize, to: usize)
    requires
        from <= to <= s@.len(),
    ensures
        final(out)@ == old(out)@ + s@.subrange(from as int, to as int),
{
    let mut i: usize = from;
    assert(out@ =~= old(out)@ + s@.subrange(from as int, from as int));
    while i < to
        invariant
            from <= i <= to <= s@.len(),
            out@ == old(out)@ + s@.subrange(from as int, i as int),
        decreases to - i,
    {
        out.push(s[i]);
        i = i + 1;
        assert(out@ =~= old(out)@ + s@.subrange(from as int, i as int));
    }
}

fn write_layout(negative: bool, digits: &[char], point: i64) -> (r: String)
    requires
        digits@.len() <= 2 * VAST,
        -4 * VAST <= point <= 4 * VAST,
    ensures
        r@ == spelled(negative, layout(digits@, point as int)),
{
    let n: usize = digits.len();
    let size: i64 = n as i64;
    let mut out = String::new();
    if negative {
        out.push('-');
    }
    let ghost sign = out@;
    assert(sign =~= if negative {
        seq!['-']
    } else {
        Seq::empty()
    });
    if n == 0 {
        push_zeros(&mut out, 1);
        out.push('.');
        push_zeros(&mut out, 1);
    } else if 0 < point && point < size && point <= 21 {
        push_range(&mut out, digits, 0, point as usize);
        out.push('.');
        push_range(&mut out, digits, point as usize, n);
        assert(digits@.subrange(0, point as int) =~= digits@.take(point as int));
        assert(digits@.subrange(point as int, n as int) =~= digits@.skip(point as int));
    } else if 0 < point && point <= 21 {
        push_range(&mut out, digits, 0, n);
        push_zeros(&mut out, point - size);
        out.push('.');
        push_zeros(&mut out, 1);
        assert(digits@.subrange(0, n as int) =~= digits@);
    } else if -6 < point && point <= 0 {
        push_zeros(&mut out, 1);
        out.push('.');
        push_zeros(&mut out, -point);
        push_range(&mut out, digits, 0, n);
        assert(digits@.subrange(0, n as int) =~= digits@);
    } else {
        push_range(&mut out, digits, 0, 1);
        out.push('.');
        if n == 1 {
            push_zeros(&mut out, 1);
            assert(digits@.subrange(0, 1) =~= digits@);
        } else {
            push_range(&mut out, digits, 1, n);
            assert(digits@.subrange(0, 1) =~= digits@.take(1));
            assert(digits@.subrange(1, n as int) =~= digits@.skip(1));
        }
        out.push('e');
        push_signed_decimal(&mut out, point - 1);
    }
    assert(out@ =~= spelled(negative, layout(digits@, point as int)));
    out
}

/// Where the significant digits start and end.
fn trim(s: &[char]) -> (r: (usize, usize))
    ensures
        r.0 <= r.1 <= s@.len(),
        r.0 == leading_zeros(s@),
        s@.subrange(r.0 as int, r.1 as int) == significant(s@),
{
    let mut z: usize = 0;
    while z < s.len() && s[z] == '0'
        invariant
            z <= s@.len(),
            forall|k: int| 0 <= k < z ==> (#[trigger] s@[k]) == '0',
        decreases s.len() - z,
    {
        z = z + 1;
    }
    let mut t: usize = s.len();
    while t > z && s[t - 1] == '0'
        invariant
            z <= t <= s@.len(),
            forall|k: int| t <= k < s@.len() ==> (#[trigger] s@[k]) == '0',
        decreases t,
    {
        t = t - 1;
    }
    proof {
        lemma_leading_zeros_at(s@, z as int);
        let tail = s@.skip(z as int);
        assert forall|k: int| t - z <= k < tail.len() implies (#[trigger] tail[k]) == '0' by {
            assert(tail[k] == s@[z + k]);
        }
        if t > z {
            assert(tail[t - z - 1] == s@[t - 1]);
        }
        lemma_trailing_zeros_at(tail, t - z);
        assert(s@.subrange(z as int, t as int) =~= tail.take(t - z));
    }
    (z, t)
}

fn push_all(all: &mut Vec<char>, w: &[char], from: usize, to: usize)
    requires
        from <= to <= w@.len(),
    ensures
        final(all)@ == old(all)@ + w@.subrange(from as int, to as int),
{
    let mut i: usize = from;
    assert(all@ =~= old(all)@ + w@.subrange(from as int, from as int));
    while i < to
        invariant
            from <= i <= to <= w@.len(),
            all@ == old(all)@ + w@.subrange(from as int, i as int),
        decreases to - i,
    {
        all.push(w[i]);
        i = i + 1;
        assert(all@ =~= old(all)@ + w@.subrange(from as int, i as int));
    }
}

/// The digits of a mantissa that ends at `end`, and how many of them stand
/// before the point.
fn mantissa_digits(w: &[char], end: usize) -> (r: (Vec<char>, usize))
    requires
        end == mantissa_end(w@),
        end <= w@.len(),
    ensures
        r.0@ == integer_digits(w@) + fraction_digits(w@),
        r.1 == integer_digits(w@).len(),
        r.1 <= r.0@.len() <= w@.len(),
{
    let dot: usize = find_first(w, '.', '.', end);
    let from: usize = if w.len() > 0 && w[0] == '-' {
        1
    } else {
        0
    };
    let mut all: Vec<char> = Vec::new();
    if from < dot {
        push_all(&mut all, w, from, dot);
    }
    let before: usize = all.len();
    assert(all@ =~= integer_digits(w@));
    if dot < end {
        push_all(&mut all, w, dot + 1, end);
    }
    assert(all@ =~= integer_digits(w@) + fraction_digits(w@));
    (all, before)
}

/// The normal form of a number.
pub fn normalize(w: &[char]) -> (r: String)
    ensures
        r@ == normal(w@),
{
    let end: usize = find_first(w, 'e', 'E', w.len());
    assert(w@.take(w@.len() as int) =~= w@);
    let exponent: Option<i64> = if end < w.len() {
        read_exponent(w, end + 1)
    } else {
        assert(exponent_digits(Seq::<char>::empty()) =~= Seq::empty());
        assert(text::numeral(Seq::<char>::empty()) == 0);
        Some(0)
    };
    let x: i64 = match exponent {
        Some(x) if w.len() <= VAST => x,
        _ => {
            let mut out = String::new();
            push_range(&mut out, w, 0, w.len());
            assert(out@ =~= w@);
            return out;
        },
    };
    let (all, before) = mantissa_digits(w, end);
    let (z, t) = trim(all.as_slice());
    let kept: &[char] = vstd::slice::slice_subrange(all.as_slice(), z, t);
    write_layout(w.len() > 0 && w[0] == '-', kept, before as i64 - z as i64 + x)
}

/// A number is its digits before and after the point, the last of which counts
/// the power of ten that is the exponent less the number of digits after the
/// point. Any of sign, fraction and exponent may be missing.
pub proof fn law_numbers_are_taken_apart(
    negative: bool,
    whole: Seq<char>,
    fraction: Option<Seq<char>>,
    exponent: Option<(char, Seq<char>, Seq<char>)>,
    shift: nat,
)
    requires
        whole.len() > 0,
        text::all_digits(whole),
        fraction matches Some(digits) ==> text::all_digits(digits),
        exponent matches Some((mark, sign, digits)) ==> {
            &&& mark == 'e' || mark == 'E'
            &&& sign == seq!['+'] || sign == seq!['-'] || (sign.len() == 0 && digits.len() > 0)
            &&& text::all_digits(digits)
        },
    ensures
        ({
            let w = written(negative, whole, fraction, exponent);
            let after = match fraction {
                Some(digits) => digits,
                None => Seq::empty(),
            };
            let x = match exponent {
                Some((_, sign, digits)) => if sign == seq!['-'] {
                    -(text::numeral(digits) as int)
                } else {
                    text::numeral(digits) as int
                },
                None => 0,
            };
            &&& is_negative(w) == negative
            &&& digits_of(w) == whole + after
            &&& last_place(w) == x - after.len()
            &&& last_place(w) + shift >= 0 ==> magnitude(w, shift) == text::numeral(whole + after)
                * power((x - after.len() + shift) as nat)
            &&& w.len() <= 999_999_999 && -999_999_999 <= x <= 999_999_999 ==> !is_vast(w)
        }),
        power(0) == 1,
        power(shift + 1) == 10 * power(shift),
{
    let w = written(negative, whole, fraction, exponent);
    let after = match fraction {
        Some(digits) => digits,
        None => Seq::empty(),
    };
    let st: int = if negative {
        1
    } else {
        0
    };
    let dot = st + whole.len();
    let me: int = if fraction is Some {
        dot + 1 + after.len()
    } else {
        dot as int
    };
    assert(text::is_digit(whole[0]));
    assert(w[st] == whole[0]);
    assert forall|k: int| 0 <= k < me implies (#[trigger] w[k]) != 'e' && w[k] != 'E' by {
        if st <= k < dot {
            assert(w[k] == whole[k - st]);
            assert(text::is_digit(whole[k - st]));
        } else if k > dot {
            assert(w[k] == after[k - dot - 1]);
            assert(text::is_digit(after[k - dot - 1]));
        }
    }
    lemma_first_of_at(w, 'e', 'E', 0, me);
    let m = w.take(me);
    assert forall|k: int| 0 <= k < dot implies (#[trigger] m[k]) != '.' by {
        assert(m[k] == w[k]);
        if st <= k {
            assert(w[k] == whole[k - st]);
            assert(text::is_digit(whole[k - st]));
        }
    }
    if fraction is Some {
        assert(m[dot as int] == '.');
    }
    lemma_first_of_at(m, '.', '.', 0, dot as int);
    assert(w.subrange(st, dot as int) =~= whole);
    if fraction is Some {
        assert(w.subrange(dot + 1, me) =~= after);
    }
    let none = Seq::<char>::empty();
    if let Some((mark, sign, digits)) = exponent {
        let e = sign + digits;
        assert(w.skip(me + 1) =~= e);
        if sign.len() == 1 {
            assert(e[0] == sign[0]);
            assert(e.skip(1) =~= digits);
        } else {
            assert(e =~= digits);
            assert(text::is_digit(digits[0]));
        }
        assert(exponent_digits(exponent_text(w)) =~= digits);
        assert(sign == seq!['-'] <==> e[0] == '-');
    } else {
        assert(exponent_text(w) =~= none);
        assert(exponent_digits(none) =~= none);
        assert(text::numeral(none) == 0);
    }
}

/// A number, given its parts: the digits before the point, those after it, and
/// the mark, the sign and the digits of the exponent.
pub open spec fn written(
    negative: bool,
    whole: Seq<char>,
    fraction: Option<Seq<char>>,
    exponent: Option<(char, Seq<char>, Seq<char>)>,
) -> Seq<char> {
    let sign = if negative {
        seq!['-']
    } else {
        Seq::empty()
    };
    let after = match fraction {
        Some(digits) => seq!['.'] + digits,
        None => Seq::empty(),
    };
    let power_of_ten = match exponent {
        Some((mark, esign, digits)) => seq![mark] + esign + digits,
        None => Seq::empty(),
    };
    sign + whole + after + power_of_ten
}

} // verus!
