//! What holds of numbers as text.

use vstd::prelude::*;

use crate::number;
use crate::number::DecimalView;
use crate::text;

verus! {

/// Digits from 0 to 9, the first of them not 0.
spec fn digits_ok(d: Seq<u8>) -> bool {
    &&& d.len() >= 1
    &&& d[0] != 0
    &&& forall|i: int| 0 <= i < d.len() ==> #[trigger] d[i] <= 9
}

/// Where the first digit stands in fixed notation.
spec fn lead(x: int) -> int {
    if x >= 0 {
        0
    } else {
        1 - x
    }
}

/// Where the point stands in fixed notation; the end where there is none.
spec fn point(x: int) -> int {
    if x >= 0 {
        x + 1
    } else {
        1
    }
}

/// Where digit `i` stands in fixed notation.
spec fn place(x: int, i: int) -> int {
    if x >= 0 && i > x {
        i + 1
    } else {
        lead(x) + i
    }
}

/// The length of fixed notation with `n` digits.
spec fn fixed_len(x: int, n: int) -> int {
    if x >= 0 {
        if x + 1 < n {
            n + 1
        } else {
            n
        }
    } else {
        lead(x) + n
    }
}

proof fn lemma_digit(d: u8)
    requires
        d <= 9,
    ensures
        text::digit(d as int) != '.',
        text::digit(d as int) != 'e',
        text::digit(d as int) != '-',
        text::digit(d as int) == '0' <==> d == 0,
        text::digit(d as int) as int == 48 + d,
        number::is_digit(text::digit(d as int)),
{
}

/// What stands where in fixed notation.
proof fn lemma_fixed(d: Seq<u8>, x: int)
    requires
        digits_ok(d),
        -4 <= x < d.len(),
    ensures
        number::fixed(d, x).len() == fixed_len(x, d.len() as int),
        forall|i: int|
            0 <= i < d.len() ==> number::fixed(d, x)[#[trigger] place(x, i)] == text::digit(d[i] as int)
                && 0 <= place(x, i) < fixed_len(x, d.len() as int),
        point(x) < fixed_len(x, d.len() as int) ==> number::fixed(d, x)[point(x)] == '.',
        forall|j: int|
            0 <= j < fixed_len(x, d.len() as int) && j != point(x) ==> #[trigger] number::fixed(d, x)[j]
                != '.' && number::fixed(d, x)[j] != 'e' && number::fixed(d, x)[j] != '-',
        forall|j: int|
            0 <= j < lead(x) && j != 1 ==> #[trigger] number::fixed(d, x)[j] == '0',
{
    let f = number::fixed(d, x);
    let n = d.len() as int;
    assert forall|i: int| 0 <= i < n implies text::digit(#[trigger] d[i] as int) != '.' && text::digit(
        d[i] as int,
    ) != 'e' && text::digit(d[i] as int) != '-' by {
        lemma_digit(d[i]);
    }
    if x >= 0 {
        assert forall|j: int| 0 <= j < fixed_len(x, n) && j != point(x) implies #[trigger] f[j] != '.' && f[j]
            != 'e' && f[j] != '-' by {
            if j <= x {
                assert(f[j] == text::digit(d[j] as int));
            } else {
                assert(f[j] == text::digit(d[j - 1] as int));
            }
        }
        assert forall|i: int| 0 <= i < n implies f[#[trigger] place(x, i)] == text::digit(d[i] as int) && 0
            <= place(x, i) < fixed_len(x, n) by {
            if i <= x {
                assert(f[i] == text::digit(d[i] as int));
            } else {
                assert(f[i + 1] == text::digit(d[i] as int));
            }
        }
    } else {
        assert forall|j: int| 0 <= j < fixed_len(x, n) && j != point(x) implies #[trigger] f[j] != '.' && f[j]
            != 'e' && f[j] != '-' by {
            if j >= lead(x) {
                assert(f[j] == text::digit(d[j - lead(x)] as int));
            }
        }
    }
}

proof fn lemma_trimmed(s: Seq<char>, c: char)
    ensures
        number::trimmed(s, c).len() <= s.len(),
        number::trimmed(s, c) == s.take(number::trimmed(s, c).len() as int),
        number::trimmed(s, c).len() > 0 ==> number::trimmed(s, c).last() != c,
        forall|i: int| number::trimmed(s, c).len() <= i < s.len() ==> #[trigger] s[i] == c,
    decreases s.len(),
{
    if s.len() > 0 && s.last() == c {
        lemma_trimmed(s.drop_last(), c);
        let t = number::trimmed(s, c);
        assert(s.drop_last().take(t.len() as int) =~= s.take(t.len() as int));
        assert forall|i: int| t.len() <= i < s.len() implies #[trigger] s[i] == c by {
            if i < s.len() - 1 {
                assert(s.drop_last()[i] == s[i]);
            }
        }
    } else {
        assert(s.take(s.len() as int) =~= s);
    }
}

/// A text with one point, stripped: a beginning of it that leaves out only zeros and, where nothing
/// is left behind it, the point.
proof fn lemma_stripped(s: Seq<char>, k: int)
    requires
        0 <= k < s.len(),
        s[k] == '.',
        forall|i: int| 0 <= i < s.len() && i != k ==> #[trigger] s[i] != '.',
    ensures
        k <= number::stripped(s).len() <= s.len(),
        number::stripped(s).len() != k + 1,
        number::stripped(s) == s.take(number::stripped(s).len() as int),
        number::stripped(s).len() > k ==> number::stripped(s).last() != '0'
            && number::stripped(s).last() != '.',
        forall|i: int|
            number::stripped(s).len() <= i < s.len() && i != k ==> #[trigger] s[i] == '0',
{
    assert(s.contains('.'));
    let u = number::trimmed(s, '0');
    let t = number::trimmed(u, '.');
    lemma_trimmed(s, '0');
    lemma_trimmed(u, '.');
    assert(t == number::stripped(s));
    assert(u.len() > k) by {
        if u.len() <= k {
            assert(s[k] == '0');
        }
    }
    assert forall|i: int| 0 <= i < u.len() implies #[trigger] u[i] == s[i] by {}
    assert(t.len() >= k) by {
        if t.len() < k {
            assert(u[t.len() as int] == '.');
            assert(s[t.len() as int] == '.');
        }
    }
    if t.len() < u.len() {
        assert(u[u.len() - 1] == '.');
        assert(s[u.len() - 1] == '.');
        assert(u.len() - 1 == k);
    }
    if t.len() == k + 1 {
        assert(t.last() == u[k]);
        assert(u[k] == '.');
    }
    assert(u.take(t.len() as int) =~= s.take(t.len() as int));
    if t.len() > k {
        assert(t.len() == u.len());
        assert(t =~= u);
    }
    assert forall|i: int| t.len() <= i < s.len() && i != k implies #[trigger] s[i] == '0' by {}
}

/// Fixed notation, stripped: a beginning of it that leaves out only zeros and the point, and holds
/// all before the point.
proof fn lemma_stripped_fixed(d: Seq<u8>, x: int)
    requires
        digits_ok(d),
        -4 <= x < d.len(),
    ensures
        ({
            let f = number::fixed(d, x);
            let t = number::stripped(f);
            &&& point(x) <= t.len() <= f.len()
            &&& t == f.take(t.len() as int)
            &&& t.len() != point(x) + 1
            &&& t.len() > point(x) ==> t.last() != '0' && t.last() != '.'
            &&& forall|i: int| t.len() <= i < f.len() && i != point(x) ==> #[trigger] f[i] == '0'
            &&& forall|i: int| 0 <= i < t.len() ==> #[trigger] t[i] != 'e' && t[i] != '-'
        }),
{
    let f = number::fixed(d, x);
    let t = number::stripped(f);
    lemma_fixed(d, x);
    if point(x) < f.len() {
        lemma_stripped(f, point(x));
    } else {
        assert(!f.contains('.'));
        assert(f.take(f.len() as int) =~= f);
    }
    assert forall|i: int| 0 <= i < t.len() implies #[trigger] t[i] != 'e' && t[i] != '-' by {
        assert(t[i] == f[i]);
    }
}

proof fn lemma_decimal_read(n: nat)
    ensures
        number::number_of(text::decimal(n)) == n,
        text::decimal(n).len() >= 1,
    decreases n,
{
    if n < 10 {
        lemma_digit(n as u8);
        assert(text::decimal(n).drop_last() =~= Seq::empty());
        assert(number::number_of(text::decimal(n).drop_last()) == 0);
    } else {
        lemma_decimal_read(n / 10);
        lemma_digit((n % 10) as u8);
        assert(text::decimal(n).drop_last() =~= text::decimal(n / 10));
    }
}

/// A number without its sign.
spec fn magnitude(x: int) -> nat {
    (if x < 0 {
        -x
    } else {
        x
    }) as nat
}

proof fn lemma_exponent_tail(x: int)
    ensures
        number::number_of(number::exponent_text(x).skip(1)) == magnitude(x),
        number::exponent_text(x).len() >= 1,
        number::exponent_text(x)[0] == if x < 0 {
            '-'
        } else {
            '+'
        },
{
    let n = magnitude(x);
    let tail = number::exponent_text(x).skip(1);
    lemma_decimal_read(n);
    if n < 10 {
        assert(tail =~= seq!['0'] + text::decimal(n));
        assert(tail.drop_last() =~= seq!['0']);
        assert(seq!['0'].drop_last() =~= Seq::<char>::empty());
        assert(number::number_of(Seq::<char>::empty()) == 0);
        assert(number::number_of(seq!['0']) == 0);
        lemma_digit(n as u8);
    } else {
        assert(tail =~= text::decimal(n));
    }
}

/// A value's sign.
spec fn negative(v: DecimalView) -> bool {
    match v {
        DecimalView::Zero { negative } => negative,
        DecimalView::Nan => false,
        DecimalView::Infinite { negative } => negative,
        DecimalView::Finite { negative, .. } => negative,
    }
}

/// The significant digits of a finite value, as they are shown: with a point, without loose zeros.
pub open spec fn mantissa(digits: Seq<u8>, exponent: int, p: int) -> Seq<char> {
    if -4 <= exponent < number::precision(p) {
        number::stripped(number::fixed(digits, exponent))
    } else {
        number::stripped(number::pointed(digits, 1))
    }
}

/// A value's text without its sign.
spec fn body(v: DecimalView, p: int) -> Seq<char> {
    match v {
        DecimalView::Zero { .. } => seq!['0'],
        DecimalView::Nan => seq!['n', 'a', 'n'],
        DecimalView::Infinite { .. } => seq!['i', 'n', 'f'],
        DecimalView::Finite { digits, exponent, .. } => if -4 <= exponent < number::precision(p) {
            mantissa(digits, exponent, p)
        } else {
            mantissa(digits, exponent, p) + seq!['e'] + number::exponent_text(exponent)
        },
    }
}

/// The mantissa of a finite value as fixed notation, stripped.
proof fn lemma_mantissa(digits: Seq<u8>, exponent: int, p: int)
    requires
        p >= 0,
        digits_ok(digits),
        digits.len() == number::precision(p),
    ensures
        ({
            let x = if -4 <= exponent < number::precision(p) {
                exponent
            } else {
                0
            };
            let m = mantissa(digits, exponent, p);
            &&& -4 <= x < digits.len()
            &&& m == number::stripped(number::fixed(digits, x))
            &&& m.len() >= 1
            &&& forall|i: int| 0 <= i < m.len() ==> #[trigger] m[i] != 'e' && m[i] != '-'
            &&& number::is_digit(m[0])
            &&& x >= 0 ==> m[0] != '0'
            &&& x < 0 ==> m.len() >= 2
        }),
{
    let x = if -4 <= exponent < number::precision(p) {
        exponent
    } else {
        0
    };
    let f = number::fixed(digits, x);
    let m = mantissa(digits, exponent, p);
    assert(m == number::stripped(f));
    lemma_fixed(digits, x);
    lemma_stripped_fixed(digits, x);
    lemma_digit(digits[0]);
    assert(m[0] == f[0]);
    assert(f[place(x, 0)] == text::digit(digits[0] as int));
    if x < 0 {
        assert(f[0] == '0');
        if m.len() < 2 {
            assert(place(x, 0) >= 2);
            assert(f[place(x, 0)] == '0');
        }
    }
}

proof fn lemma_body(v: DecimalView, p: int)
    requires
        v.wf(p),
    ensures
        number::g_text(v, p) == number::sign(negative(v)) + body(v, p),
        body(v, p).len() >= 1,
        body(v, p)[0] != '-',
        v is Finite ==> number::is_digit(body(v, p)[0]) && body(v, p) != seq!['0'],
{
    let (t, b) = (number::g_text(v, p), body(v, p));
    match v {
        DecimalView::Finite { negative: minus, digits, exponent } => {
            lemma_mantissa(digits, exponent, p);
            let m = mantissa(digits, exponent, p);
            assert(b[0] == m[0]);
            assert(t =~= number::sign(minus) + b);
            if b == seq!['0'] {
                assert(b.len() == 1);
                assert(m.len() == 1);
            }
        },
        _ => {
            assert(t =~= number::sign(negative(v)) + b);
        },
    }
}

/// A finite value's text is its sign, its mantissa and, out of the range of fixed notation, its
/// power of ten; and the mantissa ends neither in a point nor, behind a point, in a zero.
pub proof fn law_mantissa_has_no_loose_end(v: DecimalView, p: int)
    requires
        v.wf(p),
    ensures
        v matches DecimalView::Finite { negative, digits, exponent } ==> {
            let m = mantissa(digits, exponent, p);
            &&& m.len() >= 1
            &&& m.last() != '.'
            &&& m.contains('.') ==> m.last() != '0'
            &&& number::g_text(v, p) == if -4 <= exponent < number::precision(p) {
                number::sign(negative) + m
            } else {
                number::sign(negative) + m + seq!['e'] + number::exponent_text(exponent)
            }
        },
{
    if let DecimalView::Finite { negative, digits, exponent } = v {
        let x = if -4 <= exponent < number::precision(p) {
            exponent
        } else {
            0
        };
        let f = number::fixed(digits, x);
        let m = mantissa(digits, exponent, p);
        lemma_mantissa(digits, exponent, p);
        lemma_fixed(digits, x);
        lemma_stripped_fixed(digits, x);
        if m.len() == point(x) {
            assert forall|i: int| 0 <= i < m.len() implies #[trigger] m[i] != '.' by {
                assert(m[i] == f[i]);
            }
        }
    }
}

/// The first place of `c` in `s`; the end where it is not there.
pub open spec fn first_place(s: Seq<char>, c: char) -> int
    decreases s.len(),
{
    if s.len() == 0 || s[0] == c {
        0
    } else {
        1 + first_place(s.skip(1), c)
    }
}

/// How many zeros `s` begins with.
pub open spec fn leading_zeros(s: Seq<char>) -> int
    decreases s.len(),
{
    if s.len() > 0 && s[0] == '0' {
        1 + leading_zeros(s.skip(1))
    } else {
        0
    }
}

/// `s` without its point.
pub open spec fn without_point(s: Seq<char>) -> Seq<char> {
    let k = first_place(s, '.');
    if k < s.len() {
        s.take(k) + s.skip(k + 1)
    } else {
        s
    }
}

/// What stands behind the `e`: a power of ten, 0 where there is none.
pub open spec fn power_in(s: Seq<char>) -> int {
    let k = first_place(s, 'e');
    if k >= s.len() {
        0
    } else if s.skip(k + 1).len() > 0 && s.skip(k + 1)[0] == '-' {
        -number::number_of(s.skip(k + 2))
    } else {
        number::number_of(s.skip(k + 2)) as int
    }
}

/// The value of a number's text without its sign, to `n` digits: the digits from the first that is
/// not 0, with zeros behind them where there are fewer; and the power of ten of the first of them,
/// from where the point stands and from what stands behind the `e`.
pub open spec fn finite_in(s: Seq<char>, negative: bool, n: int) -> DecimalView {
    let m = s.take(first_place(s, 'e'));
    let d = without_point(m);
    let j = leading_zeros(d);
    DecimalView::Finite {
        negative,
        digits: Seq::new(
            n as nat,
            |i: int|
                if j + i < d.len() {
                    (d[j + i] as u8 - 48) as u8
                } else {
                    0
                },
        ),
        exponent: power_in(s) + first_place(m, '.') - 1 - j,
    }
}

/// The value that a text has, to a precision of `p`.
pub open spec fn value_in(t: Seq<char>, p: int) -> DecimalView {
    let negative = t.len() > 0 && t[0] == '-';
    let s = if negative {
        t.skip(1)
    } else {
        t
    };
    if s == seq!['0'] {
        DecimalView::Zero { negative }
    } else if s == seq!['n', 'a', 'n'] {
        DecimalView::Nan
    } else if s == seq!['i', 'n', 'f'] {
        DecimalView::Infinite { negative }
    } else {
        finite_in(s, negative, number::precision(p))
    }
}

proof fn lemma_first_place(s: Seq<char>, c: char, k: int)
    requires
        0 <= k <= s.len(),
        forall|i: int| 0 <= i < k ==> #[trigger] s[i] != c,
        k < s.len() ==> s[k] == c,
    ensures
        first_place(s, c) == k,
    decreases s.len(),
{
    if k > 0 {
        assert(s[0] != c);
        assert forall|i: int| 0 <= i < k - 1 implies #[trigger] s.skip(1)[i] != c by {
            assert(s.skip(1)[i] == s[i + 1]);
        }
        lemma_first_place(s.skip(1), c, k - 1);
    }
}

proof fn lemma_leading_zeros(s: Seq<char>, k: int)
    requires
        0 <= k < s.len(),
        forall|i: int| 0 <= i < k ==> #[trigger] s[i] == '0',
        s[k] != '0',
    ensures
        leading_zeros(s) == k,
    decreases s.len(),
{
    if k > 0 {
        assert(s[0] == '0');
        assert forall|i: int| 0 <= i < k - 1 implies #[trigger] s.skip(1)[i] == '0' by {
            assert(s.skip(1)[i] == s[i + 1]);
        }
        lemma_leading_zeros(s.skip(1), k - 1);
    }
}

/// A mantissa in fixed notation reads back as its digits and its power of ten.
proof fn lemma_fixed_reads_back(d: Seq<u8>, x: int)
    requires
        digits_ok(d),
        -4 <= x < d.len(),
    ensures
        ({
            let m = number::stripped(number::fixed(d, x));
            let w = without_point(m);
            &&& first_place(m, '.') - 1 - leading_zeros(w) == x
            &&& forall|i: int|
                0 <= i < d.len() ==> #[trigger] d[i] == if leading_zeros(w) + i < w.len() {
                    (w[leading_zeros(w) + i] as u8 - 48) as u8
                } else {
                    0
                }
        }),
{
    let f = number::fixed(d, x);
    let m = number::stripped(f);
    let k = point(x);
    lemma_fixed(d, x);
    lemma_stripped_fixed(d, x);
    assert forall|i: int| 0 <= i < m.len() implies #[trigger] m[i] == f[i] by {}
    assert(k < m.len() ==> m[k] == '.');
    lemma_first_place(m, '.', k);
    let w = without_point(m);
    // Where the digit at place `j` of the notation stands without the point.
    assert forall|j: int| 0 <= j < m.len() && j != k implies #[trigger] m[j] == w[if j < k {
        j
    } else {
        j - 1
    }] by {}
    let j = if x >= 0 {
        0
    } else {
        -x
    };
    lemma_digit(d[0]);
    assert(f[place(x, 0)] == text::digit(d[0] as int));
    assert(place(x, 0) < m.len());
    if x >= 0 {
        assert(m[0] == w[0]);
        lemma_leading_zeros(w, 0);
    } else {
        assert(m[lead(x)] == w[lead(x) - 1]);
        assert(w[j] != '0');
        assert forall|i: int| 0 <= i < j implies #[trigger] w[i] == '0' by {
            if i == 0 {
                assert(m[0] == w[0]);
                assert(f[0] == '0');
            } else {
                assert(m[i + 1] == w[i]);
                assert(f[i + 1] == '0');
            }
        }
        lemma_leading_zeros(w, j);
    }
    assert forall|i: int| 0 <= i < d.len() implies #[trigger] d[i] == if leading_zeros(w) + i < w.len() {
        (w[leading_zeros(w) + i] as u8 - 48) as u8
    } else {
        0
    } by {
        let q = place(x, i);
        lemma_digit(d[i]);
        assert(f[place(x, i)] == text::digit(d[i] as int));
        assert(q != k);
        if q < m.len() {
            assert(m[q] == w[if q < k {
                q
            } else {
                q - 1
            }]);
        } else {
            assert(f[q] == '0');
        }
    }
}

/// A finite value's text without its sign reads back as its digits and its power of ten.
proof fn lemma_finite_reads_back(digits: Seq<u8>, exponent: int, minus: bool, p: int)
    requires
        p >= 0,
        digits_ok(digits),
        digits.len() == number::precision(p),
    ensures
        ({
            let v = DecimalView::Finite { negative: minus, digits, exponent };
            finite_in(body(v, p), minus, number::precision(p)) == v
        }),
{
    let v = DecimalView::Finite { negative: minus, digits, exponent };
    let b = body(v, p);
    let n = number::precision(p);
    let m = mantissa(digits, exponent, p);
    let plain = -4 <= exponent < n;
    let x = if plain {
        exponent
    } else {
        0
    };
    lemma_mantissa(digits, exponent, p);
    lemma_fixed_reads_back(digits, x);
    assert forall|i: int| 0 <= i < m.len() implies #[trigger] b[i] != 'e' by {
        assert(b[i] == m[i]);
    }
    lemma_first_place(b, 'e', m.len() as int);
    assert(b.take(m.len() as int) =~= m);
    assert(power_in(b) == exponent - x) by {
        if !plain {
            let e = number::exponent_text(exponent);
            lemma_exponent_tail(exponent);
            assert(b.skip((m.len() + 1) as int) =~= e);
            assert(b.skip((m.len() + 2) as int) =~= e.skip(1));
        }
    }
    assert(finite_in(b, minus, n)->Finite_digits =~= digits);
}

/// A text reads back as the value that it was made from: sign, digits and power of ten.
pub proof fn law_g_text_reads_back(v: DecimalView, p: int)
    requires
        v.wf(p),
    ensures
        value_in(number::g_text(v, p), p) == v,
{
    let t = number::g_text(v, p);
    let b = body(v, p);
    lemma_body(v, p);
    if negative(v) {
        assert(t[0] == '-');
        assert(t.skip(1) =~= b);
    } else {
        assert(t =~= b);
    }
    assert(seq!['0'][0] == '0');
    assert(seq!['n', 'a', 'n'][0] == 'n');
    assert(seq!['i', 'n', 'f'][0] == 'i');
    if let DecimalView::Finite { negative: minus, digits, exponent } = v {
        lemma_finite_reads_back(digits, exponent, minus, p);
    }
}

/// Seventeen significant digits read back as the value that they were made from.
pub proof fn law_g17_text_reads_back(v: DecimalView)
    requires
        v.wf(17),
    ensures
        value_in(number::g_text(v, 17), 17) == v,
{
    law_g_text_reads_back(v, 17);
}

/// Two values that are rounded to one precision have one text only where they are one value: the
/// text keeps the digits, the power of ten and the sign.
pub proof fn law_g_texts_differ(a: DecimalView, b: DecimalView, p: int)
    requires
        a.wf(p),
        b.wf(p),
        number::g_text(a, p) == number::g_text(b, p),
    ensures
        a == b,
{
    law_g_text_reads_back(a, p);
    law_g_text_reads_back(b, p);
}

/// Seventeen significant digits keep values apart.
pub proof fn law_g17_texts_differ(a: DecimalView, b: DecimalView)
    requires
        a.wf(17),
        b.wf(17),
        number::g_text(a, 17) == number::g_text(b, 17),
    ensures
        a == b,
{
    law_g_texts_differ(a, b, 17);
}

} // verus!
