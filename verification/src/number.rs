//! C's `%g`: a number's significant digits and its decimal exponent made into text.

use vstd::prelude::*;

use crate::text;
use crate::text::{chars_of, push_nat, slice_text};

verus! {

/// A floating-point value in decimal, rounded to some number of significant digits.
#[derive(Debug, PartialEq, Eq)]
pub enum Decimal {
    Zero { negative: bool },
    Nan,
    Infinite { negative: bool },
    /// The digits, from 0 to 9, have the point behind the first of them; then the power of ten.
    Finite { negative: bool, digits: Vec<u8>, exponent: i32 },
}

/// A [`Decimal`] with its digits as a sequence.
pub enum DecimalView {
    Zero { negative: bool },
    Nan,
    Infinite { negative: bool },
    Finite { negative: bool, digits: Seq<u8>, exponent: int },
}

impl View for Decimal {
    type V = DecimalView;

    open spec fn view(&self) -> DecimalView {
        match self {
            Decimal::Zero { negative } => DecimalView::Zero { negative: *negative },
            Decimal::Nan => DecimalView::Nan,
            Decimal::Infinite { negative } => DecimalView::Infinite { negative: *negative },
            Decimal::Finite { negative, digits, exponent } => DecimalView::Finite {
                negative: *negative,
                digits: digits@,
                exponent: *exponent as int,
            },
        }
    }
}

/// How many significant digits a precision of `p` shows: a precision of 0 counts as 1.
pub open spec fn precision(p: int) -> int {
    if p == 0 {
        1
    } else {
        p
    }
}

impl DecimalView {
    /// A finite value has as many digits as a precision of `p` shows, the first of them not 0.
    pub open spec fn wf(self, p: int) -> bool {
        &&& p >= 0
        &&& self matches DecimalView::Finite { digits, .. } ==> {
            &&& digits.len() == precision(p)
            &&& digits[0] != 0
            &&& forall|i: int| 0 <= i < digits.len() ==> #[trigger] digits[i] <= 9
        }
    }
}

/// The digits as characters.
pub open spec fn digit_chars(d: Seq<u8>) -> Seq<char> {
    Seq::new(d.len(), |i: int| text::digit(d[i] as int))
}

/// `n` times the character `c`.
pub open spec fn repeated(c: char, n: int) -> Seq<char> {
    Seq::new(
        if n > 0 {
            n as nat
        } else {
            0
        },
        |i: int| c,
    )
}

/// `d` with the point put behind its first `whole` digits; no point where none is left.
pub open spec fn pointed(d: Seq<u8>, whole: int) -> Seq<char> {
    digit_chars(d.take(whole)) + if whole < d.len() {
        seq!['.'] + digit_chars(d.skip(whole))
    } else {
        Seq::empty()
    }
}

/// Fixed notation of the digits `d` times ten to the `x`, for `x` below their number.
pub open spec fn fixed(d: Seq<u8>, x: int) -> Seq<char> {
    if x >= 0 {
        pointed(d, x + 1)
    } else {
        seq!['0', '.'] + repeated('0', -x - 1) + digit_chars(d)
    }
}

/// `s` without the `c`s that it ends with.
pub open spec fn trimmed(s: Seq<char>, c: char) -> Seq<char>
    decreases s.len(),
{
    if s.len() > 0 && s.last() == c {
        trimmed(s.drop_last(), c)
    } else {
        s
    }
}

/// `s` without the zeros behind its point, and without the point where nothing is left behind it.
pub open spec fn stripped(s: Seq<char>) -> Seq<char> {
    if s.contains('.') {
        trimmed(trimmed(s, '0'), '.')
    } else {
        s
    }
}

/// A power of ten: its sign and at least two digits.
pub open spec fn exponent_text(x: int) -> Seq<char> {
    let n = if x < 0 {
        -x
    } else {
        x
    };
    seq![
        if x < 0 {
            '-'
        } else {
            '+'
        },
    ] + (if n < 10 {
        seq!['0']
    } else {
        Seq::empty()
    }) + text::decimal(n as nat)
}

/// A minus sign where the value is negative.
pub open spec fn sign(negative: bool) -> Seq<char> {
    if negative {
        seq!['-']
    } else {
        Seq::empty()
    }
}

/// C's `%.<p>g`: fixed notation for a power of ten from -4 up to below the precision, scientific
/// notation otherwise, without trailing zeros.
pub open spec fn g_text(v: DecimalView, p: int) -> Seq<char> {
    match v {
        DecimalView::Zero { negative } => sign(negative) + seq!['0'],
        DecimalView::Nan => seq!['n', 'a', 'n'],
        DecimalView::Infinite { negative } => sign(negative) + seq!['i', 'n', 'f'],
        DecimalView::Finite { negative, digits, exponent } => if -4 <= exponent < precision(p) {
            sign(negative) + stripped(fixed(digits, exponent))
        } else {
            sign(negative) + stripped(pointed(digits, 1)) + seq!['e'] + exponent_text(exponent)
        },
    }
}

/// Puts the characters of the digits `from..to` of `d` at the end of `out`.
fn push_digits(out: &mut Vec<char>, d: &Vec<u8>, from: usize, to: usize)
    requires
        from <= to <= d@.len(),
        forall|i: int| 0 <= i < d@.len() ==> #[trigger] d@[i] <= 9,
    ensures
        final(out)@ == old(out)@ + digit_chars(d@.subrange(from as int, to as int)),
{
    let ghost before = out@;
    let mut i: usize = from;
    assert(out@ =~= before + digit_chars(d@.subrange(from as int, i as int)));
    while i < to
        invariant
            from <= i <= to <= d@.len(),
            forall|k: int| 0 <= k < d@.len() ==> #[trigger] d@[k] <= 9,
            out@ == before + digit_chars(d@.subrange(from as int, i as int)),
        decreases to - i,
    {
        out.push((48 + d[i]) as char);
        i = i + 1;
        assert(out@ =~= before + digit_chars(d@.subrange(from as int, i as int)));
    }
}

/// The digits with the point behind the first `whole` of them.
fn point_chars(d: &Vec<u8>, whole: usize) -> (r: Vec<char>)
    requires
        whole <= d@.len(),
        forall|i: int| 0 <= i < d@.len() ==> #[trigger] d@[i] <= 9,
    ensures
        r@ == pointed(d@, whole as int),
{
    let mut out: Vec<char> = Vec::new();
    push_digits(&mut out, d, 0, whole);
    assert(d@.subrange(0, whole as int) =~= d@.take(whole as int));
    if whole < d.len() {
        out.push('.');
        push_digits(&mut out, d, whole, d.len());
        assert(d@.subrange(whole as int, d@.len() as int) =~= d@.skip(whole as int));
    }
    assert(out@ =~= pointed(d@, whole as int));
    out
}

/// Fixed notation of the digits times ten to the `x`.
fn fixed_chars(d: &Vec<u8>, x: i32) -> (r: Vec<char>)
    requires
        x < d@.len(),
        forall|i: int| 0 <= i < d@.len() ==> #[trigger] d@[i] <= 9,
    ensures
        r@ == fixed(d@, x as int),
{
    if x >= 0 {
        let whole: usize = x as usize + 1;
        return point_chars(d, whole);
    }
    let mut out: Vec<char> = Vec::new();
    out.push('0');
    out.push('.');
    let mut k: i32 = x;
    while k < -1
        invariant
            x <= k <= -1,
            out@ == seq!['0', '.'] + repeated('0', k - x),
        decreases -1 - k,
    {
        out.push('0');
        k = k + 1;
        assert(out@ =~= seq!['0', '.'] + repeated('0', k - x));
    }
    push_digits(&mut out, d, 0, d.len());
    assert(d@.subrange(0, d@.len() as int) =~= d@);
    assert(out@ =~= fixed(d@, x as int));
    out
}

/// How many characters of the first `n` are left without the `c`s that they end with.
fn trim_end(s: &Vec<char>, n: usize, c: char) -> (r: usize)
    requires
        n <= s@.len(),
    ensures
        r <= n,
        s@.take(r as int) == trimmed(s@.take(n as int), c),
{
    let mut m: usize = n;
    while m > 0 && s[m - 1] == c
        invariant
            m <= n <= s@.len(),
            trimmed(s@.take(m as int), c) == trimmed(s@.take(n as int), c),
        decreases m,
    {
        assert(s@.take(m as int).drop_last() =~= s@.take(m - 1));
        m = m - 1;
    }
    m
}

/// `s` without the zeros behind its point, and without the point where nothing is left behind it.
fn strip(s: &Vec<char>) -> (r: String)
    ensures
        r@ == stripped(s@),
{
    let n: usize = s.len();
    let mut i: usize = 0;
    assert(s@.take(n as int) =~= s@);
    assert(s@.subrange(0, n as int) =~= s@);
    while i < n
        invariant
            n == s@.len(),
            i <= n,
            s@.take(n as int) == s@,
            forall|k: int| 0 <= k < i ==> s@[k] != '.',
        decreases n - i,
    {
        if s[i] == '.' {
            assert(s@.contains('.'));
            let m: usize = trim_end(s, n, '0');
            let k: usize = trim_end(s, m, '.');
            assert(s@.subrange(0, k as int) =~= s@.take(k as int));
            return slice_text(s, 0, k);
        }
        i = i + 1;
    }
    slice_text(s, 0, n)
}

/// C's `%.<p>g` of a value that is rounded to so many significant digits; a precision of 0 counts
/// as 1.
pub fn fmt_g(v: &Decimal, p: usize) -> (r: String)
    requires
        v@.wf(p as int),
    ensures
        r@ == g_text(v@, p as int),
{
    let shown: usize = if p == 0 {
        1
    } else {
        p
    };
    let mut out = String::new();
    match v {
        Decimal::Zero { negative } => {
            if *negative {
                out.push('-');
            }
            out.push('0');
        },
        Decimal::Nan => {
            out.push('n');
            out.push('a');
            out.push('n');
        },
        Decimal::Infinite { negative } => {
            if *negative {
                out.push('-');
            }
            out.push('i');
            out.push('n');
            out.push('f');
        },
        Decimal::Finite { negative, digits, exponent } => {
            if *negative {
                out.push('-');
            }
            assert(out@ =~= sign(*negative));
            let x: i32 = *exponent;
            if x >= -4 && (x < 0 || (x as usize) < shown) {
                let cs = fixed_chars(digits, x);
                out.append(strip(&cs).as_str());
            } else {
                let cs = point_chars(digits, 1);
                out.append(strip(&cs).as_str());
                out.push('e');
                let ghost before = out@;
                let n: u128 = if x < 0 {
                    (-(x as i64)) as u128
                } else {
                    x as u128
                };
                if x < 0 {
                    out.push('-');
                } else {
                    out.push('+');
                }
                if n < 10 {
                    out.push('0');
                }
                push_nat(&mut out, n);
                assert(out@ =~= before + exponent_text(x as int));
                assert(before =~= sign(*negative) + stripped(pointed(digits@, 1)) + seq!['e']);
            }
        },
    }
    assert(out@ =~= g_text(v@, p as int));
    out
}

/// C's `%.17g`.
pub fn fmt_g17(v: &Decimal) -> (r: String)
    requires
        v@.wf(17),
    ensures
        r@ == g_text(v@, 17),
{
    fmt_g(v, 17)
}

/// A decimal digit's character.
pub open spec fn is_digit(c: char) -> bool {
    '0' <= c <= '9'
}

/// The number that a row of digit characters writes.
pub open spec fn number_of(s: Seq<char>) -> nat
    decreases s.len(),
{
    if s.len() == 0 {
        0
    } else {
        number_of(s.drop_last()) * 10 + (s.last() as u8 - 48) as nat
    }
}

/// Where the first digit stands: behind the sign.
pub open spec fn sci_start(s: Seq<char>) -> int {
    if s.len() > 0 && s[0] == '-' {
        1
    } else {
        0
    }
}

/// Where digit `i` stands: the point follows the first.
pub open spec fn sci_place(s: Seq<char>, i: int) -> int {
    sci_start(s) + if i == 0 {
        0
    } else {
        i + 1
    }
}

/// What stands behind the `e`.
pub open spec fn sci_tail(s: Seq<char>, p: int) -> Seq<char> {
    s.skip(sci_place(s, p - 1) + 2)
}

/// The digits of the power of ten.
pub open spec fn sci_power(s: Seq<char>, p: int) -> Seq<char> {
    let tail = sci_tail(s, p);
    if tail.len() > 0 && tail[0] == '-' {
        tail.skip(1)
    } else {
        tail
    }
}

/// Scientific notation with `p` digits: a sign, the first digit, the point and the others, then
/// `e` and the power of ten.
pub open spec fn is_sci(s: Seq<char>, p: int) -> bool {
    let last = sci_place(s, p - 1);
    &&& p >= 1
    &&& last + 2 <= s.len()
    &&& forall|i: int| 0 <= i < p ==> is_digit(s[#[trigger] sci_place(s, i)])
    &&& s[sci_start(s)] != '0'
    &&& p > 1 ==> s[sci_start(s) + 1] == '.'
    &&& s[last + 1] == 'e'
    &&& 1 <= sci_power(s, p).len() <= 9
    &&& forall|i: int| 0 <= i < sci_power(s, p).len() ==> is_digit(#[trigger] sci_power(s, p)[i])
}

/// The value that scientific notation with `p` digits writes.
pub open spec fn sci_value(s: Seq<char>, p: int) -> DecimalView {
    let n = number_of(sci_power(s, p)) as int;
    DecimalView::Finite {
        negative: s.len() > 0 && s[0] == '-',
        digits: Seq::new(p as nat, |i: int| (s[sci_place(s, i)] as u8 - 48) as u8),
        exponent: if sci_tail(s, p).len() > 0 && sci_tail(s, p)[0] == '-' {
            -n
        } else {
            n
        },
    }
}

/// The number that the digit characters `from..` of `cs` write, at most nine of them.
fn read_number(cs: &Vec<char>, from: usize) -> (r: Option<i32>)
    requires
        from <= cs@.len(),
    ensures
        r is Some == (1 <= cs@.skip(from as int).len() <= 9 && forall|i: int|
            0 <= i < cs@.skip(from as int).len() ==> is_digit(#[trigger] cs@.skip(from as int)[i])),
        r matches Some(n) ==> n == number_of(cs@.skip(from as int)),
{
    let m: usize = cs.len();
    let ghost s = cs@.skip(from as int);
    if m - from < 1 || m - from > 9 {
        return None;
    }
    let mut n: i32 = 0;
    let mut bound: i32 = 1;
    let mut i: usize = from;
    assert(s.take(0).len() == 0);
    while i < m
        invariant
            m == cs@.len(),
            from <= i <= m,
            m - from <= 9,
            s == cs@.skip(from as int),
            n == number_of(s.take(i - from)),
            0 <= n < bound,
            bound == pow10(i - from),
            bound <= 1_000_000_000,
            forall|k: int| 0 <= k < i - from ==> is_digit(#[trigger] s[k]),
        decreases m - i,
    {
        let c = cs[i];
        assert(c == s[i - from]);
        if !('0' <= c && c <= '9') {
            return None;
        }
        let d: i32 = (c as u8 - 48) as i32;
        assert(s.take(i + 1 - from).drop_last() =~= s.take(i - from));
        assert(pow10(i + 1 - from) <= 1_000_000_000) by {
            reveal_with_fuel(pow10, 10);
        }
        n = n * 10 + d;
        bound = bound * 10;
        i = i + 1;
    }
    assert(s.take(m - from) =~= s);
    Some(n)
}

/// Ten to the `n`.
spec fn pow10(n: int) -> int
    decreases n,
{
    if n <= 0 {
        1
    } else {
        pow10(n - 1) * 10
    }
}

/// Reads scientific notation with `p` digits.
pub fn read_sci(s: &str, p: usize) -> (r: Option<Decimal>)
    ensures
        r is Some == is_sci(s@, p as int),
        r matches Some(d) ==> d@ == sci_value(s@, p as int) && d@.wf(p as int),
{
    let cs = chars_of(s);
    let m: usize = cs.len();
    if p == 0 {
        return None;
    }
    let negative = m > 0 && cs[0] == '-';
    let start: usize = if negative {
        1
    } else {
        0
    };
    // The digits, the point and the `e`, then something behind them.
    if p > m || m - p < start + (if p > 1 { 1usize } else { 0 }) + 1 {
        assert(sci_place(s@, p - 1) + 2 > m);
        return None;
    }
    let last: usize = if p == 1 {
        start
    } else {
        start + p
    };
    assert(last == sci_place(s@, p - 1));
    let mut digits: Vec<u8> = Vec::new();
    let mut i: usize = 0;
    while i < p
        invariant
            cs@ == s@,
            m == s@.len(),
            start == sci_start(s@),
            last == sci_place(s@, p - 1),
            last + 2 <= m,
            i <= p,
            digits@.len() == i,
            forall|k: int| 0 <= k < i ==> is_digit(s@[#[trigger] sci_place(s@, k)]),
            forall|k: int| 0 <= k < i ==> #[trigger] digits@[k] == (s@[sci_place(s@, k)] as u8 - 48) as u8,
            forall|k: int| 0 <= k < i ==> #[trigger] digits@[k] <= 9,
        decreases p - i,
    {
        let at: usize = if i == 0 {
            start
        } else {
            start + i + 1
        };
        assert(at == sci_place(s@, i as int));
        assert(at <= last);
        let c = cs[at];
        if !('0' <= c && c <= '9') {
            return None;
        }
        digits.push(c as u8 - 48);
        i = i + 1;
    }
    assert(sci_place(s@, 0) == start);
    if cs[start] == '0' || (p > 1 && cs[start + 1] != '.') || cs[last + 1] != 'e' {
        return None;
    }
    let minus = last + 2 < m && cs[last + 2] == '-';
    assert(sci_tail(s@, p as int) == s@.skip(last + 2));
    let from: usize = if minus {
        last + 3
    } else {
        last + 2
    };
    assert(sci_power(s@, p as int) == cs@.skip(from as int)) by {
        if minus {
            assert(s@.skip(last + 2).skip(1) =~= s@.skip(last + 3));
        }
    }
    match read_number(&cs, from) {
        None => None,
        Some(n) => {
            let exponent: i32 = if minus {
                -n
            } else {
                n
            };
            let ghost want = sci_value(s@, p as int);
            assert(digits@ =~= want->Finite_digits);
            assert(is_digit(s@[sci_place(s@, 0)]));
            Some(Decimal::Finite { negative, digits, exponent })
        },
    }
}

} // verus!
