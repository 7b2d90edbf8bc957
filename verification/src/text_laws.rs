//! What holds of texts: of numbers written in decimal, of places found, of words.

use vstd::prelude::*;
use vstd::string::*;

use crate::job;
use crate::number;
use crate::text;

verus! {

/// A natural number in decimal reads back: it is written in digits alone, which come to the number,
/// and it begins with 0 only where it is 0.
pub proof fn law_decimal_reads_back(n: nat)
    ensures
        number::number_of(text::decimal(n)) == n,
        text::decimal(n).len() >= 1,
        forall|i: int|
            0 <= i < text::decimal(n).len() ==> number::is_digit(#[trigger] text::decimal(n)[i]),
        text::decimal(n)[0] == '0' <==> n == 0,
    decreases n,
{
    reveal_with_fuel(number::number_of, 2);
    if n < 10 {
        let s = text::decimal(n);
        assert(s.drop_last() =~= Seq::empty());
    } else {
        law_decimal_reads_back(n / 10);
        let before = text::decimal(n / 10);
        let s = text::decimal(n);
        assert(s.drop_last() =~= before);
        assert(s[0] == before[0]);
        assert forall|i: int| 0 <= i < s.len() implies number::is_digit(#[trigger] s[i]) by {
            if i < before.len() {
                assert(number::is_digit(before[i]));
            }
        }
    }
}

/// An integer is written as its magnitude in decimal, behind a minus sign exactly where it is
/// negative.
pub proof fn law_integer_is_signed(i: int)
    ensures
        i >= 0 ==> text::integer(i) == text::decimal(i as nat),
        i < 0 ==> text::integer(i) == seq!['-'] + text::decimal((-i) as nat),
        text::integer(i)[0] == '-' <==> i < 0,
{
    law_decimal_reads_back(
        if i < 0 {
            (-i) as nat
        } else {
            i as nat
        },
    );
    if i >= 0 {
        assert(number::is_digit(text::decimal(i as nat)[0]));
    }
}

/// What stands before and after the last `c` of a text is the text without that `c`, and no `c`
/// stands behind it; a text without `c` stands before it whole.
pub proof fn law_a_text_is_split_at_its_last(s: Seq<char>, c: char)
    ensures
        s.contains(c) ==> s == text::before_last(s, c).push(c) + text::after_last(s, c),
        s.contains(c) ==> !text::after_last(s, c).contains(c),
        !s.contains(c) ==> text::before_last(s, c) == s && text::after_last(s, c).len() == 0,
        text::last_place(s, c) is Some <==> s.contains(c),
        text::last_place(s, c) matches Some(i) ==> 0 <= i < s.len() && s[i] == c && forall|k: int|
            i < k < s.len() ==> #[trigger] s[k] != c,
{
    lemma_last_place(s, c);
    if s.contains(c) {
        let i = text::last_place(s, c)->Some_0;
        assert(s =~= s.take(i).push(c) + s.skip(i + 1));
        let tail = s.skip(i + 1);
        if tail.contains(c) {
            let k = choose|k: int| 0 <= k < tail.len() && tail[k] == c;
            assert(s[i + 1 + k] == c);
        }
    }
}

proof fn lemma_last_place(s: Seq<char>, c: char)
    ensures
        text::last_place(s, c) is Some <==> s.contains(c),
        text::last_place(s, c) matches Some(i) ==> 0 <= i < s.len() && s[i] == c && forall|k: int|
            i < k < s.len() ==> #[trigger] s[k] != c,
    decreases s.len(),
{
    if s.len() > 0 {
        let fewer = s.drop_last();
        lemma_last_place(fewer, c);
        assert(s[s.len() - 1] == s.last());
        if s.last() != c {
            if fewer.contains(c) {
                let k = choose|k: int| 0 <= k < fewer.len() && fewer[k] == c;
                assert(s[k] == c);
            }
            if s.contains(c) {
                let k = choose|k: int| 0 <= k < s.len() && s[k] == c;
                assert(fewer[k] == c);
            }
            if let Some(i) = text::last_place(fewer, c) {
                assert forall|k: int| i < k < s.len() implies #[trigger] s[k] != c by {
                    if k < fewer.len() {
                        assert(fewer[k] != c);
                    }
                }
            }
        }
    }
}

/// `s` stands at place `i` of the list, and at no place before it.
pub open spec fn first_at(v: Seq<Seq<char>>, s: Seq<char>, i: int) -> bool {
    &&& 0 <= i < v.len()
    &&& v[i] == s
    &&& forall|k: int| 0 <= k < i ==> #[trigger] v[k] != s
}

/// A text's place in a list is its first.
pub proof fn law_place_is_the_first(v: Seq<Seq<char>>, s: Seq<char>)
    ensures
        text::place_in(v, s) matches Some(i) ==> first_at(v, s, i),
        text::place_in(v, s) is Some <==> v.contains(s),
    decreases v.len(),
{
    if v.len() > 0 {
        let rest = v.skip(1);
        law_place_is_the_first(rest, s);
        if v[0] != s {
            assert forall|k: int| 0 < k < v.len() implies #[trigger] v[k] == rest[k - 1] by {}
            if rest.contains(s) {
                let j = choose|j: int| 0 <= j < rest.len() && rest[j] == s;
                assert(v[j + 1] == s);
            }
            if v.contains(s) {
                let j = choose|j: int| 0 <= j < v.len() && v[j] == s;
                assert(rest[j - 1] == s);
            }
        }
    }
}

/// The last place of a text in another, below a bound, is a place where it stands, and behind it
/// there is none.
pub proof fn law_last_occurrence_is_the_last(s: Seq<char>, p: Seq<char>, bound: int)
    ensures
        text::last_occurrence(s, p, bound) matches Some(i) ==> {
            &&& 0 <= i < bound
            &&& text::occurs_at(s, p, i)
            &&& forall|k: int| i < k < bound ==> !#[trigger] text::occurs_at(s, p, k)
        },
        text::last_occurrence(s, p, bound) is None ==> forall|k: int|
            0 <= k < bound ==> !#[trigger] text::occurs_at(s, p, k),
    decreases bound,
{
    if bound > 0 && !text::occurs_at(s, p, bound - 1) {
        law_last_occurrence_is_the_last(s, p, bound - 1);
    }
}

/// No character of the text parts words.
pub open spec fn solid(s: Seq<char>) -> bool {
    forall|i: int| 0 <= i < s.len() ==> !text::is_white(#[trigger] s[i])
}

proof fn lemma_words_shift(a: Seq<char>, b: Seq<char>, start: int, i: int)
    requires
        0 <= start <= i <= b.len(),
    ensures
        text::words_from(a + b, a.len() + start, a.len() + i) == text::words_from(b, start, i),
    decreases b.len() - i,
{
    let s = a + b;
    let n = a.len() as int;
    if i >= b.len() {
        if start < b.len() {
            assert(s.subrange(n + start, s.len() as int) =~= b.subrange(start, b.len() as int));
        }
    } else {
        assert(s[n + i] == b[i]);
        if text::is_white(b[i]) {
            if start < i {
                assert(s.subrange(n + start, n + i) =~= b.subrange(start, i));
            }
            lemma_words_shift(a, b, i + 1, i + 1);
        } else {
            lemma_words_shift(a, b, start, i + 1);
        }
    }
}

proof fn lemma_words_part(a: Seq<char>, c: char, b: Seq<char>, start: int, i: int)
    requires
        text::is_white(c),
        0 <= start <= i <= a.len(),
    ensures
        text::words_from(a.push(c) + b, start, i) == text::words_from(a, start, i) + text::words(b),
    decreases a.len() - i,
{
    let s = a.push(c) + b;
    let n = a.len() as int;
    if i == n {
        assert(s[n] == c);
        lemma_words_shift(a.push(c), b, 0, 0);
        if start < n {
            assert(s.subrange(start, n) =~= a.subrange(start, n));
        } else {
            assert(Seq::<Seq<char>>::empty() + text::words(b) =~= text::words(b));
        }
    } else {
        assert(s[i] == a[i]);
        if text::is_white(a[i]) {
            lemma_words_part(a, c, b, i + 1, i + 1);
            if start < i {
                assert(s.subrange(start, i) =~= a.subrange(start, i));
                assert(seq![a.subrange(start, i)] + (text::words_from(a, i + 1, i + 1)
                    + text::words(b)) =~= seq![a.subrange(start, i)] + text::words_from(
                    a,
                    i + 1,
                    i + 1,
                ) + text::words(b));
            }
        } else {
            lemma_words_part(a, c, b, start, i + 1);
        }
    }
}

proof fn lemma_one_word(s: Seq<char>, i: int)
    requires
        solid(s),
        s.len() > 0,
        0 <= i <= s.len(),
    ensures
        text::words_from(s, 0, i) == seq![s],
    decreases s.len() - i,
{
    if i < s.len() {
        lemma_one_word(s, i + 1);
    } else {
        assert(s.subrange(0, s.len() as int) =~= s);
    }
}

/// A character that parts words parts them anywhere: the words of what stands before it and then
/// those of what stands behind it. A text without such a character is one word, and an empty text
/// none.
pub proof fn law_words_are_parted(a: Seq<char>, c: char, b: Seq<char>)
    ensures
        text::is_white(c) ==> text::words(a.push(c) + b) == text::words(a) + text::words(b),
        solid(a) && a.len() > 0 ==> text::words(a) == seq![a],
        a.len() == 0 ==> text::words(a).len() == 0,
{
    if text::is_white(c) {
        lemma_words_part(a, c, b, 0, 0);
    }
    if solid(a) && a.len() > 0 {
        lemma_one_word(a, 0);
    }
}

/// A text in which a token does not stand stays as it is when the token is replaced.
pub proof fn law_nothing_is_replaced_without_a_token(s: Seq<char>, token: Seq<char>, to: Seq<char>)
    requires
        forall|i: int| !#[trigger] text::occurs_at(s, token, i),
    ensures
        text::replaced(s, token, to) == s,
    decreases s.len(),
{
    if s.len() > 0 {
        let rest = s.skip(1);
        assert(!text::occurs_at(s, token, 0));
        assert forall|i: int| !#[trigger] text::occurs_at(rest, token, i) by {
            assert(!text::occurs_at(s, token, i + 1));
            if text::occurs_at(rest, token, i) {
                assert(s.subrange(i + 1, i + 1 + token.len()) =~= rest.subrange(
                    i,
                    i + token.len(),
                ));
            }
        }
        law_nothing_is_replaced_without_a_token(rest, token, to);
        assert(seq![s[0]] + rest =~= s);
    } else {
        assert(s =~= Seq::empty());
    }
}

/// The arguments of a step that are texts are its words, in order; what is no text is left out.
pub proof fn law_words_of_a_step(a: Seq<Option<Seq<char>>>, b: Seq<Option<Seq<char>>>, w: Seq<char>)
    ensures
        job::texts_of(a + b) == job::texts_of(a) + job::texts_of(b),
        job::texts_of(seq![Some(w)]) == seq![w],
        job::texts_of(seq![None]).len() == 0,
    decreases b.len(),
{
    let (one, none) = (seq![Some(w)], seq![None::<Seq<char>>]);
    assert(one.drop_last() =~= Seq::empty());
    assert(none.drop_last() =~= Seq::empty());
    assert(job::texts_of(one.drop_last()) =~= Seq::empty());
    assert(job::texts_of(one) =~= seq![w]);
    assert(job::texts_of(none) =~= Seq::empty());
    if b.len() == 0 {
        assert(a + b =~= a);
        assert(job::texts_of(a) + job::texts_of(b) =~= job::texts_of(a));
    } else {
        law_words_of_a_step(a, b.drop_last(), w);
        assert((a + b).drop_last() =~= a + b.drop_last());
        assert((a + b).last() == b.last());
        assert(job::texts_of(a + b) =~= job::texts_of(a) + job::texts_of(b));
    }
}

/// Ten to the `k`.
pub open spec fn ten_to(k: nat) -> nat
    decreases k,
{
    if k == 0 {
        1
    } else {
        10 * ten_to((k - 1) as nat)
    }
}

/// A number below ten to the `k` has `k` digits at most.
pub proof fn law_decimal_is_short(n: nat, k: nat)
    requires
        k >= 1,
        n < ten_to(k),
    ensures
        text::decimal(n).len() <= k,
    decreases k,
{
    if n >= 10 {
        assert(k > 1) by {
            reveal_with_fuel(ten_to, 2);
        }
        law_decimal_is_short(n / 10, (k - 1) as nat);
    }
}

/// Scientific notation: the sign, the first digit, the point and the others, `e` and the power.
pub open spec fn in_sci(negative: bool, digits: Seq<u8>, exponent: int) -> Seq<char> {
    let head = if negative {
        seq!['-', text::digit(digits[0] as int)]
    } else {
        seq![text::digit(digits[0] as int)]
    };
    let rest = if digits.len() > 1 {
        seq!['.'] + Seq::new((digits.len() - 1) as nat, |i: int| text::digit(digits[i + 1] as int))
    } else {
        Seq::empty()
    };
    head + rest + seq!['e'] + text::integer(exponent)
}

/// A value that is written in scientific notation with so many digits, whatever they are and whatever
/// its power of ten, is read back as it was.
pub proof fn law_scientific_notation_reads_back(negative: bool, digits: Seq<u8>, exponent: int)
    requires
        digits.len() >= 1,
        digits[0] != 0,
        forall|i: int| 0 <= i < digits.len() ==> #[trigger] digits[i] <= 9,
        -1_000_000_000 < exponent < 1_000_000_000,
    ensures
        ({
            let s = in_sci(negative, digits, exponent);
            let p = digits.len() as int;
            &&& number::is_sci(s, p)
            &&& number::sci_value(s, p) == (number::DecimalView::Finite { negative, digits, exponent })
        }),
{
    let s = in_sci(negative, digits, exponent);
    let p = digits.len() as int;
    let start: int = if negative { 1 } else { 0 };
    let power = text::integer(exponent);
    let n: nat = if exponent < 0 { (-exponent) as nat } else { exponent as nat };
    law_decimal_reads_back(n);
    law_integer_is_signed(exponent);
    assert(n < ten_to(9)) by {
        reveal_with_fuel(ten_to, 10);
    }
    law_decimal_is_short(n, 9);
    assert forall|i: int| 0 <= i < p implies #[trigger] digits[i] as int + 48 == text::digit(
        digits[i] as int,
    ) as int by {}
    assert(digits[0] <= 9);
    assert(s[start] == text::digit(digits[0] as int));
    assert(number::sci_start(s) == start);
    assert forall|i: int| 0 <= i < p implies s[#[trigger] number::sci_place(s, i)] == text::digit(
        digits[i] as int,
    ) by {
        if i > 0 {
            assert(number::sci_place(s, i) == start + i + 1);
        }
    }
    assert forall|i: int| 0 <= i < p implies number::is_digit(
        s[#[trigger] number::sci_place(s, i)],
    ) by {
        assert(digits[i] <= 9);
    }
    let last = number::sci_place(s, p - 1);
    assert(s[last + 1] == 'e');
    assert(s.skip(last + 2) =~= power);
    assert(number::sci_tail(s, p) == power);
    if exponent < 0 {
        assert(power.skip(1) =~= text::decimal(n));
    }
    assert(number::sci_power(s, p) == text::decimal(n));
    let got = Seq::new(p as nat, |i: int| (s[number::sci_place(s, i)] as u8 - 48) as u8);
    assert forall|i: int| 0 <= i < p implies got[i] == digits[i] by {
        assert(s[number::sci_place(s, i)] == text::digit(digits[i] as int));
        assert(digits[i] <= 9);
    }
    assert(got =~= digits);
}

/// A small letter of ASCII has its capital, 32 below it; every other character stays.
pub proof fn law_capitals(s: Seq<char>, i: int)
    requires
        0 <= i < s.len(),
    ensures
        text::capitals(s).len() == s.len(),
        'a' <= s[i] <= 'z' ==> text::capitals(s)[i] as int == s[i] as int - 32,
        !('a' <= s[i] <= 'z') ==> text::capitals(s)[i] == s[i],
{
}

/// A power of ten is written as its sign and then its magnitude in two digits or more, with a 0 before
/// one digit alone.
pub proof fn law_powers_of_ten(x: int)
    ensures
        ({
            let s = number::exponent_text(x);
            let n: nat = if x < 0 { (-x) as nat } else { x as nat };
            &&& s.len() >= 3
            &&& s[0] == if x < 0 { '-' } else { '+' }
            &&& number::number_of(s.skip(1)) == n
            &&& n < 10 ==> s.len() == 3
            &&& n >= 10 ==> s[1] != '0'
        }),
{
    let s = number::exponent_text(x);
    let n: nat = if x < 0 { (-x) as nat } else { x as nat };
    law_decimal_reads_back(n);
    if n < 10 {
        let d = s.skip(1);
        assert(d =~= seq!['0', text::digit(n as int)]);
        assert(d.drop_last() =~= seq!['0']);
        assert(seq!['0'].drop_last() =~= Seq::empty());
        reveal_with_fuel(number::number_of, 3);
    } else {
        assert(s.skip(1) =~= text::decimal(n));
        law_decimal_reads_back(n / 10);
        assert(s[1] == text::decimal(n)[0]);
    }
}

} // verus!
