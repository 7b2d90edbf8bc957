//! Text as a sequence of characters: comparison, decimal numbers, searching and splitting.

use vstd::prelude::*;
use vstd::string::*;

verus! {

/// `String::push` puts the character at the end and leaves what stood before it.
pub assume_specification[ String::push ](s: &mut String, c: char)
    ensures
        final(s)@ == old(s)@.push(c),
;

/// The characters of `s`, in order.
pub fn chars_of(s: &str) -> (r: Vec<char>)
    ensures
        r@ == s@,
{
    let mut out: Vec<char> = Vec::new();
    for c in it: s.chars()
        invariant
            it.seq() == s@,
            out@ == s@.take(it.index() as int),
    {
        out.push(c);
        assert(s@.take(it.index() as int + 1) =~= s@.take(it.index() as int).push(c));
    }
    assert(s@.take(s@.len() as int) =~= s@);
    out
}

/// Whether two texts are the same.
pub fn same(a: &str, b: &str) -> (r: bool)
    ensures
        r == (a@ == b@),
{
    let (x, y) = (a.as_bytes(), b.as_bytes());
    proof {
        vstd::utf8::encode_utf8_decode_utf8(a@);
        vstd::utf8::encode_utf8_decode_utf8(b@);
    }
    if x.len() != y.len() {
        return false;
    }
    let n: usize = x.len();
    let mut i: usize = 0;
    while i < n
        invariant
            n == x@.len(),
            n == y@.len(),
            i <= n,
            x@ == a.spec_bytes(),
            y@ == b.spec_bytes(),
            forall|k: int| 0 <= k < i ==> x@[k] == y@[k],
        decreases n - i,
    {
        if x[i] != y[i] {
            assert(x@[i as int] != y@[i as int]);
            return false;
        }
        i = i + 1;
    }
    assert(x@ =~= y@);
    true
}

/// The character of a decimal digit.
pub open spec fn digit(d: int) -> char {
    ((48 + d) as u8) as char
}

/// A natural number in decimal, without leading zeros.
pub open spec fn decimal(n: nat) -> Seq<char>
    decreases n,
{
    if n < 10 {
        seq![digit(n as int)]
    } else {
        decimal(n / 10).push(digit((n % 10) as int))
    }
}

/// An integer in decimal: a minus sign where it is negative, then its magnitude.
pub open spec fn integer(i: int) -> Seq<char> {
    if i < 0 {
        seq!['-'] + decimal((-i) as nat)
    } else {
        decimal(i as nat)
    }
}

/// Puts `n` in decimal at the end of `s`.
pub fn push_nat(s: &mut String, n: u128)
    ensures
        final(s)@ == old(s)@ + decimal(n as nat),
    decreases n,
{
    let ghost before = s@;
    if n >= 10 {
        push_nat(s, n / 10);
        let c: u8 = (n % 10) as u8;
        s.push((48 + c) as char);
        assert(s@ =~= before + decimal(n as nat));
    } else {
        let c: u8 = n as u8;
        s.push((48 + c) as char);
        assert(s@ =~= before + decimal(n as nat));
    }
}

/// Puts `i` in decimal at the end of `s`.
pub fn push_int(s: &mut String, i: i128)
    ensures
        final(s)@ == old(s)@ + integer(i as int),
{
    let ghost before = s@;
    if i < 0 {
        s.push('-');
        let magnitude: u128 = (-(i + 1)) as u128 + 1;
        push_nat(s, magnitude);
        assert(s@ =~= before + integer(i as int));
    } else {
        push_nat(s, i as u128);
    }
}

/// `i` in decimal.
pub fn int_text(i: i128) -> (r: String)
    ensures
        r@ == integer(i as int),
{
    let mut s = String::new();
    push_int(&mut s, i);
    assert(s@ =~= integer(i as int));
    s
}

/// The characters `from..to` of `cs` as a text.
pub fn slice_text(cs: &Vec<char>, from: usize, to: usize) -> (r: String)
    requires
        from <= to <= cs@.len(),
    ensures
        r@ == cs@.subrange(from as int, to as int),
{
    let mut s = String::new();
    let mut i: usize = from;
    while i < to
        invariant
            from <= i <= to <= cs@.len(),
            s@ == cs@.subrange(from as int, i as int),
        decreases to - i,
    {
        s.push(cs[i]);
        i = i + 1;
        assert(s@ =~= cs@.subrange(from as int, i as int));
    }
    s
}

/// The place of the last `c` in `s`.
pub open spec fn last_place(s: Seq<char>, c: char) -> Option<int>
    decreases s.len(),
{
    if s.len() == 0 {
        None
    } else if s.last() == c {
        Some(s.len() - 1)
    } else {
        last_place(s.drop_last(), c)
    }
}

/// The place of the last `c` in `cs`.
pub fn find_last(cs: &Vec<char>, c: char) -> (r: Option<usize>)
    ensures
        r is Some == last_place(cs@, c) is Some,
        r matches Some(i) ==> last_place(cs@, c) == Some(i as int) && i < cs@.len() && cs@[i as int] == c,
{
    let mut n: usize = cs.len();
    assert(cs@.take(n as int) =~= cs@);
    while n > 0
        invariant
            n <= cs@.len(),
            last_place(cs@, c) == last_place(cs@.take(n as int), c),
        decreases n,
    {
        if cs[n - 1] == c {
            return Some(n - 1);
        }
        assert(cs@.take(n as int).drop_last() =~= cs@.take(n - 1));
        n = n - 1;
    }
    None
}

/// What stands before the last `c` of `s`; all of `s` where there is none.
pub open spec fn before_last(s: Seq<char>, c: char) -> Seq<char> {
    match last_place(s, c) {
        Some(i) => s.take(i),
        None => s,
    }
}

/// What stands after the last `c` of `s`; nothing where there is none.
pub open spec fn after_last(s: Seq<char>, c: char) -> Seq<char> {
    match last_place(s, c) {
        Some(i) => s.skip(i + 1),
        None => Seq::empty(),
    }
}

/// `s` parted at its last `c`, which neither part holds.
pub fn split_last(s: &str, c: char) -> (r: (String, String))
    ensures
        r.0@ == before_last(s@, c),
        r.1@ == after_last(s@, c),
{
    let cs = chars_of(s);
    let n: usize = cs.len();
    match find_last(&cs, c) {
        Some(i) => {
            assert(s@.subrange(0, i as int) =~= s@.take(i as int));
            assert(s@.subrange(i + 1, s@.len() as int) =~= s@.skip(i + 1));
            (slice_text(&cs, 0, i), slice_text(&cs, i + 1, n))
        },
        None => (s.to_owned(), String::new()),
    }
}

/// `p` stands in `s` at place `i`.
pub open spec fn occurs_at(s: Seq<char>, p: Seq<char>, i: int) -> bool {
    0 <= i && i + p.len() <= s.len() && s.subrange(i, i + p.len()) == p
}

/// `p` stands somewhere in `s`.
pub open spec fn occurs(s: Seq<char>, p: Seq<char>) -> bool {
    exists|i: int| occurs_at(s, p, i)
}

/// Whether `p` stands in `s` at place `i`.
pub fn stands_at(s: &Vec<char>, p: &Vec<char>, i: usize) -> (r: bool)
    ensures
        r == occurs_at(s@, p@, i as int),
{
    if i > s.len() || p.len() > s.len() - i {
        return false;
    }
    let (n, m): (usize, usize) = (p.len(), s.len());
    let mut k: usize = 0;
    while k < n
        invariant
            n == p@.len(),
            m == s@.len(),
            k <= n,
            i + n <= m,
            forall|j: int| 0 <= j < k ==> s@[i + j] == p@[j],
        decreases n - k,
    {
        if s[i + k] != p[k] {
            assert(s@.subrange(i as int, i + n)[k as int] != p@[k as int]);
            return false;
        }
        k = k + 1;
    }
    assert(s@.subrange(i as int, i + n) =~= p@);
    true
}

/// Whether `p` stands somewhere in `s`.
pub fn contains_text(s: &str, p: &str) -> (r: bool)
    ensures
        r == occurs(s@, p@),
{
    let (sc, pc) = (chars_of(s), chars_of(p));
    let n: usize = sc.len();
    let mut i: usize = 0;
    while i <= n
        invariant
            n == s@.len(),
            i <= n + 1,
            sc@ == s@,
            pc@ == p@,
            forall|k: int| 0 <= k < i ==> !occurs_at(s@, p@, k),
        decreases n + 1 - i,
    {
        if stands_at(&sc, &pc, i) {
            return true;
        }
        if i == n {
            return false;
        }
        i = i + 1;
    }
    false
}

/// `s` begins with `p`.
pub open spec fn begins(s: Seq<char>, p: Seq<char>) -> bool {
    occurs_at(s, p, 0)
}

/// Whether `s` begins with `p`.
pub fn begins_with(s: &str, p: &str) -> (r: bool)
    ensures
        r == begins(s@, p@),
{
    stands_at(&chars_of(s), &chars_of(p), 0)
}

/// `s` ends with `p`.
pub open spec fn ends(s: Seq<char>, p: Seq<char>) -> bool {
    occurs_at(s, p, s.len() - p.len())
}

/// Whether `s` ends with `p`.
pub fn ends_with(s: &str, p: &str) -> (r: bool)
    ensures
        r == ends(s@, p@),
{
    let (sc, pc) = (chars_of(s), chars_of(p));
    if pc.len() > sc.len() {
        false
    } else {
        stands_at(&sc, &pc, sc.len() - pc.len())
    }
}

/// The last place where `p` stands in `s`, among the places below `bound`.
pub open spec fn last_occurrence(s: Seq<char>, p: Seq<char>, bound: int) -> Option<int>
    decreases bound,
{
    if bound <= 0 {
        None
    } else if occurs_at(s, p, bound - 1) {
        Some(bound - 1)
    } else {
        last_occurrence(s, p, bound - 1)
    }
}

/// The last place where `p` stands in `s`.
pub fn find_last_text(s: &Vec<char>, p: &Vec<char>) -> (r: Option<usize>)
    ensures
        r is Some == last_occurrence(s@, p@, s@.len() as int) is Some,
        r matches Some(i) ==> last_occurrence(s@, p@, s@.len() as int) == Some(i as int) && i < s@.len(),
{
    let mut n: usize = s.len();
    while n > 0
        invariant
            n <= s@.len(),
            last_occurrence(s@, p@, s@.len() as int) == last_occurrence(s@, p@, n as int),
        decreases n,
    {
        if stands_at(s, p, n - 1) {
            return Some(n - 1);
        }
        n = n - 1;
    }
    None
}

/// `s` with every `from` in it, taken from the left without overlap, made into `to`.
pub open spec fn replaced(s: Seq<char>, from: Seq<char>, to: Seq<char>) -> Seq<char>
    decreases s.len(),
{
    if s.len() == 0 {
        Seq::empty()
    } else if from.len() > 0 && occurs_at(s, from, 0) {
        to + replaced(s.skip(from.len() as int), from, to)
    } else {
        seq![s[0]] + replaced(s.skip(1), from, to)
    }
}

/// `s` with every `from` in it, taken from the left without overlap, made into `to`.
pub fn replace(s: &str, from: &str, to: &str) -> (r: String)
    requires
        from@.len() > 0,
    ensures
        r@ == replaced(s@, from@, to@),
{
    let (sc, fc) = (chars_of(s), chars_of(from));
    let (n, m): (usize, usize) = (sc.len(), fc.len());
    let mut out = String::new();
    let mut i: usize = 0;
    assert(s@.skip(0) =~= s@);
    assert(out@ + replaced(s@, from@, to@) =~= replaced(s@, from@, to@));
    while i < n
        invariant
            sc@ == s@,
            fc@ == from@,
            n == s@.len(),
            m == from@.len(),
            m > 0,
            i <= n,
            out@ + replaced(s@.skip(i as int), from@, to@) == replaced(s@, from@, to@),
        decreases n - i,
    {
        let ghost before = out@;
        let ghost rest = s@.skip(i as int);
        if stands_at(&sc, &fc, i) {
            assert(rest.subrange(0, m as int) =~= s@.subrange(i as int, i + m));
            assert(occurs_at(rest, from@, 0));
            out.append(to);
            assert(rest.skip(m as int) =~= s@.skip(i + m));
            assert(out@ + replaced(s@.skip(i + m), from@, to@) =~= before + replaced(rest, from@, to@));
            i = i + m;
        } else {
            assert(!occurs_at(rest, from@, 0)) by {
                if i + m <= n {
                    assert(s@.subrange(i as int, i + m) =~= rest.subrange(0, m as int));
                }
            }
            out.push(sc[i]);
            assert(rest.skip(1) =~= s@.skip(i + 1));
            assert(out@ + replaced(s@.skip(i + 1), from@, to@) =~= before + replaced(rest, from@, to@));
            i = i + 1;
        }
    }
    assert(out@ =~= replaced(s@, from@, to@));
    out
}

/// A character that parts words: Unicode's `White_Space` property.
pub open spec fn is_white(c: char) -> bool {
    let u = c as u32;
    ||| 0x9 <= u <= 0xd
    ||| u == 0x20
    ||| u == 0x85
    ||| u == 0xa0
    ||| u == 0x1680
    ||| 0x2000 <= u <= 0x200a
    ||| u == 0x2028
    ||| u == 0x2029
    ||| u == 0x202f
    ||| u == 0x205f
    ||| u == 0x3000
}

/// Whether `c` parts words.
pub fn white(c: char) -> (r: bool)
    ensures
        r == is_white(c),
{
    let u: u32 = c as u32;
    (0x9 <= u && u <= 0xd) || u == 0x20 || u == 0x85 || u == 0xa0 || u == 0x1680 || (0x2000 <= u && u <= 0x200a)
        || u == 0x2028 || u == 0x2029 || u == 0x202f || u == 0x205f || u == 0x3000
}

/// An outcome with its message taken as a text.
pub open spec fn outcome<T>(r: Result<T, String>) -> Result<T, Seq<char>> {
    match r {
        Ok(v) => Ok(v),
        Err(e) => Err(e@),
    }
}

/// The words of `s` from place `i` on, where the word being read began at `start`.
pub open spec fn words_from(s: Seq<char>, start: int, i: int) -> Seq<Seq<char>>
    decreases s.len() - i,
{
    if i >= s.len() {
        if start < s.len() {
            seq![s.subrange(start, s.len() as int)]
        } else {
            Seq::empty()
        }
    } else if is_white(s[i]) {
        if start < i {
            seq![s.subrange(start, i)] + words_from(s, i + 1, i + 1)
        } else {
            words_from(s, i + 1, i + 1)
        }
    } else {
        words_from(s, start, i + 1)
    }
}

/// The words of `s`: its longest stretches without a character that parts words, in order.
pub open spec fn words(s: Seq<char>) -> Seq<Seq<char>> {
    words_from(s, 0, 0)
}

/// What a list of texts holds.
pub open spec fn views(v: Seq<String>) -> Seq<Seq<char>> {
    Seq::new(v.len(), |i: int| v[i]@)
}

/// The words of `s`.
pub fn split_words(s: &str) -> (r: Vec<String>)
    ensures
        views(r@) == words(s@),
{
    let cs = chars_of(s);
    let n: usize = cs.len();
    let mut out: Vec<String> = Vec::new();
    let (mut start, mut i): (usize, usize) = (0, 0);
    assert(views(out@) + words(s@) =~= words(s@));
    while i < n
        invariant
            cs@ == s@,
            n == s@.len(),
            start <= i <= n,
            views(out@) + words_from(s@, start as int, i as int) == words(s@),
        decreases n - i,
    {
        let ghost before = views(out@);
        if white(cs[i]) {
            if start < i {
                out.push(slice_text(&cs, start, i));
                assert(views(out@) =~= before.push(s@.subrange(start as int, i as int)));
                assert(views(out@) + words_from(s@, i + 1, i + 1)
                    =~= before + words_from(s@, start as int, i as int));
            }
            start = i + 1;
        }
        i = i + 1;
    }
    if start < n {
        let ghost before = views(out@);
        out.push(slice_text(&cs, start, n));
        assert(views(out@) =~= before.push(s@.subrange(start as int, n as int)));
    }
    assert(views(out@) =~= words(s@));
    out
}

/// A character with a small ASCII letter made into its capital.
pub open spec fn capital(c: char) -> char {
    if 'a' <= c <= 'z' {
        ((c as u8 - 32) as u8) as char
    } else {
        c
    }
}

/// `s` with its small ASCII letters made into capitals.
pub open spec fn capitals(s: Seq<char>) -> Seq<char> {
    Seq::new(s.len(), |i: int| capital(s[i]))
}

/// `s` with its small ASCII letters made into capitals.
pub fn to_capitals(s: &str) -> (r: String)
    ensures
        r@ == capitals(s@),
{
    let cs = chars_of(s);
    let n: usize = cs.len();
    let mut out = String::new();
    let mut i: usize = 0;
    while i < n
        invariant
            cs@ == s@,
            n == s@.len(),
            i <= n,
            out@ == capitals(s@).take(i as int),
        decreases n - i,
    {
        let c = cs[i];
        if 'a' <= c && c <= 'z' {
            out.push((c as u8 - 32) as char);
        } else {
            out.push(c);
        }
        i = i + 1;
        assert(out@ =~= capitals(s@).take(i as int));
    }
    assert(out@ =~= capitals(s@));
    out
}

/// Whether `v` holds the text `s`.
pub fn holds(v: &Vec<String>, s: &str) -> (r: bool)
    ensures
        r == views(v@).contains(s@),
{
    let n: usize = v.len();
    let mut i: usize = 0;
    while i < n
        invariant
            n == v@.len(),
            i <= n,
            forall|k: int| 0 <= k < i ==> v@[k]@ != s@,
        decreases n - i,
    {
        if same(v[i].as_str(), s) {
            assert(views(v@)[i as int] == s@);
            return true;
        }
        i = i + 1;
    }
    false
}

/// The first place of `s` in `v`.
pub open spec fn place_in(v: Seq<Seq<char>>, s: Seq<char>) -> Option<int>
    decreases v.len(),
{
    if v.len() == 0 {
        None
    } else if v[0] == s {
        Some(0)
    } else {
        match place_in(v.skip(1), s) {
            Some(i) => Some(i + 1),
            None => None,
        }
    }
}

/// The first place of `s` in `v`.
pub fn find_in(v: &Vec<String>, s: &str) -> (r: Option<usize>)
    ensures
        r is Some == place_in(views(v@), s@) is Some,
        r matches Some(i) ==> place_in(views(v@), s@) == Some(i as int) && i < v@.len(),
{
    let n: usize = v.len();
    let mut i: usize = 0;
    assert(views(v@).skip(0) =~= views(v@));
    while i < n
        invariant
            n == v@.len(),
            i <= n,
            place_in(views(v@), s@) == match place_in(views(v@).skip(i as int), s@) {
                Some(k) => Some(k + i),
                None => None,
            },
        decreases n - i,
    {
        assert(views(v@).skip(i as int).skip(1) =~= views(v@).skip(i + 1));
        if same(v[i].as_str(), s) {
            return Some(i);
        }
        i = i + 1;
    }
    None
}

/// `middle` between `before` and `behind`.
pub fn framed(before: &str, middle: &str, behind: &str) -> (r: String)
    ensures
        r@ == before@ + middle@ + behind@,
{
    let mut s = before.to_owned();
    s.append(middle);
    s.append(behind);
    s
}

/// A copy of a list of texts.
pub fn copy_texts(v: &Vec<String>) -> (r: Vec<String>)
    ensures
        r@ == v@,
{
    let n: usize = v.len();
    let mut out: Vec<String> = Vec::new();
    let mut i: usize = 0;
    while i < n
        invariant
            n == v@.len(),
            i <= n,
            out@ == v@.take(i as int),
        decreases n - i,
    {
        out.push(v[i].clone());
        i = i + 1;
        assert(out@ =~= v@.take(i as int));
    }
    assert(out@ =~= v@);
    out
}

} // verus!
