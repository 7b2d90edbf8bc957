//! A command's arguments: `-key value` pairs and `-flag`s.

use vstd::prelude::*;
use vstd::string::*;

use crate::text;
use crate::text::same;

verus! {

/// The keys that a command was given, each with the place of its value among the arguments, and
/// the flags.
pub struct KeyArgsView {
    pub keys: Map<Seq<char>, int>,
    pub flags: Seq<Seq<char>>,
}

/// The keys and flags that a command was given.
#[derive(Debug, PartialEq, Eq)]
pub struct KeyArgs {
    names: Vec<String>,
    places: Vec<usize>,
    flags: Vec<String>,
}

/// The place of each name's last value.
spec fn last_places(names: Seq<String>, places: Seq<usize>) -> Map<Seq<char>, int>
    decreases names.len(),
{
    if names.len() == 0 {
        Map::empty()
    } else {
        last_places(names.drop_last(), places.drop_last()).insert(names.last()@, places.last() as int)
    }
}

impl View for KeyArgs {
    type V = KeyArgsView;

    closed spec fn view(&self) -> KeyArgsView {
        KeyArgsView { keys: last_places(self.names@, self.places@), flags: text::views(self.flags@) }
    }
}

/// What a list of texts holds.
pub open spec fn str_views(v: Seq<&str>) -> Seq<Seq<char>> {
    Seq::new(v.len(), |i: int| v[i]@)
}

/// What the arguments from `i` on add to what was `got`: a key takes the argument behind it, and
/// its last value counts; the first argument that is neither key nor flag is an error, and so is
/// a key with nothing behind it.
pub open spec fn key_args_from(
    args: Seq<Seq<char>>,
    i: int,
    keys: Seq<Seq<char>>,
    flags: Seq<Seq<char>>,
    got: KeyArgsView,
) -> Result<KeyArgsView, Seq<char>>
    decreases args.len() - i,
{
    if i >= args.len() {
        Ok(got)
    } else if keys.contains(args[i]) {
        if i + 1 < args.len() {
            key_args_from(
                args,
                i + 2,
                keys,
                flags,
                KeyArgsView { keys: got.keys.insert(args[i], i + 1), flags: got.flags },
            )
        } else {
            Err(args[i] + " requires a value"@)
        }
    } else if flags.contains(args[i]) {
        key_args_from(args, i + 1, keys, flags, KeyArgsView { keys: got.keys, flags: got.flags.push(args[i]) })
    } else {
        Err("unexpected argument "@ + args[i])
    }
}

/// The keys and flags in `args`, or what is wrong with them.
pub open spec fn key_args(
    args: Seq<Seq<char>>,
    keys: Seq<Seq<char>>,
    flags: Seq<Seq<char>>,
) -> Result<KeyArgsView, Seq<char>> {
    key_args_from(args, 0, keys, flags, KeyArgsView { keys: Map::empty(), flags: Seq::empty() })
}

/// Whether `v` holds the text `s`.
fn listed(v: &[&str], s: &str) -> (r: bool)
    ensures
        r == str_views(v@).contains(s@),
{
    let n: usize = v.len();
    let mut i: usize = 0;
    while i < n
        invariant
            n == v@.len(),
            i <= n,
            forall|k: int| 0 <= k < i ==> v@[k]@ != s@,
        decreases n - i,
    {
        if same(v[i], s) {
            assert(str_views(v@)[i as int] == s@);
            return true;
        }
        i = i + 1;
    }
    false
}

impl KeyArgs {
    /// Every value's place is one of the first `n`.
    pub open spec fn within(self, n: int) -> bool {
        forall|k: Seq<char>| #[trigger] self@.keys.contains_key(k) ==> 0 <= self@.keys[k] < n
    }

    #[verifier::type_invariant]
    spec fn one_place_each(self) -> bool {
        self.names@.len() == self.places@.len()
    }

    /// The place of the value of `key`.
    pub fn get(&self, key: &str) -> (r: Option<usize>)
        ensures
            r is Some == self@.keys.contains_key(key@),
            r matches Some(p) ==> p == self@.keys[key@],
    {
        proof {
            use_type_invariant(self);
        }
        let mut n: usize = self.names.len();
        assert(self.names@.take(n as int) =~= self.names@);
        assert(self.places@.take(n as int) =~= self.places@);
        while n > 0
            invariant
                n <= self.names@.len(),
                self.names@.len() == self.places@.len(),
                self@.keys.contains_key(key@) == last_places(
                    self.names@.take(n as int),
                    self.places@.take(n as int),
                ).contains_key(key@),
                self@.keys.contains_key(key@) ==> self@.keys[key@] == last_places(
                    self.names@.take(n as int),
                    self.places@.take(n as int),
                )[key@],
            decreases n,
        {
            assert(self.names@.take(n as int).drop_last() =~= self.names@.take(n - 1));
            assert(self.places@.take(n as int).drop_last() =~= self.places@.take(n - 1));
            if same(self.names[n - 1].as_str(), key) {
                return Some(self.places[n - 1]);
            }
            n = n - 1;
        }
        None
    }

    /// Whether `key` was given.
    pub fn has_key(&self, key: &str) -> (r: bool)
        ensures
            r == self@.keys.contains_key(key@),
    {
        self.get(key).is_some()
    }

    /// Whether `flag` was given.
    pub fn has_flag(&self, flag: &str) -> (r: bool)
        ensures
            r == self@.flags.contains(flag@),
    {
        text::holds(&self.flags, flag)
    }
}

/// Reads `args` as `-key value` pairs and `-flag`s.
pub fn parse_key_args(args: &Vec<String>, keys: &[&str], flags: &[&str]) -> (r: Result<KeyArgs, String>)
    ensures
        match (key_args(text::views(args@), str_views(keys@), str_views(flags@)), r) {
            (Ok(want), Ok(got)) => got@ == want && got.within(args@.len() as int),
            (Err(want), Err(got)) => got@ == want,
            _ => false,
        },
{
    let n: usize = args.len();
    let (mut names, mut places): (Vec<String>, Vec<usize>) = (Vec::new(), Vec::new());
    let mut given: Vec<String> = Vec::new();
    let ghost av = text::views(args@);
    let ghost kv = str_views(keys@);
    let ghost fv = str_views(flags@);
    let mut i: usize = 0;
    assert(text::views(given@) =~= Seq::empty());
    while i < n
        invariant
            n == args@.len(),
            av == text::views(args@),
            kv == str_views(keys@),
            fv == str_views(flags@),
            i <= n,
            names@.len() == places@.len(),
            forall|k: Seq<char>| #[trigger] last_places(names@, places@).contains_key(k) ==> 0
                <= last_places(names@, places@)[k] < n,
            key_args(av, kv, fv) == key_args_from(
                av,
                i as int,
                kv,
                fv,
                KeyArgsView { keys: last_places(names@, places@), flags: text::views(given@) },
            ),
        decreases n - i,
    {
        let a = args[i].as_str();
        assert(a@ == av[i as int]);
        if listed(keys, a) {
            if i + 1 >= n {
                let mut e = a.to_owned();
                e.append(" requires a value");
                return Err(e);
            }
            let ghost (old_names, old_places) = (names@, places@);
            names.push(args[i].clone());
            places.push(i + 1);
            assert(names@.drop_last() =~= old_names);
            assert(places@.drop_last() =~= old_places);
            i = i + 2;
        } else if listed(flags, a) {
            let ghost old_given = given@;
            given.push(args[i].clone());
            assert(text::views(given@) =~= text::views(old_given).push(a@));
            i = i + 1;
        } else {
            let mut e = "unexpected argument ".to_owned();
            e.append(a);
            return Err(e);
        }
    }
    Ok(KeyArgs { names, places, flags: given })
}

/// The argument at place `i` is read as a key or a flag: it is not the value of a key right before
/// it.
pub open spec fn is_read(args: Seq<Seq<char>>, keys: Seq<Seq<char>>, i: int) -> bool
    decreases i,
{
    i <= 0 || !(is_read(args, keys, i - 1) && keys.contains(args[i - 1]))
}

/// The place of the value that `key` has by the first `n` arguments: behind the last of them that
/// is read and is that key.
pub open spec fn value_place(args: Seq<Seq<char>>, keys: Seq<Seq<char>>, key: Seq<char>, n: int) -> Option<int>
    decreases n,
{
    if n <= 0 {
        None
    } else if is_read(args, keys, n - 1) && args[n - 1] == key {
        Some(n)
    } else {
        value_place(args, keys, key, n - 1)
    }
}

/// The place of the value that `key` is given among the arguments, where it is given.
pub open spec fn given_at(args: Seq<Seq<char>>, keys: Seq<Seq<char>>, key: Seq<char>) -> Option<int> {
    value_place(args, keys, key, args.len() as int)
}

/// The flag is given among the first `n` arguments.
pub open spec fn flag_within(args: Seq<Seq<char>>, keys: Seq<Seq<char>>, flag: Seq<char>, n: int) -> bool {
    exists|i: int| 0 <= i < n && is_read(args, keys, i) && #[trigger] args[i] == flag
}

/// The flag is given among the arguments.
pub open spec fn flag_given(args: Seq<Seq<char>>, keys: Seq<Seq<char>>, flag: Seq<char>) -> bool {
    flag_within(args, keys, flag, args.len() as int)
}

/// Every argument that is read is a key with a value behind it or a flag.
pub open spec fn all_known(args: Seq<Seq<char>>, keys: Seq<Seq<char>>, flags: Seq<Seq<char>>) -> bool {
    forall|i: int|
        0 <= i < args.len() && #[trigger] is_read(args, keys, i) ==> if keys.contains(args[i]) {
            i + 1 < args.len()
        } else {
            flags.contains(args[i])
        }
}

/// What was got is what the first `n` arguments give.
spec fn got_from(
    args: Seq<Seq<char>>,
    keys: Seq<Seq<char>>,
    n: int,
    got: KeyArgsView,
) -> bool {
    &&& forall|k: Seq<char>|
        keys.contains(k) ==> (#[trigger] got.keys.contains_key(k) <==> value_place(
            args,
            keys,
            k,
            n,
        ) is Some)
    &&& forall|k: Seq<char>|
        keys.contains(k) && #[trigger] got.keys.contains_key(k) ==> value_place(args, keys, k, n)
            == Some(got.keys[k])
    &&& forall|k: Seq<char>| #[trigger] got.keys.contains_key(k) ==> keys.contains(k)
    &&& forall|f: Seq<char>|
        !keys.contains(f) ==> (#[trigger] got.flags.contains(f) <==> flag_within(args, keys, f, n))
}

proof fn lemma_flag_within(args: Seq<Seq<char>>, keys: Seq<Seq<char>>, flag: Seq<char>, n: int)
    requires
        0 <= n < args.len(),
    ensures
        flag_within(args, keys, flag, n + 1) <==> flag_within(args, keys, flag, n) || (is_read(
            args,
            keys,
            n,
        ) && args[n] == flag),
{
    if flag_within(args, keys, flag, n + 1) {
        let i = choose|i: int|
            0 <= i < n + 1 && is_read(args, keys, i) && #[trigger] args[i] == flag;
        if i < n {
            assert(args[i] == flag);
        }
    }
    if flag_within(args, keys, flag, n) {
        let i = choose|i: int| 0 <= i < n && is_read(args, keys, i) && #[trigger] args[i] == flag;
        assert(args[i] == flag);
    }
    if is_read(args, keys, n) && args[n] == flag {
        assert(args[n] == flag);
    }
}

proof fn lemma_key_args_from(
    args: Seq<Seq<char>>,
    i: int,
    keys: Seq<Seq<char>>,
    flags: Seq<Seq<char>>,
    got: KeyArgsView,
)
    requires
        0 <= i <= args.len(),
        is_read(args, keys, i),
        got_from(args, keys, i, got),
        forall|j: int|
            0 <= j < i && #[trigger] is_read(args, keys, j) ==> if keys.contains(args[j]) {
                j + 1 < args.len()
            } else {
                flags.contains(args[j])
            },
    ensures
        key_args_from(args, i, keys, flags, got) is Ok <==> all_known(args, keys, flags),
        key_args_from(args, i, keys, flags, got) matches Ok(given) ==> got_from(
            args,
            keys,
            args.len() as int,
            given,
        ),
    decreases args.len() - i,
{
    if i < args.len() {
        if keys.contains(args[i]) {
            if i + 1 < args.len() {
                assert(!is_read(args, keys, i + 1));
                assert(is_read(args, keys, i + 2));
                let next = KeyArgsView { keys: got.keys.insert(args[i], i + 1), flags: got.flags };
                assert forall|k: Seq<char>| keys.contains(k) implies (
                #[trigger] next.keys.contains_key(k) <==> value_place(args, keys, k, i + 2) is Some)
                    && (next.keys.contains_key(k) ==> value_place(args, keys, k, i + 2) == Some(
                    next.keys[k],
                )) by {
                    assert(value_place(args, keys, k, i + 2) == value_place(args, keys, k, i + 1));
                    assert(got.keys.contains_key(k) <==> value_place(args, keys, k, i) is Some);
                }
                assert forall|f: Seq<char>| !keys.contains(f) implies (
                #[trigger] next.flags.contains(f) <==> flag_within(args, keys, f, i + 2)) by {
                    assert(got.flags.contains(f) <==> flag_within(args, keys, f, i));
                    lemma_flag_within(args, keys, f, i);
                    lemma_flag_within(args, keys, f, i + 1);
                }
                lemma_key_args_from(args, i + 2, keys, flags, next);
            }
        } else if flags.contains(args[i]) {
            assert(is_read(args, keys, i + 1));
            let next = KeyArgsView { keys: got.keys, flags: got.flags.push(args[i]) };
            assert forall|k: Seq<char>| keys.contains(k) implies (
            #[trigger] next.keys.contains_key(k) <==> value_place(args, keys, k, i + 1) is Some) && (
            next.keys.contains_key(k) ==> value_place(args, keys, k, i + 1) == Some(
                next.keys[k],
            )) by {
                assert(got.keys.contains_key(k) <==> value_place(args, keys, k, i) is Some);
            }
            assert forall|f: Seq<char>| !keys.contains(f) implies (
            #[trigger] next.flags.contains(f) <==> flag_within(args, keys, f, i + 1)) by {
                assert(got.flags.contains(f) <==> flag_within(args, keys, f, i));
                lemma_flag_within(args, keys, f, i);
                if got.flags.contains(f) {
                    let m = choose|m: int| 0 <= m < got.flags.len() && got.flags[m] == f;
                    assert(next.flags[m] == f);
                }
                if f == args[i] {
                    assert(next.flags[got.flags.len() as int] == f);
                }
                if next.flags.contains(f) && f != args[i] {
                    let m = choose|m: int| 0 <= m < next.flags.len() && next.flags[m] == f;
                    assert(got.flags[m] == f);
                }
            }
            lemma_key_args_from(args, i + 1, keys, flags, next);
        } else {
            assert(is_read(args, keys, i));
        }
    }
}

proof fn lemma_value_place(args: Seq<Seq<char>>, keys: Seq<Seq<char>>, key: Seq<char>, n: int)
    requires
        0 <= n <= args.len(),
    ensures
        value_place(args, keys, key, n) matches Some(p) ==> 0 < p <= n && is_read(args, keys, p - 1)
            && args[p - 1] == key,
    decreases n,
{
    if n > 0 {
        lemma_value_place(args, keys, key, n - 1);
    }
}

/// A command's arguments are right exactly where every one that is read is a key with a value
/// behind it or a flag. A key's value is then the argument behind its last reading, and a key or a
/// flag is given exactly where it is read.
pub proof fn law_keys_and_flags_are_those_read(
    args: Seq<Seq<char>>,
    keys: Seq<Seq<char>>,
    flags: Seq<Seq<char>>,
)
    ensures
        key_args(args, keys, flags) is Ok <==> all_known(args, keys, flags),
        key_args(args, keys, flags) matches Ok(given) ==> {
            &&& forall|k: Seq<char>|
                keys.contains(k) ==> (#[trigger] given.keys.contains_key(k) <==> given_at(
                    args,
                    keys,
                    k,
                ) is Some)
            &&& forall|k: Seq<char>|
                keys.contains(k) && #[trigger] given.keys.contains_key(k) ==> given_at(args, keys, k)
                    == Some(given.keys[k]) && 0 < given.keys[k] < args.len() && args[given.keys[k]
                    - 1] == k
            &&& forall|f: Seq<char>|
                !keys.contains(f) ==> (#[trigger] given.flags.contains(f) <==> flag_given(
                    args,
                    keys,
                    f,
                ))
        },
{
    let none = KeyArgsView { keys: Map::empty(), flags: Seq::empty() };
    assert forall|f: Seq<char>| !keys.contains(f) implies (#[trigger] none.flags.contains(f)
        <==> flag_within(args, keys, f, 0)) by {}
    lemma_key_args_from(args, 0, keys, flags, none);
    if let Ok(given) = key_args(args, keys, flags) {
        assert forall|k: Seq<char>| keys.contains(k) && #[trigger] given.keys.contains_key(
            k,
        ) implies given_at(args, keys, k) == Some(given.keys[k]) && 0 < given.keys[k] < args.len()
            && args[given.keys[k] - 1] == k by {
            lemma_value_place(args, keys, k, args.len() as int);
            assert(is_read(args, keys, given.keys[k] - 1));
        }
    }
}

/// The argument at place `i` is read and is neither a key with a value behind it nor a flag, and all
/// before it that are read are.
pub open spec fn first_wrong(
    args: Seq<Seq<char>>,
    keys: Seq<Seq<char>>,
    flags: Seq<Seq<char>>,
    i: int,
) -> bool {
    &&& 0 <= i < args.len()
    &&& is_read(args, keys, i)
    &&& if keys.contains(args[i]) {
        i + 1 == args.len()
    } else {
        !flags.contains(args[i])
    }
    &&& forall|j: int|
        0 <= j < i && #[trigger] is_read(args, keys, j) ==> keys.contains(args[j])
            || flags.contains(args[j])
}

proof fn lemma_error_from(
    args: Seq<Seq<char>>,
    i: int,
    keys: Seq<Seq<char>>,
    flags: Seq<Seq<char>>,
    got: KeyArgsView,
    at: int,
)
    requires
        0 <= i <= at,
        is_read(args, keys, i),
        first_wrong(args, keys, flags, at),
    ensures
        key_args_from(args, i, keys, flags, got) == Err::<KeyArgsView, Seq<char>>(
            if keys.contains(args[at]) {
                args[at] + " requires a value"@
            } else {
                "unexpected argument "@ + args[at]
            },
        ),
    decreases args.len() - i,
{
    if i < at {
        if keys.contains(args[i]) {
            assert(!is_read(args, keys, i + 1));
            assert(is_read(args, keys, i + 2));
            assert(at != i + 1);
            let next = KeyArgsView { keys: got.keys.insert(args[i], i + 1), flags: got.flags };
            lemma_error_from(args, i + 2, keys, flags, next, at);
        } else {
            assert(is_read(args, keys, i + 1));
            let next = KeyArgsView { keys: got.keys, flags: got.flags.push(args[i]) };
            lemma_error_from(args, i + 1, keys, flags, next, at);
        }
    }
}

/// What is said of wrong arguments is of the first that is wrong: a key that wants a value, or what
/// is neither key nor flag.
pub proof fn law_the_first_wrong_argument_is_named(
    args: Seq<Seq<char>>,
    keys: Seq<Seq<char>>,
    flags: Seq<Seq<char>>,
    at: int,
)
    requires
        first_wrong(args, keys, flags, at),
    ensures
        key_args(args, keys, flags) == Err::<KeyArgsView, Seq<char>>(
            if keys.contains(args[at]) {
                args[at] + " requires a value"@
            } else {
                "unexpected argument "@ + args[at]
            },
        ),
{
    let none = KeyArgsView { keys: Map::empty(), flags: Seq::empty() };
    lemma_error_from(args, 0, keys, flags, none, at);
}

} // verus!
