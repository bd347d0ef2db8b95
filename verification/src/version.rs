//! Dotted version numbers: their syntax and the order the manifest keeps.
use vstd::prelude::*;

use crate::manifest::{Manifest, Problem};
use crate::text::{
    chars_of, debug_quoted, has_white_space, is_white_space, join, lemma_join_split,
    lemma_split_keeps_characters, split, split_chars, string_of,
};

verus! {

pub open spec fn is_digit(c: char) -> bool {
    '0' <= c && c <= '9'
}

pub open spec fn all_digits(s: Seq<char>) -> bool {
    forall|i: int| 0 <= i < s.len() ==> is_digit(#[trigger] s[i])
}

/// The number that the decimal digits `s` spell.
pub open spec fn decimal_value(s: Seq<char>) -> int
    decreases s.len(),
{
    if s.len() == 0 {
        0
    } else {
        decimal_value(s.drop_last()) * 10 + (s.last() as int - '0' as int)
    }
}

/// What `u64::from_str` accepts: an optional `+`, then one or more ASCII
/// digits whose value fits in a `u64`.
pub open spec fn parse_u64(s: Seq<char>) -> Option<u64> {
    let digits = if s.len() > 0 && s[0] == '+' {
        s.drop_first()
    } else {
        s
    };
    if digits.len() > 0 && all_digits(digits) && decimal_value(digits) <= u64::MAX {
        Some(decimal_value(digits) as u64)
    } else {
        None
    }
}

/// The sort key of a version: its dot-separated numbers, when it is a
/// non-empty string of them.
pub open spec fn key_of(version: Seq<char>) -> Option<Seq<u64>> {
    let parts = split(version, '.');
    if version.len() > 0 && forall|i: int| 0 <= i < parts.len() ==> (#[trigger] parse_u64(parts[i])) is Some {
        Some(parts.map_values(|p: Seq<char>| parse_u64(p)->0))
    } else {
        None
    }
}

/// The order of `Vec<u64>`: lexicographic, a proper prefix before what extends it.
pub open spec fn key_less(a: Seq<u64>, b: Seq<u64>) -> bool
    decreases a.len(),
{
    if b.len() == 0 {
        false
    } else if a.len() == 0 {
        true
    } else if a[0] != b[0] {
        a[0] < b[0]
    } else {
        key_less(a.drop_first(), b.drop_first())
    }
}

/// The message `Manifest::version_key` fails with.
pub open spec fn key_error_message(version: Seq<char>) -> Seq<char> {
    if version.len() == 0 {
        "version must not be empty"@
    } else {
        "version "@ + debug_quoted(version) + " must be dotted numbers"@
    }
}

/// No key comes before itself.
pub proof fn lemma_key_less_irreflexive(a: Seq<u64>)
    ensures
        !key_less(a, a),
    decreases a.len(),
{
    if a.len() > 0 {
        lemma_key_less_irreflexive(a.drop_first());
    }
}

/// The key order is transitive.
pub proof fn lemma_key_less_transitive(a: Seq<u64>, b: Seq<u64>, c: Seq<u64>)
    requires
        key_less(a, b),
        key_less(b, c),
    ensures
        key_less(a, c),
    decreases a.len(),
{
    if a.len() > 0 && a[0] == b[0] && b[0] == c[0] {
        lemma_key_less_transitive(a.drop_first(), b.drop_first(), c.drop_first());
    }
}

proof fn lemma_decimal_value_nonnegative(s: Seq<char>)
    requires
        all_digits(s),
    ensures
        decimal_value(s) >= 0,
    decreases s.len(),
{
    if s.len() > 0 {
        lemma_decimal_value_nonnegative(s.drop_last());
    }
}

proof fn lemma_decimal_value_grows(s: Seq<char>, k: int)
    requires
        0 <= k <= s.len(),
        all_digits(s),
    ensures
        decimal_value(s.take(k)) <= decimal_value(s),
    decreases s.len(),
{
    if k < s.len() {
        lemma_decimal_value_nonnegative(s.drop_last());
        assert(is_digit(s[s.len() - 1]));
        assert(s.drop_last().take(k) =~= s.take(k));
        lemma_decimal_value_grows(s.drop_last(), k);
    } else {
        assert(s.take(k) =~= s);
    }
}

/// The value of the decimal number `s`, as `u64::from_str` gives it.
pub fn parse_decimal(s: &Vec<char>) -> (r: Option<u64>)
    ensures
        r == parse_u64(s@),
{
    let start: usize = if s.len() > 0 && s[0] == '+' {
        1
    } else {
        0
    };
    let ghost digits = s@.skip(start as int);
    assert(digits =~= (if s@.len() > 0 && s@[0] == '+' {
        s@.drop_first()
    } else {
        s@
    }));
    if start == s.len() {
        return None;
    }
    let mut value: u64 = 0;
    let mut i: usize = start;
    while i < s.len()
        invariant
            start <= i <= s.len(),
            digits == s@.skip(start as int),
            digits == (if s@.len() > 0 && s@[0] == '+' {
                s@.drop_first()
            } else {
                s@
            }),
            digits.len() > 0,
            all_digits(digits.take(i - start)),
            value == decimal_value(digits.take(i - start)),
        decreases s.len() - i,
    {
        let c = s[i];
        let ghost next = digits.take(i - start + 1);
        assert(next.drop_last() =~= digits.take(i - start));
        assert(next.last() == c);
        if c < '0' || c > '9' {
            assert(!is_digit(digits[i - start]));
            assert(!all_digits(digits));
            return None;
        }
        let d = (c as u32 - '0' as u32) as u64;
        assert(all_digits(next));
        assert(decimal_value(next) == value * 10 + d);
        match value.checked_mul(10) {
            Some(tens) => match tens.checked_add(d) {
                Some(v) => {
                    value = v;
                },
                None => {
                    proof {
                        lemma_overflow_stays(s@, start as int, i - start + 1);
                    }
                    return None;
                },
            },
            None => {
                proof {
                    lemma_overflow_stays(s@, start as int, i - start + 1);
                }
                return None;
            },
        }
        i = i + 1;
    }
    assert(digits.take(s.len() - start) =~= digits);
    Some(value)
}

proof fn lemma_overflow_stays(s: Seq<char>, start: int, k: int)
    requires
        0 <= start <= s.len(),
        0 < k <= s.len() - start,
        all_digits(s.skip(start).take(k)),
        decimal_value(s.skip(start).take(k)) > u64::MAX,
    ensures
        !(all_digits(s.skip(start)) && decimal_value(s.skip(start)) <= u64::MAX),
{
    if all_digits(s.skip(start)) {
        lemma_decimal_value_grows(s.skip(start), k);
    }
}

/// The sort key of `version`, when it has one.
pub fn key_from(version: &str) -> (r: Option<Vec<u64>>)
    ensures
        r is Some <==> key_of(version@) is Some,
        r matches Some(key) ==> key_of(version@) == Some(key@),
{
    let cs = chars_of(version);
    if cs.len() == 0 {
        return None;
    }
    let parts = split_chars(&cs, '.');
    let ghost pieces = split(version@, '.');
    assert(parts@.map_values(|p: Vec<char>| p@) == pieces);
    let mut key: Vec<u64> = Vec::new();
    let mut i: usize = 0;
    while i < parts.len()
        invariant
            parts@.map_values(|p: Vec<char>| p@) == pieces,
            pieces == split(version@, '.'),
            version@.len() > 0,
            i <= parts.len(),
            key@.len() == i,
            forall|j: int| 0 <= j < i ==> (#[trigger] parse_u64(pieces[j])) == Some(key@[j]),
        decreases parts.len() - i,
    {
        assert(pieces[i as int] == parts@[i as int]@);
        match parse_decimal(&parts[i]) {
            Some(n) => key.push(n),
            None => {
                return None;
            },
        }
        i = i + 1;
    }
    assert(key@ =~= pieces.map_values(|p: Seq<char>| parse_u64(p)->0));
    Some(key)
}

impl Manifest {
    /// Sort key for a dotted version. Also serves as the version syntax check.
    pub fn version_key(version: &str) -> (r: Result<Vec<u64>, String>)
        ensures
            r is Ok <==> key_of(version@) is Some,
            r matches Ok(key) ==> key_of(version@) == Some(key@),
            r matches Err(message) ==> message@ == key_error_message(version@),
    {
        match key_from(version) {
            Some(key) => Ok(key),
            None => Err(Problem::BadVersion { version: string_of(version) }.message()),
        }
    }
}

/// Whether `a` sorts before `b`, as `Vec<u64>` orders them.
pub fn key_is_less(a: &Vec<u64>, b: &Vec<u64>) -> (r: bool)
    ensures
        r == key_less(a@, b@),
{
    let mut i: usize = 0;
    assert(a@.skip(0) =~= a@);
    assert(b@.skip(0) =~= b@);
    while i < a.len() && i < b.len()
        invariant
            i <= a.len(),
            i <= b.len(),
            key_less(a@, b@) == key_less(a@.skip(i as int), b@.skip(i as int)),
        decreases a.len() - i,
    {
        if a[i] != b[i] {
            return a[i] < b[i];
        }
        assert(a@.skip(i as int).drop_first() =~= a@.skip(i + 1));
        assert(b@.skip(i as int).drop_first() =~= b@.skip(i + 1));
        i = i + 1;
    }
    i < b.len()
}


proof fn lemma_parsed_characters(p: Seq<char>, k: int)
    requires
        parse_u64(p) is Some,
        0 <= k < p.len(),
    ensures
        p[k] == '+' || is_digit(p[k]),
{
    if p.len() > 0 && p[0] == '+' {
        if k > 0 {
            assert(p.drop_first()[k - 1] == p[k]);
        }
    }
}

/// A number `u64::from_str` accepts is ASCII digits, at least one, after an
/// optional leading `+`.
pub proof fn lemma_parse_u64_characters(p: Seq<char>)
    ensures
        parse_u64(p) is Some ==> forall|k: int|
            0 <= k < p.len() ==> is_digit(#[trigger] p[k]) || (k == 0 && p[k] == '+'),
        parse_u64(p) is Some ==> exists|k: int| 0 <= k < p.len() && is_digit(#[trigger] p[k]),
{
    if parse_u64(p) is Some {
        assert forall|k: int| 0 <= k < p.len() implies is_digit(#[trigger] p[k]) || (k == 0
            && p[k] == '+') by {
            lemma_parsed_characters(p, k);
            if k > 0 && p[0] == '+' {
                assert(p.drop_first()[k - 1] == p[k]);
            }
        }
        let last = p.len() - 1;
        if p[0] == '+' {
            assert(p.drop_first()[p.len() - 2] == p[last]);
        }
        assert(is_digit(p[last]));
    }
}

/// A version has a key exactly when it is non-empty and each of its
/// dot-separated pieces is a number `u64::from_str` accepts, and the key is
/// those numbers in order. So a version holds nothing but digits, dots and
/// plus signs.
pub proof fn lemma_key_of_pieces(version: Seq<char>)
    ensures
        key_of(version) is Some <==> (version.len() > 0 && forall|i: int|
            0 <= i < split(version, '.').len() ==> (#[trigger] parse_u64(split(version, '.')[i]))
                is Some),
        key_of(version) matches Some(key) ==> key.len() == split(version, '.').len() && forall|
            i: int,
        |
            0 <= i < key.len() ==> parse_u64(split(version, '.')[i]) == Some(#[trigger] key[i]),
        key_of(version) is Some ==> forall|i: int|
            0 <= i < version.len() ==> is_digit(#[trigger] version[i]) || version[i] == '.'
                || version[i] == '+',
{
    if key_of(version) is Some {
        let parts = split(version, '.');
        assert forall|i: int| 0 <= i < version.len() implies is_digit(#[trigger] version[i])
            || version[i] == '.' || version[i] == '+' by {
            if version[i] != '.' {
                lemma_split_keeps_characters(version, '.', i);
                let p = choose|p: int|
                    0 <= p < parts.len() && #[trigger] parts[p].contains(version[i]);
                let k = choose|k: int| 0 <= k < parts[p].len() && parts[p][k] == version[i];
                assert(parse_u64(parts[p]) is Some);
                lemma_parsed_characters(parts[p], k);
            }
        }
    }
}

/// A version with a key is made of digits, dots and plus signs, so it holds
/// no white space.
pub proof fn lemma_keyed_version_has_no_white_space(version: Seq<char>)
    requires
        key_of(version) is Some,
    ensures
        !has_white_space(version),
{
    lemma_key_of_pieces(version);
    if has_white_space(version) {
        let i = choose|i: int| 0 <= i < version.len() && is_white_space(#[trigger] version[i]);
        assert(is_digit(version[i]) || version[i] == '.' || version[i] == '+');
    }
}

proof fn lemma_key_less_at(a: Seq<u64>, b: Seq<u64>, i: int)
    requires
        0 <= i < a.len(),
        i < b.len(),
        a.take(i) == b.take(i),
        a[i] != b[i],
    ensures
        key_less(a, b) <==> a[i] < b[i],
    decreases i,
{
    if i > 0 {
        assert(a[0] == a.take(i)[0]);
        assert(b[0] == b.take(i)[0]);
        assert(a.drop_first().take(i - 1) =~= a.take(i).drop_first());
        assert(b.drop_first().take(i - 1) =~= b.take(i).drop_first());
        lemma_key_less_at(a.drop_first(), b.drop_first(), i - 1);
    }
}

proof fn lemma_key_less_prefix(a: Seq<u64>, b: Seq<u64>)
    requires
        a.len() <= b.len(),
        a == b.take(a.len() as int),
    ensures
        key_less(a, b) <==> a.len() < b.len(),
        !key_less(b, a),
    decreases a.len(),
{
    if a.len() > 0 {
        assert(a[0] == b[0]);
        assert(a.drop_first() =~= b.drop_first().take(a.len() - 1));
        lemma_key_less_prefix(a.drop_first(), b.drop_first());
    }
}

/// The key order is that of `Vec<u64>`: where two keys first differ, within
/// both, the one with the smaller number there comes first; where one is a
/// prefix of the other, the shorter comes first.
pub proof fn lemma_key_less_is_lexicographic(a: Seq<u64>, b: Seq<u64>)
    ensures
        forall|i: int|
            #![trigger a[i], b[i]]
            0 <= i < a.len() && i < b.len() && a.take(i) == b.take(i) && a[i] != b[i] ==> (
            key_less(a, b) <==> a[i] < b[i]),
        a.len() <= b.len() && a == b.take(a.len() as int) ==> (key_less(a, b) <==> a.len()
            < b.len()),
        b.len() <= a.len() && b == a.take(b.len() as int) ==> !key_less(a, b),
{
    assert forall|i: int|
        #![trigger a[i], b[i]]
        0 <= i < a.len() && i < b.len() && a.take(i) == b.take(i) && a[i] != b[i] implies (
        key_less(a, b) <==> a[i] < b[i]) by {
        lemma_key_less_at(a, b, i);
    }
    if a.len() <= b.len() && a == b.take(a.len() as int) {
        lemma_key_less_prefix(a, b);
    }
    if b.len() <= a.len() && b == a.take(b.len() as int) {
        lemma_key_less_prefix(b, a);
    }
}

} // verus!

verus! {

/// The character of the decimal digit `d`.
pub open spec fn digit_char(d: int) -> char {
    if d == 0 {
        '0'
    } else if d == 1 {
        '1'
    } else if d == 2 {
        '2'
    } else if d == 3 {
        '3'
    } else if d == 4 {
        '4'
    } else if d == 5 {
        '5'
    } else if d == 6 {
        '6'
    } else if d == 7 {
        '7'
    } else if d == 8 {
        '8'
    } else {
        '9'
    }
}

/// The decimal digits of `n`, most significant first and with no leading
/// zero, as `u64::to_string` writes them.
pub open spec fn decimal_string(n: nat) -> Seq<char>
    decreases n,
{
    if n < 10 {
        seq![digit_char(n as int)]
    } else {
        decimal_string(n / 10).push(digit_char((n % 10) as int))
    }
}

/// A number written the way `u64::to_string` writes it: decimal digits, no
/// leading zero unless it is `0`, and a value that fits in a `u64`.
pub open spec fn is_canonical_decimal(p: Seq<char>) -> bool {
    &&& p.len() > 0
    &&& all_digits(p)
    &&& (p.len() == 1 || p[0] != '0')
    &&& decimal_value(p) <= u64::MAX
}

proof fn lemma_digit_char(c: char)
    requires
        is_digit(c),
    ensures
        digit_char(c as int - '0' as int) == c,
{
}

proof fn lemma_canonical_decimal_reads_back(p: Seq<char>)
    requires
        is_canonical_decimal(p),
    ensures
        decimal_string(decimal_value(p) as nat) == p,
    decreases p.len(),
{
    let d = p.last() as int - '0' as int;
    assert(is_digit(p[p.len() - 1]));
    lemma_digit_char(p.last());
    if p.len() == 1 {
        assert(p.drop_last() =~= Seq::<char>::empty());
        assert(seq![p.last()] =~= p);
    } else {
        let q = p.drop_last();
        assert(q.take(1) =~= p.take(1));
        assert(q.take(1).drop_last() =~= Seq::<char>::empty());
        assert(is_digit(q[0]));
        assert(q[0] == p[0]);
        assert(q.take(1).last() == q[0]);
        assert(q.take(1).len() == 1);
        assert(decimal_value(q.take(1).drop_last()) == 0);
        assert(decimal_value(q.take(1)) == q[0] as int - '0' as int);
        lemma_decimal_value_grows(q, 1);
        lemma_decimal_value_grows(p, p.len() - 1);
        assert(p.take(p.len() - 1) =~= q);
        assert(q.len() == 1 || q[0] != '0');
        assert(is_canonical_decimal(q));
        lemma_canonical_decimal_reads_back(q);
        let n = decimal_value(p);
        let m = decimal_value(q);
        assert(n == m * 10 + d);
        assert(m >= 1);
        assert(n / 10 == m && n % 10 == d) by (nonlinear_arith)
            requires
                n == m * 10 + d,
                0 <= d < 10,
                m >= 1,
        ;
        assert(q.push(p.last()) =~= p);
    }
}

/// A version whose dot-separated numbers are all written the way
/// `u64::to_string` writes them reads back from its key: the numbers of the
/// key, written in decimal and joined by dots, are the version.
pub proof fn lemma_canonical_version_round_trip(version: Seq<char>)
    requires
        version.len() > 0,
        forall|i: int|
            0 <= i < split(version, '.').len() ==> is_canonical_decimal(
                #[trigger] split(version, '.')[i],
            ),
    ensures
        key_of(version) is Some,
        join((key_of(version)->0).map_values(|n: u64| decimal_string(n as nat)), '.') == version,
{
    let parts = split(version, '.');
    assert forall|i: int| 0 <= i < parts.len() implies parse_u64(#[trigger] parts[i]) == Some(
        decimal_value(parts[i]) as u64,
    ) by {
        assert(is_digit(parts[i][0]));
    }
    let key = key_of(version)->0;
    assert(key.map_values(|n: u64| decimal_string(n as nat)) =~= parts) by {
        assert forall|i: int| 0 <= i < parts.len() implies key.map_values(
            |n: u64| decimal_string(n as nat),
        )[i] == parts[i] by {
            lemma_decimal_value_nonnegative(parts[i]);
            assert(key[i] as int == decimal_value(parts[i]));
            lemma_canonical_decimal_reads_back(parts[i]);
        }
    }
    lemma_join_split(version, '.');
}

} // verus!
