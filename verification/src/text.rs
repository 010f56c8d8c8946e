//! Character-level reading and writing: whitespace, trimming, unsigned decimal numbers.

use vstd::prelude::*;
use vstd::string::*;

verus! {

/// Whether `c` has the Unicode `White_Space` property, as `char::is_whitespace` tests.
pub open spec fn is_white_space(c: char) -> bool {
    let v = c as u32;
    ||| 0x09 <= v <= 0x0d
    ||| v == 0x20
    ||| v == 0x85
    ||| v == 0xa0
    ||| v == 0x1680
    ||| 0x2000 <= v <= 0x200a
    ||| v == 0x2028
    ||| v == 0x2029
    ||| v == 0x202f
    ||| v == 0x205f
    ||| v == 0x3000
}

/// `s` without its leading and trailing white space, as `str::trim` gives it.
pub open spec fn trimmed(s: Seq<char>) -> Seq<char>
    decreases s.len(),
{
    if s.len() > 0 && is_white_space(s[0]) {
        trimmed(s.drop_first())
    } else if s.len() > 0 && is_white_space(s.last()) {
        trimmed(s.drop_last())
    } else {
        s
    }
}

/// Whether `c` is one of the ASCII digits `0` to `9`.
pub open spec fn is_digit(c: char) -> bool {
    '0' <= c && c <= '9'
}

/// The number that the ASCII digits `s` stand for.
pub open spec fn decimal_value(s: Seq<char>) -> nat
    decreases s.len(),
{
    if s.len() == 0 {
        0
    } else {
        decimal_value(s.drop_last()) * 10 + ((s.last() as u32) - ('0' as u32)) as nat
    }
}

/// `s` without one leading `+`, if it has one.
pub open spec fn without_plus(s: Seq<char>) -> Seq<char> {
    if s.len() > 0 && s[0] == '+' {
        s.drop_first()
    } else {
        s
    }
}

/// Whether every character of `s` is an ASCII digit.
pub open spec fn all_digits(s: Seq<char>) -> bool {
    forall|i: int| 0 <= i < s.len() ==> is_digit(#[trigger] s[i])
}

/// The unsigned number that `s` spells, as `u64::from_str` and its siblings read it: one
/// optional `+`, then one or more ASCII digits, with a value of at most `max`.
pub open spec fn unsigned_value(s: Seq<char>, max: nat) -> Option<nat> {
    let digits = without_plus(s);
    if digits.len() > 0 && all_digits(digits) && decimal_value(digits) <= max {
        Some(decimal_value(digits))
    } else {
        None
    }
}

/// The ASCII digit for `d`, which is below 10.
pub open spec fn digit_char(d: nat) -> char {
    (('0' as u32) + d) as char
}

/// The decimal notation of `n`, without leading zeros.
pub open spec fn decimal(n: nat) -> Seq<char>
    decreases n,
{
    if n < 10 {
        seq![digit_char(n)]
    } else {
        decimal(n / 10).push(digit_char(n % 10))
    }
}

/// The lowercase hexadecimal digit for `d`, which is below 16.
pub open spec fn hex_digit_char(d: nat) -> char {
    if d < 10 {
        digit_char(d)
    } else {
        (('a' as u32) + (d - 10)) as char
    }
}

/// Index of the first `c` in `s`, or `s.len()` where there is none.
pub open spec fn find(s: Seq<char>, c: char) -> nat
    decreases s.len(),
{
    if s.len() == 0 {
        0
    } else if s[0] == c {
        0
    } else {
        1 + find(s.drop_first(), c)
    }
}

/// Index of the last `c` in `s` (0 where there is none).
pub open spec fn find_last(s: Seq<char>, c: char) -> nat
    decreases s.len(),
{
    if s.len() == 0 {
        0
    } else if s.last() == c {
        (s.len() - 1) as nat
    } else {
        find_last(s.drop_last(), c)
    }
}

/// How often `c` occurs in `s`.
pub open spec fn count(s: Seq<char>, c: char) -> nat
    decreases s.len(),
{
    if s.len() == 0 {
        0
    } else {
        count(s.drop_last(), c) + if s.last() == c {
            1nat
        } else {
            0nat
        }
    }
}

/// Where `c` occurs, `find` stops before the end.
pub proof fn lemma_find_bound(s: Seq<char>, c: char)
    ensures
        find(s, c) <= s.len(),
        count(s, c) > 0 ==> find(s, c) < s.len(),
    decreases s.len(),
{
    if s.len() > 0 {
        lemma_find_bound(s.drop_first(), c);
        lemma_count_front(s, c);
    }
}

/// Counting from the front: the first character, then the rest.
pub proof fn lemma_count_front(s: Seq<char>, c: char)
    requires
        s.len() > 0,
    ensures
        count(s, c) == count(s.drop_first(), c) + if s[0] == c {
            1nat
        } else {
            0nat
        },
    decreases s.len(),
{
    if s.len() > 1 {
        lemma_count_front(s.drop_last(), c);
        assert(s.drop_last().drop_first() =~= s.drop_first().drop_last());
        assert(s.drop_first().last() == s.last());
        assert(s.drop_last()[0] == s[0]);
        let a = s.drop_last().drop_first();
        assert(count(s.drop_first(), c) == count(a, c) + if s.last() == c {
            1nat
        } else {
            0nat
        });
        assert(count(s, c) == count(s.drop_last(), c) + if s.last() == c {
            1nat
        } else {
            0nat
        });
    } else {
        assert(s.drop_first().len() == 0);
        assert(s.drop_last().len() == 0);
        assert(s.last() == s[0]);
        assert(count(s.drop_first(), c) == 0);
        assert(count(s.drop_last(), c) == 0);
    }
    assert(count(s, c) == count(s.drop_first(), c) + if s[0] == c {
        1nat
    } else {
        0nat
    });
}

/// Index of the first white-space character of `s`, or `s.len()` where there is none.
pub open spec fn find_white_space(s: Seq<char>) -> nat
    decreases s.len(),
{
    if s.len() == 0 {
        0
    } else if is_white_space(s[0]) {
        0
    } else {
        1 + find_white_space(s.drop_first())
    }
}

/// `find_white_space` stops within `s`, and after a first character that is not white space.
pub proof fn lemma_find_white_space_bound(s: Seq<char>)
    ensures
        find_white_space(s) <= s.len(),
        s.len() > 0 && !is_white_space(s[0]) ==> find_white_space(s) >= 1,
    decreases s.len(),
{
    if s.len() > 0 {
        lemma_find_white_space_bound(s.drop_first());
    }
}

/// The white-space separated words of `s`, as `str::split_whitespace` gives them.
pub open spec fn words(s: Seq<char>) -> Seq<Seq<char>>
    decreases s.len(),
{
    if s.len() == 0 {
        seq![]
    } else if is_white_space(s[0]) {
        words(s.drop_first())
    } else {
        let k = find_white_space(s);
        proof {
            lemma_find_white_space_bound(s);
        }
        seq![s.take(k as int)] + words(s.skip(k as int))
    }
}

/// The decimal notation of a number spells that number: what `push_decimal` writes,
/// `parse_unsigned` reads back, for any bound it keeps to.
pub proof fn lemma_decimal_reads_back(n: nat, max: nat)
    requires
        n <= max,
    ensures
        unsigned_value(decimal(n), max) == Some(n),
{
    lemma_decimal_digits(n);
    let d = decimal(n);
    assert(d[0] != '+');
    assert(without_plus(d) == d);
}

/// The decimal notation of `n` is made of digits, starts with one, and spells `n`.
proof fn lemma_decimal_digits(n: nat)
    ensures
        decimal(n).len() > 0,
        all_digits(decimal(n)),
        decimal_value(decimal(n)) == n,
    decreases n,
{
    let c = digit_char(n % 10);
    assert(('0' as u32) + n % 10 <= 0x39);
    assert((c as u32) == ('0' as u32) + n % 10);
    if n < 10 {
        let d = decimal(n);
        assert(d.drop_last() =~= Seq::<char>::empty());
        assert(d.last() == c);
        assert(decimal_value(d.drop_last()) == 0);
        assert(n % 10 == n);
        assert(decimal_value(d) == decimal_value(d.drop_last()) * 10 + ((d.last() as u32) - ('0' as u32)) as nat);
    } else {
        lemma_decimal_digits(n / 10);
        let d = decimal(n);
        let front = decimal(n / 10);
        assert(d == front.push(c));
        assert(d.drop_last() =~= front);
        assert(d.last() == c);
        assert forall|i: int| 0 <= i < d.len() implies is_digit(#[trigger] d[i]) by {
            if i < front.len() {
                assert(d[i] == front[i]);
            }
        }
        assert(n == (n / 10) * 10 + n % 10) by (nonlinear_arith);
        assert(decimal_value(d) == decimal_value(d.drop_last()) * 10 + ((d.last() as u32) - ('0' as u32)) as nat);
    }
}

/// The characters of `s`.
pub fn chars_of(s: &str) -> (chars: Vec<char>)
    ensures
        chars@ == s@,
{
    broadcast use vstd::string::group_string_axioms;

    let mut chars: Vec<char> = Vec::new();
    let mut it = s.chars();
    loop
        invariant
            chars@ + vstd::std_specs::iter::IteratorSpec::remaining(&it) == s@,
            vstd::std_specs::iter::IteratorSpec::decrease(&it) is Some,
        ensures
            chars@ == s@,
        decreases vstd::std_specs::iter::IteratorSpec::decrease(&it)->0,
    {
        let ghost before = vstd::std_specs::iter::IteratorSpec::remaining(&it);
        match it.next() {
            Some(c) => {
                chars.push(c);
                assert(chars@ + vstd::std_specs::iter::IteratorSpec::remaining(&it) =~= s@) by {
                    assert(before =~= seq![c] + vstd::std_specs::iter::IteratorSpec::remaining(&it));
                }
            },
            None => {
                assert(chars@ =~= s@);
                break ;
            },
        }
    }
    chars
}

/// Whether `c` is white space.
pub fn white_space(c: char) -> (b: bool)
    ensures
        b == is_white_space(c),
{
    let v = c as u32;
    (0x09 <= v && v <= 0x0d) || v == 0x20 || v == 0x85 || v == 0xa0 || v == 0x1680 || (0x2000
        <= v && v <= 0x200a) || v == 0x2028 || v == 0x2029 || v == 0x202f || v == 0x205f || v
        == 0x3000
}

/// The bounds of `chars[start..end]` without its leading and trailing white space.
pub fn trim_range(chars: &Vec<char>, start: usize, end: usize) -> (r: (usize, usize))
    requires
        start <= end <= chars@.len(),
    ensures
        start <= r.0 <= r.1 <= end,
        chars@.subrange(r.0 as int, r.1 as int) == trimmed(
            chars@.subrange(start as int, end as int),
        ),
{
    let mut a = start;
    while a < end && white_space(chars[a])
        invariant
            start <= a <= end <= chars@.len(),
            trimmed(chars@.subrange(start as int, end as int)) == trimmed(
                chars@.subrange(a as int, end as int),
            ),
        decreases end - a,
    {
        assert(chars@.subrange(a as int, end as int).drop_first() =~= chars@.subrange(
            a + 1,
            end as int,
        ));
        a += 1;
    }
    let mut b = end;
    while b > a && white_space(chars[b - 1])
        invariant
            start <= a <= b <= end <= chars@.len(),
            a < b ==> !is_white_space(chars@[a as int]),
            trimmed(chars@.subrange(start as int, end as int)) == trimmed(
                chars@.subrange(a as int, b as int),
            ),
        decreases b - a,
    {
        let ghost s = chars@.subrange(a as int, b as int);
        assert(s.drop_last() =~= chars@.subrange(a as int, b - 1));
        assert(s[0] == chars@[a as int]);
        b -= 1;
    }
    let ghost s = chars@.subrange(a as int, b as int);
    assert(s.len() > 0 ==> s[0] == chars@[a as int] && s.last() == chars@[b - 1]);
    (a, b)
}

/// The digits of `s` before index `i` spell a number no larger than all of them.
proof fn lemma_decimal_prefix(s: Seq<char>, i: int)
    requires
        0 <= i <= s.len(),
        forall|j: int| 0 <= j < s.len() ==> is_digit(#[trigger] s[j]),
    ensures
        decimal_value(s.take(i)) <= decimal_value(s),
    decreases s.len(),
{
    if i < s.len() {
        let rest = s.drop_last();
        assert forall|j: int| 0 <= j < rest.len() implies is_digit(#[trigger] rest[j]) by {
            assert(rest[j] == s[j]);
        }
        lemma_decimal_prefix(rest, i);
        assert(rest.take(i) =~= s.take(i));
    } else {
        assert(s.take(i) =~= s);
    }
}

/// The unsigned number that `chars[start..end]` spells, if it is one no larger than `max`.
pub fn parse_unsigned(chars: &Vec<char>, start: usize, end: usize, max: u64) -> (n: Option<u64>)
    requires
        start <= end <= chars@.len(),
    ensures
        match n {
            Some(v) => unsigned_value(chars@.subrange(start as int, end as int), max as nat) == Some(
                v as nat,
            ),
            None => unsigned_value(chars@.subrange(start as int, end as int), max as nat) is None,
        },
{
    let ghost s = chars@.subrange(start as int, end as int);
    let mut first = start;
    if first < end && chars[first] == '+' {
        first += 1;
    }
    let ghost digits = chars@.subrange(first as int, end as int);
    assert(digits =~= without_plus(s));
    if first == end {
        return None;
    }
    let mut value: u64 = 0;
    let mut i = first;
    while i < end
        invariant
            start <= first <= i <= end <= chars@.len(),
            digits == chars@.subrange(first as int, end as int),
            s == chars@.subrange(start as int, end as int),
            digits == without_plus(s),
            digits.len() > 0,
            forall|j: int| first <= j < i ==> is_digit(#[trigger] chars@[j]),
            value as nat == decimal_value(digits.take(i - first)),
            value <= max,
        decreases end - i,
    {
        let c = chars[i];
        if !('0' <= c && c <= '9') {
            assert(digits[i - first] == c);
            assert(!is_digit(digits[i - first]));
            return None;
        }
        let d = (c as u32 - '0' as u32) as u64;
        let next: u128 = value as u128 * 10 + d as u128;
        proof {
            let p = digits.take(i + 1 - first);
            assert(p.drop_last() =~= digits.take(i - first));
            assert(p.last() == c);
            assert(decimal_value(p) == next);
        }
        if next > max as u128 {
            proof {
                if all_digits(digits) {
                    lemma_decimal_prefix(digits, i + 1 - first);
                }
            }
            return None;
        }
        value = next as u64;
        i += 1;
    }
    assert(digits.take(end - first) =~= digits);
    Some(value)
}


/// The one-character string for the decimal digit `d`.
fn digit_str(d: u64) -> (s: &'static str)
    requires
        d < 10,
    ensures
        s@ == seq![digit_char(d as nat)],
{
    match d {
        0 => {
            proof {
                reveal_strlit("0");
            }
            "0"
        },
        1 => {
            proof {
                reveal_strlit("1");
            }
            "1"
        },
        2 => {
            proof {
                reveal_strlit("2");
            }
            "2"
        },
        3 => {
            proof {
                reveal_strlit("3");
            }
            "3"
        },
        4 => {
            proof {
                reveal_strlit("4");
            }
            "4"
        },
        5 => {
            proof {
                reveal_strlit("5");
            }
            "5"
        },
        6 => {
            proof {
                reveal_strlit("6");
            }
            "6"
        },
        7 => {
            proof {
                reveal_strlit("7");
            }
            "7"
        },
        8 => {
            proof {
                reveal_strlit("8");
            }
            "8"
        },
        _ => {
            proof {
                reveal_strlit("9");
            }
            "9"
        },
    }
}

/// The one-character string for the hexadecimal digit `d`.
fn hex_digit_str(d: u8) -> (s: &'static str)
    requires
        d < 16,
    ensures
        s@ == seq![hex_digit_char(d as nat)],
{
    if d < 10 {
        digit_str(d as u64)
    } else {
        match d {
        10 => {
            proof {
                reveal_strlit("a");
            }
            "a"
        },
        11 => {
            proof {
                reveal_strlit("b");
            }
            "b"
        },
        12 => {
            proof {
                reveal_strlit("c");
            }
            "c"
        },
        13 => {
            proof {
                reveal_strlit("d");
            }
            "d"
        },
        14 => {
            proof {
                reveal_strlit("e");
            }
            "e"
        },
            _ => {
                proof {
                    reveal_strlit("f");
                }
                "f"
            },
        }
    }
}

/// Appends the decimal notation of `n` to `s`.
pub fn push_decimal(s: &mut String, n: u64)
    ensures
        final(s)@ == old(s)@ + decimal(n as nat),
    decreases n,
{
    if n >= 10 {
        push_decimal(s, n / 10);
    }
    s.append(digit_str(n % 10));
    proof {
        if n >= 10 {
            assert(decimal(n as nat) == decimal((n / 10) as nat).push(digit_char((n % 10) as nat)));
        }
    }
    assert(s@ =~= old(s)@ + decimal(n as nat));
}

/// Appends `0x` and the two lowercase hexadecimal digits of `b`, as `{:#04x}` formats it.
pub fn push_hex_byte(s: &mut String, b: u8)
    ensures
        final(s)@ == old(s)@ + seq!['0', 'x', hex_digit_char((b / 16) as nat), hex_digit_char((b % 16) as nat)],
{
    proof {
        reveal_strlit("0x");
    }
    s.append("0x");
    s.append(hex_digit_str(b / 16));
    s.append(hex_digit_str(b % 16));
    assert(s@ =~= old(s)@ + seq!['0', 'x', hex_digit_char((b / 16) as nat), hex_digit_char((b % 16) as nat)]);
}

/// `find` picks the first index holding `c`, or the length where there is none.
pub proof fn lemma_find_is(s: Seq<char>, c: char, k: int)
    requires
        0 <= k <= s.len(),
        forall|j: int| 0 <= j < k ==> s[j] != c,
        k < s.len() ==> s[k] == c,
    ensures
        find(s, c) == k,
    decreases k,
{
    if k > 0 {
        let rest = s.drop_first();
        assert forall|j: int| 0 <= j < k - 1 implies rest[j] != c by {
            assert(rest[j] == s[j + 1]);
        }
        if k < s.len() {
            assert(rest[k - 1] == s[k]);
        }
        lemma_find_is(rest, c, k - 1);
    }
}

/// `find_last` picks the last index holding `c`.
pub proof fn lemma_find_last_is(s: Seq<char>, c: char, k: int)
    requires
        0 <= k < s.len(),
        s[k] == c,
        forall|j: int| k < j < s.len() ==> s[j] != c,
    ensures
        find_last(s, c) == k,
    decreases s.len(),
{
    if k < s.len() - 1 {
        let rest = s.drop_last();
        assert(s.last() == s[s.len() - 1]);
        assert forall|j: int| k < j < rest.len() implies rest[j] != c by {
            assert(rest[j] == s[j]);
        }
        lemma_find_last_is(rest, c, k);
    }
}

/// Index of the first `c` in `chars[a..b]`, or `b` where there is none.
pub fn find_char(chars: &Vec<char>, a: usize, b: usize, c: char) -> (i: usize)
    requires
        a <= b <= chars@.len(),
    ensures
        a <= i <= b,
        i - a == find(chars@.subrange(a as int, b as int), c),
        forall|j: int| a <= j < i ==> chars@[j] != c,
        i < b ==> chars@[i as int] == c,
{
    let mut i = a;
    while i < b
        invariant
            a <= i <= b <= chars@.len(),
            forall|j: int| a <= j < i ==> chars@[j] != c,
        ensures
            a <= i <= b,
            forall|j: int| a <= j < i ==> chars@[j] != c,
            i < b ==> chars@[i as int] == c,
        decreases b - i,
    {
        if chars[i] == c {
            break;
        }
        i += 1;
    }
    proof {
        let s = chars@.subrange(a as int, b as int);
        assert forall|j: int| 0 <= j < i - a implies s[j] != c by {
            assert(s[j] == chars@[a + j]);
        }
        if i < b {
            assert(s[i - a] == chars@[i as int]);
        }
        lemma_find_is(s, c, i - a);
    }
    i
}

/// Index of the last `c` in `chars[a..b]`, which holds at least one.
pub fn find_last_char(chars: &Vec<char>, a: usize, b: usize, c: char) -> (i: usize)
    requires
        a <= b <= chars@.len(),
        exists|j: int| a <= j < b && chars@[j] == c,
    ensures
        a <= i < b,
        i - a == find_last(chars@.subrange(a as int, b as int), c),
{
    let mut i = b;
    while i > a && chars[i - 1] != c
        invariant
            a <= i <= b <= chars@.len(),
            forall|j: int| i <= j < b ==> chars@[j] != c,
            exists|j: int| a <= j < b && chars@[j] == c,
        decreases i - a,
    {
        i -= 1;
    }
    proof {
        if i == a {
            let j = choose|j: int| a <= j < b && chars@[j] == c;
            assert(false);
        }
        let s = chars@.subrange(a as int, b as int);
        assert(s[i - 1 - a] == chars@[i - 1]);
        assert forall|j: int| i - 1 - a < j < s.len() implies s[j] != c by {
            assert(s[j] == chars@[a + j]);
        }
        lemma_find_last_is(s, c, i - 1 - a);
    }
    i - 1
}

/// How often `c` occurs in `chars[a..b]`.
pub fn count_char(chars: &Vec<char>, a: usize, b: usize, c: char) -> (n: usize)
    requires
        a <= b <= chars@.len(),
    ensures
        n == count(chars@.subrange(a as int, b as int), c),
        n > 0 ==> exists|j: int| a <= j < b && chars@[j] == c,
{
    let mut n: usize = 0;
    let mut i = a;
    assert(chars@.subrange(a as int, a as int) =~= Seq::<char>::empty());
    while i < b
        invariant
            a <= i <= b <= chars@.len(),
            n == count(chars@.subrange(a as int, i as int), c),
            n <= i - a,
            n > 0 ==> exists|j: int| a <= j < i && chars@[j] == c,
        decreases b - i,
    {
        assert(chars@.subrange(a as int, i + 1).drop_last() =~= chars@.subrange(a as int, i as int));
        if chars[i] == c {
            n += 1;
        }
        i += 1;
    }
    n
}

/// The characters `chars[a..b]`.
pub fn copy_range(chars: &Vec<char>, a: usize, b: usize) -> (v: Vec<char>)
    requires
        a <= b <= chars@.len(),
    ensures
        v@ == chars@.subrange(a as int, b as int),
{
    let mut v: Vec<char> = Vec::new();
    let mut i = a;
    while i < b
        invariant
            a <= i <= b <= chars@.len(),
            v@ == chars@.subrange(a as int, i as int),
        decreases b - i,
    {
        v.push(chars[i]);
        i += 1;
        assert(v@ =~= chars@.subrange(a as int, i as int));
    }
    v
}


/// Index of the first character of `chars[a..b]` that is not white space, or `b`; the
/// words of `chars[a..b]` are those from there.
pub fn skip_white_space(chars: &Vec<char>, a: usize, b: usize) -> (i: usize)
    requires
        a <= b <= chars@.len(),
    ensures
        a <= i <= b,
        i < b ==> !is_white_space(chars@[i as int]),
        words(chars@.subrange(a as int, b as int)) == words(chars@.subrange(i as int, b as int)),
{
    let mut i = a;
    while i < b && white_space(chars[i])
        invariant
            a <= i <= b <= chars@.len(),
            words(chars@.subrange(a as int, b as int)) == words(chars@.subrange(i as int, b as int)),
        decreases b - i,
    {
        let ghost s = chars@.subrange(i as int, b as int);
        assert(s[0] == chars@[i as int]);
        assert(s.drop_first() =~= chars@.subrange(i + 1, b as int));
        i += 1;
    }
    i
}

/// Where a word starts at `a`, the words of `chars[a..b]` are that word, up to the next
/// white space at the returned index, and the words after it.
pub fn word_end(chars: &Vec<char>, a: usize, b: usize) -> (e: usize)
    requires
        a < b <= chars@.len(),
        !is_white_space(chars@[a as int]),
    ensures
        a < e <= b,
        words(chars@.subrange(a as int, b as int)) == seq![chars@.subrange(a as int, e as int)]
            + words(chars@.subrange(e as int, b as int)),
{
    let mut e = a;
    while e < b && !white_space(chars[e])
        invariant
            a <= e <= b <= chars@.len(),
            forall|j: int| a <= j < e ==> !is_white_space(chars@[j]),
        decreases b - e,
    {
        e += 1;
    }
    proof {
        let s = chars@.subrange(a as int, b as int);
        lemma_find_white_space_is(s, e - a);
        assert(s.take(e - a) =~= chars@.subrange(a as int, e as int));
        assert(s.skip(e - a) =~= chars@.subrange(e as int, b as int));
        assert(s[0] == chars@[a as int]);
    }
    e
}

/// `find_white_space` picks the first white-space index, or the length.
proof fn lemma_find_white_space_is(s: Seq<char>, k: int)
    requires
        0 <= k <= s.len(),
        forall|j: int| 0 <= j < k ==> !is_white_space(#[trigger] s[j]),
        k < s.len() ==> is_white_space(s[k]),
    ensures
        find_white_space(s) == k,
    decreases k,
{
    if k > 0 {
        let rest = s.drop_first();
        assert forall|j: int| 0 <= j < k - 1 implies !is_white_space(#[trigger] rest[j]) by {
            assert(rest[j] == s[j + 1]);
        }
        if k < s.len() {
            assert(rest[k - 1] == s[k]);
        }
        lemma_find_white_space_is(rest, k - 1);
    }
}

/// Whether `chars[a..b]` holds the characters of `other`.
pub fn range_equals(chars: &Vec<char>, a: usize, b: usize, other: &Vec<char>) -> (same: bool)
    requires
        a <= b <= chars@.len(),
    ensures
        same == (chars@.subrange(a as int, b as int) == other@),
{
    if b - a != other.len() {
        return false;
    }
    let mut i: usize = 0;
    while i < other.len()
        invariant
            b - a == other@.len(),
            a <= b <= chars@.len(),
            i <= other@.len(),
            forall|j: int| 0 <= j < i ==> chars@[a + j] == other@[j],
        decreases other@.len() - i,
    {
        if chars[a + i] != other[i] {
            assert(chars@.subrange(a as int, b as int)[i as int] == chars@[a + i]);
            return false;
        }
        i += 1;
    }
    assert(chars@.subrange(a as int, b as int) =~= other@);
    true
}

} // verus!
