//! Single-scan multi-delimiter search: a mathematical model of "first
//! occurrence of one of up to three bytes" and the trusted contracts for the
//! `memchr` routines that perform that search on slices.
use vstd::prelude::*;

verus! {

/// True when `x` is one of the three needle bytes.
pub open spec fn hit3(x: u8, a: u8, b: u8, c: u8) -> bool {
    x == a || x == b || x == c
}

/// Index of the first byte of `s` equal to `a`, `b` or `c`, if any.
pub open spec fn find3(s: Seq<u8>, a: u8, b: u8, c: u8) -> Option<int>
    decreases s.len(),
{
    if s.len() == 0 {
        None
    } else if hit3(s[0], a, b, c) {
        Some(0int)
    } else {
        match find3(s.skip(1), a, b, c) {
            Some(i) => Some(i + 1),
            None => None,
        }
    }
}

/// `find3` returns the first hit: the returned index holds a needle byte and
/// nothing before it does; `None` means no byte of `s` is a needle.
pub proof fn lemma_find3(s: Seq<u8>, a: u8, b: u8, c: u8)
    ensures
        match find3(s, a, b, c) {
            Some(i) => 0 <= i < s.len() && hit3(s[i], a, b, c) && (forall|j: int|
                0 <= j < i ==> !hit3(s[j], a, b, c)),
            None => forall|j: int| 0 <= j < s.len() ==> !hit3(s[j], a, b, c),
        },
    decreases s.len(),
{
    if s.len() == 0 {
    } else if hit3(s[0], a, b, c) {
    } else {
        lemma_find3(s.skip(1), a, b, c);
        match find3(s.skip(1), a, b, c) {
            Some(i) => {
                assert(s.skip(1)[i] == s[i + 1]);
                assert forall|j: int| 0 <= j < i + 1 implies !hit3(s[j], a, b, c) by {
                    if j > 0 {
                        assert(s.skip(1)[j - 1] == s[j]);
                    }
                }
            },
            None => {
                assert forall|j: int| 0 <= j < s.len() implies !hit3(s[j], a, b, c) by {
                    if j > 0 {
                        assert(s.skip(1)[j - 1] == s[j]);
                    }
                }
            },
        }
    }
}

/// A position whose prefix is needle-free and that holds a needle byte is
/// exactly what `find3` returns.
pub proof fn lemma_find3_is(s: Seq<u8>, a: u8, b: u8, c: u8, i: int)
    requires
        0 <= i < s.len(),
        hit3(s[i], a, b, c),
        forall|j: int| 0 <= j < i ==> !hit3(s[j], a, b, c),
    ensures
        find3(s, a, b, c) == Some(i),
{
    lemma_find3(s, a, b, c);
    match find3(s, a, b, c) {
        Some(m) => {
            if m < i {
                assert(!hit3(s[m], a, b, c));
            }
            if i < m {
                assert(!hit3(s[i], a, b, c));
            }
        },
        None => {
            assert(!hit3(s[i], a, b, c));
        },
    }
}

/// When no byte of `s` is a needle, `find3` returns `None`.
pub proof fn lemma_find3_none(s: Seq<u8>, a: u8, b: u8, c: u8)
    requires
        forall|j: int| 0 <= j < s.len() ==> !hit3(s[j], a, b, c),
    ensures
        find3(s, a, b, c) == None::<int>,
{
    lemma_find3(s, a, b, c);
    match find3(s, a, b, c) {
        Some(m) => {
            assert(hit3(s[m], a, b, c));
        },
        None => {},
    }
}

/// Dropping a needle-free prefix shifts the result of `find3`.
pub proof fn lemma_find3_skip(s: Seq<u8>, a: u8, b: u8, c: u8, n: int)
    requires
        0 <= n <= s.len(),
        forall|j: int| 0 <= j < n ==> !hit3(s[j], a, b, c),
    ensures
        find3(s, a, b, c) == match find3(s.skip(n), a, b, c) {
            Some(i) => Some(i + n),
            None => None::<int>,
        },
{
    lemma_find3(s.skip(n), a, b, c);
    match find3(s.skip(n), a, b, c) {
        Some(i) => {
            assert(s.skip(n)[i] == s[n + i]);
            assert forall|j: int| 0 <= j < n + i implies !hit3(s[j], a, b, c) by {
                if j >= n {
                    assert(s.skip(n)[j - n] == s[j]);
                }
            }
            lemma_find3_is(s, a, b, c, n + i);
        },
        None => {
            assert forall|j: int| 0 <= j < s.len() implies !hit3(s[j], a, b, c) by {
                if j >= n {
                    assert(s.skip(n)[j - n] == s[j]);
                }
            }
            lemma_find3_none(s, a, b, c);
        },
    }
}

/// Relies on `memchr::memchr`: returns the index of the first occurrence of
/// `needle` in `haystack`, or `None` when it does not occur.
pub assume_specification [ memchr::memchr ](needle: u8, haystack: &[u8]) -> (r: Option<usize>)
    ensures
        match r {
            Some(i) => i < haystack@.len() && haystack@[i as int] == needle && (forall|j: int|
                0 <= j < i ==> haystack@[j] != needle),
            None => forall|j: int| 0 <= j < haystack@.len() ==> haystack@[j] != needle,
        },
;

/// Relies on `memchr::memchr2`: returns the index of the first occurrence of
/// either needle byte in `haystack`, or `None` when neither occurs.
pub assume_specification [ memchr::memchr2 ](needle1: u8, needle2: u8, haystack: &[u8]) -> (r:
    Option<usize>)
    ensures
        match r {
            Some(i) => i < haystack@.len() && hit3(haystack@[i as int], needle1, needle2, needle2)
                && (forall|j: int| 0 <= j < i ==> !hit3(haystack@[j], needle1, needle2, needle2)),
            None => forall|j: int|
                0 <= j < haystack@.len() ==> !hit3(haystack@[j], needle1, needle2, needle2),
        },
;

/// Relies on `memchr::memchr3`: returns the index of the first occurrence of
/// any of the three needle bytes in `haystack`, or `None` when none occurs.
pub assume_specification [ memchr::memchr3 ](
    needle1: u8,
    needle2: u8,
    needle3: u8,
    haystack: &[u8],
) -> (r: Option<usize>)
    ensures
        match r {
            Some(i) => i < haystack@.len() && hit3(haystack@[i as int], needle1, needle2, needle3)
                && (forall|j: int| 0 <= j < i ==> !hit3(haystack@[j], needle1, needle2, needle3)),
            None => forall|j: int|
                0 <= j < haystack@.len() ==> !hit3(haystack@[j], needle1, needle2, needle3),
        },
;

} // verus!
