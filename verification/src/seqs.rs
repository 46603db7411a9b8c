//! Small generic helpers over sequences: first occurrence of an element and
//! distinctness of all elements.

use vstd::prelude::*;

verus! {

/// Index of the first occurrence of `x` in `s`, or `s.len()` when absent.
pub open spec fn find_first<T>(s: Seq<T>, x: T) -> int
    decreases s.len(),
{
    if s.len() == 0 {
        0
    } else if s[0] == x {
        0
    } else {
        1 + find_first(s.drop_first(), x)
    }
}

/// No two positions of `s` hold equal elements.
pub open spec fn distinct<T>(s: Seq<T>) -> bool {
    forall|p: int, q: int| 0 <= p < q < s.len() ==> s[p] != s[q]
}

/// `find_first` lands on the first occurrence: everything before it differs
/// from `x`, and it is in range exactly when `x` occurs at all.
pub proof fn lemma_find_first<T>(s: Seq<T>, x: T)
    ensures
        0 <= find_first(s, x) <= s.len(),
        s.contains(x) <==> find_first(s, x) < s.len(),
        find_first(s, x) < s.len() ==> s[find_first(s, x)] == x,
        forall|t: int| 0 <= t < find_first(s, x) ==> s[t] != x,
    decreases s.len(),
{
    if s.len() == 0 {
    } else if s[0] == x {
        assert(s.contains(x));
    } else {
        lemma_find_first(s.drop_first(), x);
        let rest = s.drop_first();
        assert forall|t: int| 0 <= t < find_first(s, x) implies s[t] != x by {
            if t > 0 {
                assert(s[t] == rest[t - 1]);
            }
        }
        if s.contains(x) {
            let w = choose|w: int| 0 <= w < s.len() && s[w] == x;
            assert(rest[w - 1] == x);
            assert(rest.contains(x));
        }
        if rest.contains(x) {
            let w = choose|w: int| 0 <= w < rest.len() && rest[w] == x;
            assert(s[w + 1] == x);
            assert(s.contains(x));
        }
    }
}

/// A position whose prefix is free of `x` and that either is the end or holds
/// `x` is exactly `find_first`.
pub proof fn lemma_find_first_is<T>(s: Seq<T>, x: T, i: int)
    requires
        0 <= i <= s.len(),
        forall|t: int| 0 <= t < i ==> s[t] != x,
        i == s.len() || s[i] == x,
    ensures
        find_first(s, x) == i,
    decreases s.len(),
{
    if s.len() == 0 {
    } else if s[0] == x {
        assert(i == 0);
    } else {
        let rest = s.drop_first();
        assert forall|t: int| 0 <= t < i - 1 implies rest[t] != x by {
            assert(rest[t] == s[t + 1]);
        }
        assert(i >= 1);
        assert(i - 1 == rest.len() || rest[i - 1] == x);
        lemma_find_first_is(rest, x, i - 1);
    }
}

} // verus!
