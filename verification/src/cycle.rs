//! The rate cycler: the cyclic successor of the active rate in the
//! ordered list of allowed rates.

use vstd::prelude::*;

verus! {

/// The cyclic successor of `current` in `s`: the element after the first
/// occurrence of `current`, wrapping from the last element to the first;
/// `s[0]` when `current` does not occur in `s`.
pub open spec fn next_of(s: Seq<u32>, current: u32) -> u32
    recommends
        s.len() > 0,
{
    match s.index_of_first(current) {
        Some(i) => s[(i + 1) % (s.len() as int)],
        None => s[0],
    }
}

/// All elements of `s` are distinct.
pub open spec fn distinct(s: Seq<u32>) -> bool {
    forall|i: int, j: int| 0 <= i < j < s.len() ==> s[i] != s[j]
}

/// `s` is sorted strictly ascending (hence duplicate-free).
pub open spec fn strictly_increasing(s: Seq<u32>) -> bool {
    forall|i: int, j: int| 0 <= i < j < s.len() ==> s[i] < s[j]
}

/// Return the next allowed rate in cyclic order after `current`, or the
/// first allowed rate when `current` is not an allowed rate.
pub fn next_rate(options: &Vec<u32>, current: u32) -> (r: u32)
    requires
        options@.len() > 0,
    ensures
        r == next_of(options@, current),
{
    let n = options.len();
    let mut i: usize = 0;
    while i < n
        invariant
            n == options@.len(),
            0 < n,
            i <= n,
            forall|j: int| 0 <= j < i ==> options@[j] != current,
        decreases n - i,
    {
        if options[i] == current {
            proof {
                options@.index_of_first_ensures(current);
                assert(options@.index_of_first(current) == Some(i as int));
                if i + 1 == n {
                    vstd::arithmetic::div_mod::lemma_mod_self_0(n as int);
                } else {
                    vstd::arithmetic::div_mod::lemma_small_mod((i + 1) as nat, n as nat);
                }
            }
            let k = if i + 1 == n {
                0
            } else {
                i + 1
            };
            return options[k];
        }
        i += 1;
    }
    proof {
        options@.index_of_first_ensures(current);
        assert(!options@.contains(current));
    }
    options[0]
}

/// A strictly increasing sequence is duplicate-free.
pub proof fn lemma_strictly_increasing_distinct(s: Seq<u32>)
    requires
        strictly_increasing(s),
    ensures
        distinct(s),
{
    assert forall|i: int, j: int| 0 <= i < j < s.len() implies s[i] != s[j] by {
        assert(s[i] < s[j]);
    }
}

/// Two strictly increasing sequences over the same set of values are the
/// same sequence: sorting and deduplicating normalizes uniquely.
pub proof fn lemma_sorted_unique(a: Seq<u32>, b: Seq<u32>)
    requires
        strictly_increasing(a),
        strictly_increasing(b),
        a.to_set() == b.to_set(),
    ensures
        a == b,
    decreases a.len(),
{
    assert forall|y: u32| a.contains(y) <==> b.contains(y) by {
        assert(a.to_set().contains(y) == a.contains(y));
        assert(b.to_set().contains(y) == b.contains(y));
    }
    if a.len() == 0 {
        if b.len() > 0 {
            assert(b.contains(b[0]));
            assert(false);
        }
        assert(a =~= b);
    } else if b.len() == 0 {
        assert(a.contains(a[0]));
        assert(false);
    } else {
        assert(a[0] == b[0]) by {
            assert(a.contains(a[0]));
            let k = choose|k: int| 0 <= k < b.len() && b[k] == a[0];
            assert(b[0] <= b[k]);
            assert(b.contains(b[0]));
            let k2 = choose|k2: int| 0 <= k2 < a.len() && a[k2] == b[0];
            assert(a[0] <= a[k2]);
        }
        let a1 = a.drop_first();
        let b1 = b.drop_first();
        assert forall|y: u32| a1.contains(y) <==> b1.contains(y) by {
            assert forall|t: int| 0 <= t < a1.len() implies a1[t] == a[t + 1] by {}
            assert forall|t: int| 0 <= t < b1.len() implies b1[t] == b[t + 1] by {}
            if a1.contains(y) {
                let t = choose|t: int| 0 <= t < a1.len() && a1[t] == y;
                assert(a[t + 1] == y && a[0] < a[t + 1]);
                assert(b.contains(y));
                let w = choose|w: int| 0 <= w < b.len() && b[w] == y;
                assert(w != 0);
                assert(b1[w - 1] == y);
            }
            if b1.contains(y) {
                let t = choose|t: int| 0 <= t < b1.len() && b1[t] == y;
                assert(b[t + 1] == y && b[0] < b[t + 1]);
                assert(a.contains(y));
                let w = choose|w: int| 0 <= w < a.len() && a[w] == y;
                assert(w != 0);
                assert(a1[w - 1] == y);
            }
        }
        assert(a1.to_set() =~= b1.to_set()) by {
            assert forall|y: u32| a1.to_set().contains(y) == b1.to_set().contains(y) by {
                assert(a1.to_set().contains(y) == a1.contains(y));
                assert(b1.to_set().contains(y) == b1.contains(y));
            }
        }
        lemma_sorted_unique(a1, b1);
        assert(a =~= b) by {
            assert forall|t: int| 0 <= t < a.len() implies a[t] == b[t] by {
                if t > 0 {
                    assert(a1[t - 1] == b1[t - 1]);
                }
            }
        }
    }
}

/// The cyclic successor of the member at index `i` is the member at the
/// next index, wrapping from the last index to the first.
pub proof fn lemma_next_of_member(s: Seq<u32>, i: int)
    requires
        s.len() > 0,
        distinct(s),
        0 <= i < s.len(),
    ensures
        next_of(s, s[i]) == s[(i + 1) % (s.len() as int)],
{
    assert(s.contains(s[i]));
    s.index_of_first_ensures(s[i]);
    match s.index_of_first(s[i]) {
        Some(idx) => {
            if idx < i {
                assert(s[idx] != s[i]);
            } else if idx > i {
                assert(s[i] != s[i]);
            }
        },
        None => {
            assert(false);
        },
    }
}

/// A value outside the allowed set steps to the first allowed value.
pub proof fn lemma_next_of_absent(s: Seq<u32>, current: u32)
    requires
        s.len() > 0,
        !s.contains(current),
    ensures
        next_of(s, current) == s[0],
{
    s.index_of_first_ensures(current);
}

/// `next_of` applied `n` times, starting from `start`.
pub open spec fn iterate_next(s: Seq<u32>, start: u32, n: nat) -> u32
    decreases n,
{
    if n == 0 {
        start
    } else {
        iterate_next(s, next_of(s, start), (n - 1) as nat)
    }
}

/// After `n` steps from the member at index `i`, the cycle stands at the
/// member at index `(i + n) % s.len()`.
pub proof fn lemma_iterate_from_index(s: Seq<u32>, i: int, n: nat)
    requires
        s.len() > 0,
        distinct(s),
        0 <= i < s.len(),
    ensures
        iterate_next(s, s[i], n) == s[(i + n) % (s.len() as int)],
    decreases n,
{
    let m = s.len() as int;
    if n == 0 {
        vstd::arithmetic::div_mod::lemma_small_mod(i as nat, s.len());
    } else {
        lemma_next_of_member(s, i);
        let i1 = (i + 1) % m;
        assert(0 <= i1 < m) by {
            vstd::arithmetic::div_mod::lemma_mod_bound(i + 1, m);
        }
        lemma_iterate_from_index(s, i1, (n - 1) as nat);
        assert((i1 + (n - 1)) % m == (i + n) % m) by {
            vstd::arithmetic::div_mod::lemma_add_mod_noop_right(i + 1, n - 1, m);
            vstd::arithmetic::div_mod::lemma_add_mod_noop(i + 1, n - 1, m);
            vstd::arithmetic::div_mod::lemma_add_mod_noop_right((i + 1) % m, n - 1, m);
        }
    }
}

/// Full cycle closure: applying the cyclic successor exactly `s.len()`
/// times to any member of `s` returns to that member.
pub proof fn lemma_cycle_closure(s: Seq<u32>, i: int)
    requires
        distinct(s),
        0 <= i < s.len(),
    ensures
        iterate_next(s, s[i], s.len()) == s[i],
{
    let m = s.len() as int;
    lemma_iterate_from_index(s, i, s.len());
    assert((i + m) % m == i) by {
        vstd::arithmetic::div_mod::lemma_mod_add_multiples_vanish(i, m);
        vstd::arithmetic::div_mod::lemma_small_mod(i as nat, s.len());
    }
}

} // verus!
