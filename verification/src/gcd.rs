//! Greatest common divisors, and the pair count of the "gcd of x and twice y"
//! problem that the example fuzz target solves.

use vstd::prelude::*;
use vstd::arithmetic::div_mod::{lemma_fundamental_div_mod, lemma_mod_multiples_vanish, lemma_small_mod};

verus! {

/// `d` is a positive divisor of both `a` and `b`.
pub open spec fn is_common_divisor(d: nat, a: nat, b: nat) -> bool {
    d > 0 && a % d == 0 && b % d == 0
}

/// `g` is the greatest common divisor of `a` and `b`; that of 0 and 0 is 0.
pub open spec fn is_gcd(g: nat, a: nat, b: nat) -> bool {
    if a == 0 && b == 0 {
        g == 0
    } else {
        &&& is_common_divisor(g, a, b)
        &&& forall|d: nat| #[trigger] is_common_divisor(d, a, b) ==> d <= g
    }
}

/// The greatest common divisor of `a` and `b` (0 for 0 and 0).
pub open spec fn gcd_spec(a: nat, b: nat) -> nat {
    choose|g: nat| is_gcd(g, a, b)
}

/// There is only one greatest common divisor.
pub proof fn lemma_gcd_unique(g: nat, a: nat, b: nat)
    requires
        is_gcd(g, a, b),
    ensures
        gcd_spec(a, b) == g,
{
    let h = gcd_spec(a, b);
    assert(is_gcd(h, a, b));
    if !(a == 0 && b == 0) {
        assert(is_common_divisor(h, a, b));
        assert(is_common_divisor(g, a, b));
    }
}

/// A divisor of `y` divides `x` exactly when it divides `x % y`.
proof fn lemma_divisor_of_remainder(x: nat, y: nat, d: nat)
    requires
        y > 0,
        d > 0,
        y % d == 0,
    ensures
        x % d == (x % y) % d,
{
    lemma_fundamental_div_mod(x as int, y as int);
    lemma_fundamental_div_mod(y as int, d as int);
    let q = x as int / y as int;
    let k = y as int / d as int;
    assert(y as int == d as int * k);
    assert(y as int * q == d as int * (k * q)) by (nonlinear_arith)
        requires
            y as int == d as int * k,
    ;
    lemma_mod_multiples_vanish(k * q, (x % y) as int, d as int);
}

/// A positive number is no smaller than any of its divisors.
proof fn lemma_divisor_bounded(x: nat, d: nat)
    requires
        x > 0,
        d > 0,
        x % d == 0,
    ensures
        d <= x,
{
    if d > x {
        lemma_small_mod(x, d);
    }
}

/// The greatest common divisor of `a` and `b`, by Euclid's algorithm.
pub fn gcd(a: usize, b: usize) -> (g: usize)
    ensures
        is_gcd(g as nat, a as nat, b as nat),
        g == gcd_spec(a as nat, b as nat),
        forall|d: nat| #[trigger] is_common_divisor(d, a as nat, b as nat) ==> g as nat % d == 0,
{
    let mut x = a;
    let mut y = b;
    while y != 0
        invariant
            forall|d: nat| #[trigger]
                is_common_divisor(d, x as nat, y as nat) == is_common_divisor(
                    d,
                    a as nat,
                    b as nat,
                ),
        decreases y,
    {
        let r = x % y;
        proof {
            assert forall|d: nat| #[trigger]
                is_common_divisor(d, y as nat, r as nat) == is_common_divisor(
                    d,
                    x as nat,
                    y as nat,
                ) by {
                if d > 0 && y as nat % d == 0 {
                    lemma_divisor_of_remainder(x as nat, y as nat, d);
                }
            }
        }
        x = y;
        y = r;
    }
    proof {
        if x > 0 {
            assert(is_common_divisor(x as nat, x as nat, 0));
            assert forall|d: nat| #[trigger] is_common_divisor(d, a as nat, b as nat) implies d
                <= x by {
                assert(is_common_divisor(d, x as nat, 0));
                lemma_divisor_bounded(x as nat, d);
            }
            if a == 0 && b == 0 {
                assert(is_common_divisor(x as nat + 1, 0, 0));
                assert(is_common_divisor(x as nat + 1, x as nat, 0));
                lemma_small_mod(x as nat, x as nat + 1);
            }
        } else {
            if !(a == 0 && b == 0) {
                let big: nat = a as nat + b as nat + 1;
                assert(is_common_divisor(big, 0, 0));
                assert(is_common_divisor(big, a as nat, b as nat));
                lemma_small_mod(a as nat, big);
                lemma_small_mod(b as nat, big);
            }
        }
        lemma_gcd_unique(x as nat, a as nat, b as nat);
        assert forall|d: nat| #[trigger] is_common_divisor(d, a as nat, b as nat) implies x as nat
            % d == 0 by {
            assert(is_common_divisor(d, x as nat, 0));
        }
    }
    x
}

/// The even elements of `s`, in order.
pub open spec fn evens(s: Seq<usize>) -> Seq<usize>
    decreases s.len(),
{
    if s.len() == 0 {
        Seq::empty()
    } else if s.last() % 2 == 0 {
        evens(s.drop_last()).push(s.last())
    } else {
        evens(s.drop_last())
    }
}

/// The odd elements of `s`, in order.
pub open spec fn odds(s: Seq<usize>) -> Seq<usize>
    decreases s.len(),
{
    if s.len() == 0 {
        Seq::empty()
    } else if s.last() % 2 == 1 {
        odds(s.drop_last()).push(s.last())
    } else {
        odds(s.drop_last())
    }
}

/// `s` sorted stably by parity: the even elements first, then the odd ones,
/// each group in its original order.
pub open spec fn parity_sorted(s: Seq<usize>) -> Seq<usize> {
    evens(s) + odds(s)
}

/// The greatest common divisor of `x` and `2 * y` exceeds 1.
pub open spec fn good_pair(x: usize, y: usize) -> bool {
    gcd_spec(x as nat, 2 * (y as nat)) > 1
}

/// The number of `k` with `i < k < j` such that `(s[i], s[k])` is a good pair.
pub open spec fn row_count(s: Seq<usize>, i: int, j: int) -> nat
    decreases j - i,
{
    if j <= i + 1 {
        0
    } else {
        row_count(s, i, j - 1) + (if good_pair(s[i], s[j - 1]) {
            1nat
        } else {
            0nat
        })
    }
}

/// The number of good pairs `(s[i], s[k])` with `i < m` and `i < k`.
pub open spec fn rows_count(s: Seq<usize>, m: int) -> nat
    decreases m,
{
    if m <= 0 {
        0
    } else {
        rows_count(s, m - 1) + row_count(s, m - 1, s.len() as int)
    }
}

/// The number of index pairs `i < j` of `s` for which `(s[i], s[j])` is a
/// good pair.
pub open spec fn gcd_pair_count(s: Seq<usize>) -> nat {
    rows_count(s, s.len() as int)
}

/// Some pair `i < j` of `s` has a greatest common divisor of `s[i]` and
/// `2 * s[j]` above 1.
pub open spec fn has_good_pair(s: Seq<usize>) -> bool {
    exists|i: int, j: int|
        0 <= i < j < s.len() && #[trigger] gcd_spec(s[i] as nat, 2 * (s[j] as nat)) > 1
}

proof fn lemma_row_count_positive(s: Seq<usize>, i: int, j: int)
    requires
        0 <= i,
        j <= s.len(),
    ensures
        row_count(s, i, j) > 0 <==> exists|k: int|
            i < k < j && 0 <= k < s.len() && #[trigger] gcd_spec(s[i] as nat, 2 * (s[k] as nat)) > 1,
    decreases j - i,
{
    if j > i + 1 {
        lemma_row_count_positive(s, i, j - 1);
        if row_count(s, i, j) > 0 {
            if row_count(s, i, j - 1) > 0 {
                let k = choose|k: int|
                    i < k < j - 1 && 0 <= k < s.len() && #[trigger] gcd_spec(
                        s[i] as nat,
                        2 * (s[k] as nat),
                    ) > 1;
                assert(gcd_spec(s[i] as nat, 2 * (s[k] as nat)) > 1);
            } else {
                assert(good_pair(s[i], s[j - 1]));
                assert(gcd_spec(s[i] as nat, 2 * (s[j - 1] as nat)) > 1);
            }
        }
        if exists|k: int|
            i < k < j && 0 <= k < s.len() && #[trigger] gcd_spec(s[i] as nat, 2 * (s[k] as nat)) > 1 {
            let k = choose|k: int|
                i < k < j && 0 <= k < s.len() && #[trigger] gcd_spec(s[i] as nat, 2 * (s[k] as nat))
                    > 1;
            if k < j - 1 {
                assert(gcd_spec(s[i] as nat, 2 * (s[k] as nat)) > 1);
            } else {
                assert(good_pair(s[i], s[j - 1]));
            }
        }
    } else {
        assert(row_count(s, i, j) == 0);
    }
}

/// The pair count is positive exactly when some pair `i < j` has a
/// greatest common divisor of `s[i]` and `2 * s[j]` above 1.
pub proof fn law_pair_count_positive(s: Seq<usize>)
    ensures
        gcd_pair_count(s) > 0 <==> has_good_pair(s),
{
    lemma_rows_count_positive(s, s.len() as int);
}

proof fn lemma_rows_count_positive(s: Seq<usize>, m: int)
    requires
        m <= s.len(),
    ensures
        rows_count(s, m) > 0 <==> exists|i: int, j: int|
            0 <= i < m && i < j < s.len() && #[trigger] gcd_spec(s[i] as nat, 2 * (s[j] as nat))
                > 1,
    decreases m,
{
    if m > 0 {
        lemma_rows_count_positive(s, m - 1);
        lemma_row_count_positive(s, m - 1, s.len() as int);
        if rows_count(s, m) > 0 {
            if !(rows_count(s, m - 1) > 0) {
                let k = choose|k: int|
                    m - 1 < k < s.len() && 0 <= k < s.len() && #[trigger] gcd_spec(
                        s[m - 1] as nat,
                        2 * (s[k] as nat),
                    ) > 1;
                assert(gcd_spec(s[m - 1] as nat, 2 * (s[k] as nat)) > 1);
            }
        }
        if exists|i: int, j: int|
            0 <= i < m && i < j < s.len() && #[trigger] gcd_spec(s[i] as nat, 2 * (s[j] as nat))
                > 1 {
            let (i, j) = choose|i: int, j: int|
                0 <= i < m && i < j < s.len() && #[trigger] gcd_spec(s[i] as nat, 2 * (s[j] as nat))
                    > 1;
            if i == m - 1 {
                assert(m - 1 < j < s.len() && 0 <= j < s.len());
            }
        }
    }
}

/// Every element of `s` after the first can be doubled within `usize`.
pub open spec fn doubles_fit(s: Seq<usize>) -> bool {
    forall|j: int| 1 <= j < s.len() ==> 2 * s[j] <= usize::MAX
}

/// Sorting by parity keeps every element: the result is a permutation of
/// the input, as long as it, with the even elements first and the odd ones
/// after.
pub proof fn law_parity_sort_is_permutation(s: Seq<usize>)
    ensures
        parity_sorted(s).len() == s.len(),
        parity_sorted(s).to_multiset() == s.to_multiset(),
        forall|k: int| 0 <= k < evens(s).len() ==> #[trigger] parity_sorted(s)[k] % 2 == 0,
        forall|k: int|
            evens(s).len() <= k < s.len() ==> #[trigger] parity_sorted(s)[k] % 2 == 1,
    decreases s.len(),
{
    broadcast use vstd::multiset::group_multiset_axioms;
    if s.len() > 0 {
        let p = s.drop_last();
        law_parity_sort_is_permutation(p);
        assert(s =~= p + seq![s.last()]);
        vstd::seq_lib::lemma_multiset_commutative(evens(s), odds(s));
        vstd::seq_lib::lemma_multiset_commutative(evens(p), odds(p));
        if s.last() % 2 == 0 {
            vstd::seq_lib::lemma_multiset_commutative(evens(p), seq![s.last()]);
            assert(evens(s) =~= evens(p) + seq![s.last()]);
        } else {
            vstd::seq_lib::lemma_multiset_commutative(odds(p), seq![s.last()]);
            assert(odds(s) =~= odds(p) + seq![s.last()]);
        }
        vstd::seq_lib::lemma_multiset_commutative(p, seq![s.last()]);
        assert(parity_sorted(p).to_multiset() =~= p.to_multiset());
        assert(parity_sorted(s).to_multiset() =~= s.to_multiset()) by {
            if s.last() % 2 == 0 {
                assert(odds(s) == odds(p));
            } else {
                assert(evens(s) == evens(p));
            }
        }
        assert forall|k: int| 0 <= k < evens(s).len() implies #[trigger] parity_sorted(s)[k] % 2
            == 0 by {
            if k < evens(p).len() {
                assert(parity_sorted(p)[k] % 2 == 0);
            }
        }
        assert forall|k: int| evens(s).len() <= k < s.len() implies #[trigger] parity_sorted(
            s,
        )[k] % 2 == 1 by {
            if s.last() % 2 == 0 {
                assert(parity_sorted(p)[k - 1] % 2 == 1);
            } else if k < s.len() - 1 {
                assert(parity_sorted(p)[k] % 2 == 1);
            }
        }
    } else {
        assert(parity_sorted(s) =~= s);
    }
}

/// Sort stably by parity: the even elements first, then the odd ones.
pub fn sort_by_parity(a: &[usize]) -> (s: Vec<usize>)
    ensures
        s@ == parity_sorted(a@),
{
    let mut s: Vec<usize> = Vec::new();
    let n = a.len();
    let mut i: usize = 0;
    while i < n
        invariant
            n == a@.len(),
            i <= n,
            s@ == evens(a@.take(i as int)),
        decreases n - i,
    {
        assert(a@.take(i + 1).drop_last() =~= a@.take(i as int));
        if a[i] % 2 == 0 {
            s.push(a[i]);
        }
        i = i + 1;
    }
    assert(a@.take(n as int) =~= a@);
    let ghost evens_len = s@.len();
    let mut i: usize = 0;
    while i < n
        invariant
            n == a@.len(),
            i <= n,
            s@ == evens(a@) + odds(a@.take(i as int)),
        decreases n - i,
    {
        assert(a@.take(i + 1).drop_last() =~= a@.take(i as int));
        if a[i] % 2 == 1 {
            s.push(a[i]);
            assert(evens(a@) + odds(a@.take(i + 1)) =~= (evens(a@) + odds(a@.take(i as int))).push(
                a[i as int],
            ));
        }
        i = i + 1;
    }
    s
}

/// Whether every element after the first can be doubled within `usize`.
pub fn doubles_fit_check(s: &[usize]) -> (r: bool)
    ensures
        r == doubles_fit(s@),
{
    let n = s.len();
    let mut j: usize = 1;
    while j < n
        invariant
            n == s@.len(),
            1 <= j,
            forall|k: int| 1 <= k < j && k < n ==> 2 * s@[k] <= usize::MAX,
        decreases n - j,
    {
        if s[j] > usize::MAX / 2 {
            return false;
        }
        j = j + 1;
    }
    true
}

proof fn lemma_row_count_mono(s: Seq<usize>, i: int, j: int, k: int)
    requires
        j <= k,
    ensures
        row_count(s, i, j) <= row_count(s, i, k),
    decreases k - j,
{
    if j < k {
        lemma_row_count_mono(s, i, j, k - 1);
    }
}

proof fn lemma_rows_count_mono(s: Seq<usize>, m1: int, m2: int)
    requires
        0 <= m1 <= m2,
    ensures
        rows_count(s, m1) <= rows_count(s, m2),
    decreases m2 - m1,
{
    if m1 < m2 {
        lemma_rows_count_mono(s, m1, m2 - 1);
    }
}

/// The number of good pairs among the elements of an already parity-sorted
/// sequence, where it fits in `usize`; `None` where it does not.
pub fn count_sorted_pairs_checked(s: &[usize]) -> (r: Option<usize>)
    requires
        doubles_fit(s@),
    ensures
        match r {
            Some(c) => c == gcd_pair_count(s@),
            None => gcd_pair_count(s@) > usize::MAX,
        },
{
    let n = s.len();
    let mut cnt: usize = 0;
    let mut i: usize = 0;
    while i < n
        invariant
            n == s@.len(),
            doubles_fit(s@),
            i <= n,
            cnt == rows_count(s@, i as int),
        decreases n - i,
    {
        let mut j: usize = i + 1;
        while j < n
            invariant
                n == s@.len(),
                doubles_fit(s@),
                i < n,
                i + 1 <= j <= n,
                cnt == rows_count(s@, i as int) + row_count(s@, i as int, j as int),
            decreases n - j,
        {
            let g = gcd(s[i], 2 * s[j]);
            if g > 1 {
                if cnt == usize::MAX {
                    proof {
                        assert(row_count(s@, i as int, j + 1) == row_count(s@, i as int, j as int)
                            + 1);
                        lemma_row_count_mono(s@, i as int, j + 1, n as int);
                        assert(rows_count(s@, i + 1) == rows_count(s@, i as int) + row_count(
                            s@,
                            i as int,
                            n as int,
                        ));
                        lemma_rows_count_mono(s@, i + 1, n as int);
                    }
                    return None;
                }
                cnt = cnt + 1;
            }
            j = j + 1;
        }
        i = i + 1;
    }
    Some(cnt)
}

/// The number of good pairs among the elements of an already parity-sorted
/// sequence.
pub fn count_sorted_pairs(s: &[usize]) -> (cnt: usize)
    requires
        doubles_fit(s@),
        gcd_pair_count(s@) <= usize::MAX,
    ensures
        cnt == gcd_pair_count(s@),
{
    match count_sorted_pairs_checked(s) {
        Some(c) => c,
        None => 0,
    }
}

/// The number of index pairs `i < j` of `a`, sorted stably by parity, whose
/// elements have a greatest common divisor of `a[i]` and `2 * a[j]` above 1.
pub fn count_gcd_pairs(a: &[usize]) -> (cnt: usize)
    requires
        doubles_fit(parity_sorted(a@)),
        gcd_pair_count(parity_sorted(a@)) <= usize::MAX,
    ensures
        cnt == gcd_pair_count(parity_sorted(a@)),
{
    let s = sort_by_parity(a);
    count_sorted_pairs(s.as_slice())
}

/// The values one case of the program counts over: the first `n` of `a`
/// sorted stably by parity (all of them where `a` holds fewer).
pub open spec fn case_values(n: usize, a: Seq<usize>) -> Seq<usize> {
    parity_sorted(a).take(if n <= a.len() { n as int } else { a.len() as int })
}

/// Whether the program can count a case: it claims `n` values and reads
/// past the end of a shorter list as soon as there is a pair to examine;
/// every value it doubles fits; and the count fits in `usize`.
pub open spec fn case_countable(n: usize, a: Seq<usize>) -> bool {
    &&& (n < 2 || n <= a.len())
    &&& doubles_fit(case_values(n, a))
    &&& gcd_pair_count(case_values(n, a)) <= usize::MAX
}

/// One case of the program: the number of good pairs among the first `n`
/// parity-sorted values of `a`; `None` where the program could not count it
/// (it would index past `a`, or a doubling or the count would overflow).
pub fn case_pair_count(n: usize, a: &[usize]) -> (r: Option<usize>)
    ensures
        r is Some <==> case_countable(n, a@),
        r matches Some(c) ==> c == gcd_pair_count(case_values(n, a@)),
{
    proof {
        law_parity_sort_is_permutation(a@);
    }
    if n >= 2 && n > a.len() {
        return None;
    }
    let s = sort_by_parity(a);
    let m = if n <= a.len() { n } else { a.len() };
    let vals = &s.as_slice()[0..m];
    assert(vals@ =~= case_values(n, a@));
    if !doubles_fit_check(vals) {
        return None;
    }
    count_sorted_pairs_checked(vals)
}

} // verus!
