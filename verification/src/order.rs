//! Orders: the order of strings, sorting by insertion, and removing
//! repeated neighbours.

use vstd::prelude::*;

verus! {

/// `a` comes before `b` in the order of `String`: byte by byte in UTF-8,
/// which is character by character by code point.
pub open spec fn lex_lt(a: Seq<char>, b: Seq<char>) -> bool
    decreases a.len(),
{
    if a.len() == 0 {
        b.len() > 0
    } else if b.len() == 0 {
        false
    } else if a[0] != b[0] {
        (a[0] as u32) < (b[0] as u32)
    } else {
        lex_lt(a.drop_first(), b.drop_first())
    }
}

/// Where `x` goes in `s` when it is placed before the first element at or
/// after `k` that it comes before.
pub open spec fn insert_index<A>(s: Seq<A>, x: A, before: spec_fn(A, A) -> bool, k: int) -> int
    decreases s.len() - k,
{
    if k >= s.len() {
        s.len() as int
    } else if before(x, s[k]) {
        k
    } else {
        insert_index(s, x, before, k + 1)
    }
}

/// `s` sorted by insertion: each element, in order, goes before the first
/// element already placed that it comes before.
pub open spec fn insertion_sort<A>(s: Seq<A>, before: spec_fn(A, A) -> bool) -> Seq<A>
    decreases s.len(),
{
    if s.len() == 0 {
        s
    } else {
        let t = insertion_sort(s.drop_last(), before);
        t.insert(insert_index(t, s.last(), before, 0), s.last())
    }
}

/// `s` with each run of equal neighbours cut to one (`Vec::dedup`).
pub open spec fn dedup<A>(s: Seq<A>) -> Seq<A>
    decreases s.len(),
{
    if s.len() <= 1 {
        s
    } else if s.last() == s[s.len() - 2] {
        dedup(s.drop_last())
    } else {
        dedup(s.drop_last()).push(s.last())
    }
}

/// Numbers ordered from small to large.
pub open spec fn num_before(a: usize, b: usize) -> bool {
    a < b
}

/// `s` in increasing order with each value once (`sort` then `dedup`).
pub open spec fn sorted_unique(s: Seq<usize>) -> Seq<usize> {
    dedup(insertion_sort(s, |a: usize, b: usize| num_before(a, b)))
}

/// The total of `f` over `s`.
pub open spec fn sum_of<A>(s: Seq<A>, f: spec_fn(A) -> nat) -> nat
    decreases s.len(),
{
    if s.len() == 0 {
        0
    } else {
        sum_of(s.drop_last(), f) + f(s.last())
    }
}

// ---------------------------------------------------------------------------
// Lemmas
// ---------------------------------------------------------------------------

/// The insertion index lies within the sequence, at or after `k`.
pub proof fn lemma_insert_index_bounds<A>(s: Seq<A>, x: A, before: spec_fn(A, A) -> bool, k: int)
    requires
        0 <= k <= s.len(),
    ensures
        k <= insert_index(s, x, before, k) <= s.len(),
    decreases s.len() - k,
{
    if k < s.len() && !before(x, s[k]) {
        lemma_insert_index_bounds(s, x, before, k + 1);
    }
}

/// Sorting keeps the length.
pub proof fn lemma_sort_len<A>(s: Seq<A>, before: spec_fn(A, A) -> bool)
    ensures
        insertion_sort(s, before).len() == s.len(),
    decreases s.len(),
{
    if s.len() > 0 {
        lemma_sort_len(s.drop_last(), before);
        lemma_insert_index_bounds(insertion_sort(s.drop_last(), before), s.last(), before, 0);
    }
}

/// Totals add over concatenation.
pub proof fn lemma_sum_concat<A>(a: Seq<A>, b: Seq<A>, f: spec_fn(A) -> nat)
    ensures
        sum_of(a + b, f) == sum_of(a, f) + sum_of(b, f),
    decreases b.len(),
{
    if b.len() > 0 {
        lemma_sum_concat(a, b.drop_last(), f);
        assert((a + b).drop_last() =~= a + b.drop_last());
    } else {
        assert(a + b =~= a);
    }
}

/// Inserting an element adds its value to the total.
pub proof fn lemma_sum_insert<A>(s: Seq<A>, k: int, x: A, f: spec_fn(A) -> nat)
    requires
        0 <= k <= s.len(),
    ensures
        sum_of(s.insert(k, x), f) == sum_of(s, f) + f(x),
{
    lemma_sum_concat(s.take(k), seq![x] + s.skip(k), f);
    lemma_sum_concat(seq![x], s.skip(k), f);
    lemma_sum_concat(s.take(k), s.skip(k), f);
    assert(s.insert(k, x) =~= s.take(k) + (seq![x] + s.skip(k)));
    assert(s =~= s.take(k) + s.skip(k));
    assert(sum_of(seq![x], f) == f(x)) by {
        assert(seq![x].drop_last() =~= Seq::<A>::empty());
        assert(seq![x].last() == x);
        assert(sum_of(Seq::<A>::empty(), f) == 0);
    }
}

/// Sorting keeps the total.
pub proof fn lemma_sort_sum<A>(s: Seq<A>, before: spec_fn(A, A) -> bool, f: spec_fn(A) -> nat)
    ensures
        sum_of(insertion_sort(s, before), f) == sum_of(s, f),
    decreases s.len(),
{
    if s.len() > 0 {
        let t = insertion_sort(s.drop_last(), before);
        lemma_sort_sum(s.drop_last(), before, f);
        lemma_insert_index_bounds(t, s.last(), before, 0);
        lemma_sum_insert(t, insert_index(t, s.last(), before, 0), s.last(), f);
    }
}

/// Replacing an element changes the total by the difference of values.
pub proof fn lemma_sum_update<A>(s: Seq<A>, k: int, x: A, f: spec_fn(A) -> nat)
    requires
        0 <= k < s.len(),
    ensures
        sum_of(s.update(k, x), f) + f(s[k]) == sum_of(s, f) + f(x),
{
    let a = s.take(k);
    let b = s.skip(k + 1);
    lemma_sum_concat(a + seq![x], b, f);
    lemma_sum_concat(a, seq![x], f);
    lemma_sum_concat(a + seq![s[k]], b, f);
    lemma_sum_concat(a, seq![s[k]], f);
    assert(s.update(k, x) =~= a + seq![x] + b);
    assert(s =~= a + seq![s[k]] + b);
    assert(sum_of(seq![x], f) == f(x)) by {
        assert(seq![x].drop_last() =~= Seq::<A>::empty());
        assert(sum_of(Seq::<A>::empty(), f) == 0);
    }
    assert(sum_of(seq![s[k]], f) == f(s[k])) by {
        assert(seq![s[k]].drop_last() =~= Seq::<A>::empty());
        assert(sum_of(Seq::<A>::empty(), f) == 0);
    }
}

/// A total is no more than a total of larger values.
pub proof fn lemma_sum_le<A>(s: Seq<A>, f: spec_fn(A) -> nat, g: spec_fn(A) -> nat)
    requires
        forall|i: int| 0 <= i < s.len() ==> f(#[trigger] s[i]) <= g(s[i]),
    ensures
        sum_of(s, f) <= sum_of(s, g),
    decreases s.len(),
{
    if s.len() > 0 {
        assert forall|i: int| 0 <= i < s.drop_last().len() implies f(#[trigger] s.drop_last()[i]) <= g(
            s.drop_last()[i],
        ) by {
            assert(s.drop_last()[i] == s[i]);
        }
        lemma_sum_le(s.drop_last(), f, g);
        assert(f(s[s.len() - 1]) <= g(s[s.len() - 1]));
    }
}

/// A prefix totals no more than the whole.
pub proof fn lemma_sum_prefix<A>(s: Seq<A>, k: int, f: spec_fn(A) -> nat)
    requires
        0 <= k <= s.len(),
    ensures
        sum_of(s.take(k), f) <= sum_of(s, f),
{
    lemma_sum_concat(s.take(k), s.skip(k), f);
    assert(s =~= s.take(k) + s.skip(k));
}

/// Removing repeated neighbours never lengthens.
pub proof fn lemma_dedup_len<A>(s: Seq<A>)
    ensures
        dedup(s).len() <= s.len(),
    decreases s.len(),
{
    if s.len() > 1 {
        lemma_dedup_len(s.drop_last());
    }
}

/// Every element of a sorted sequence comes from the sequence.
pub proof fn lemma_sort_elements<A>(s: Seq<A>, before: spec_fn(A, A) -> bool, i: int)
    requires
        0 <= i < insertion_sort(s, before).len(),
    ensures
        s.contains(insertion_sort(s, before)[i]),
    decreases s.len(),
{
    lemma_sort_len(s, before);
    let t = insertion_sort(s.drop_last(), before);
    lemma_sort_len(s.drop_last(), before);
    let k = insert_index(t, s.last(), before, 0);
    lemma_insert_index_bounds(t, s.last(), before, 0);
    let u = t.insert(k, s.last());
    if i == k {
        assert(s[s.len() - 1] == u[i]);
    } else {
        let j = if i < k {
            i
        } else {
            i - 1
        };
        assert(u[i] == t[j]);
        lemma_sort_elements(s.drop_last(), before, j);
        let m = choose|m: int| 0 <= m < s.drop_last().len() && s.drop_last()[m] == t[j];
        assert(s[m] == u[i]);
    }
}

/// Every element of a sequence has a place in its sorted form.
pub proof fn lemma_sort_keeps<A>(s: Seq<A>, before: spec_fn(A, A) -> bool, i: int)
    requires
        0 <= i < s.len(),
    ensures
        insertion_sort(s, before).contains(s[i]),
    decreases s.len(),
{
    let t = insertion_sort(s.drop_last(), before);
    lemma_sort_len(s.drop_last(), before);
    let k = insert_index(t, s.last(), before, 0);
    lemma_insert_index_bounds(t, s.last(), before, 0);
    let u = t.insert(k, s.last());
    if i == s.len() - 1 {
        assert(u[k] == s[i]);
    } else {
        lemma_sort_keeps(s.drop_last(), before, i);
        let m = choose|m: int| 0 <= m < t.len() && t[m] == s.drop_last()[i];
        if m < k {
            assert(u[m] == s[i]);
        } else {
            assert(u[m + 1] == s[i]);
        }
    }
}

/// Removing repeated neighbours keeps every value.
pub proof fn lemma_dedup_keeps<A>(s: Seq<A>, i: int)
    requires
        0 <= i < s.len(),
    ensures
        dedup(s).contains(s[i]),
    decreases s.len(),
{
    if s.len() > 1 {
        if i == s.len() - 1 {
            if s.last() == s[s.len() - 2] {
                lemma_dedup_keeps(s.drop_last(), s.len() - 2);
            } else {
                let d = dedup(s.drop_last()).push(s.last());
                assert(d[d.len() - 1] == s[i]);
            }
        } else {
            lemma_dedup_keeps(s.drop_last(), i);
            let d = dedup(s.drop_last());
            let m = choose|m: int| 0 <= m < d.len() && d[m] == s.drop_last()[i];
            if s.last() != s[s.len() - 2] {
                assert(d.push(s.last())[m] == s[i]);
            }
        }
    } else {
        assert(dedup(s) == s);
    }
}

/// The order of strings is transitive.
pub proof fn lemma_lex_lt_transitive(a: Seq<char>, b: Seq<char>, c: Seq<char>)
    requires
        lex_lt(a, b),
        lex_lt(b, c),
    ensures
        lex_lt(a, c),
    decreases a.len(),
{
    if a.len() > 0 && b.len() > 0 && c.len() > 0 && a[0] == b[0] && b[0] == c[0] {
        lemma_lex_lt_transitive(a.drop_first(), b.drop_first(), c.drop_first());
    }
}

/// One string never comes both before and after another.
pub proof fn lemma_lex_lt_asymmetric(a: Seq<char>, b: Seq<char>)
    requires
        lex_lt(a, b),
    ensures
        !lex_lt(b, a),
    decreases a.len(),
{
    if a.len() > 0 && b.len() > 0 && a[0] == b[0] {
        lemma_lex_lt_asymmetric(a.drop_first(), b.drop_first());
    }
}

/// Cutting runs of equal neighbours from numbers in order leaves them in
/// strictly increasing order, and keeps the last one.
pub proof fn lemma_dedup_increasing(s: Seq<usize>)
    requires
        forall|i: int, j: int| 0 <= i < j < s.len() ==> s[i] <= s[j],
    ensures
        forall|i: int, j: int| 0 <= i < j < dedup(s).len() ==> dedup(s)[i] < dedup(s)[j],
        s.len() > 0 ==> dedup(s).len() > 0 && dedup(s).last() == s.last(),
    decreases s.len(),
{
    if s.len() > 1 {
        let t = s.drop_last();
        lemma_dedup_increasing(t);
        assert(t.last() == s[s.len() - 2]);
        if s.last() != s[s.len() - 2] {
            assert(s[s.len() - 2] <= s.last());
            let d = dedup(t).push(s.last());
            assert forall|i: int, j: int| 0 <= i < j < d.len() implies d[i] < d[j] by {
                if j == d.len() - 1 {
                    if i < dedup(t).len() - 1 {
                        assert(dedup(t)[i] < dedup(t)[dedup(t).len() - 1]);
                    }
                }
            }
        }
    }
}

/// Every element of `dedup(s)` comes from `s`.
pub proof fn lemma_dedup_elements<A>(s: Seq<A>, i: int)
    requires
        0 <= i < dedup(s).len(),
    ensures
        s.contains(dedup(s)[i]),
    decreases s.len(),
{
    if s.len() > 1 {
        let t = s.drop_last();
        lemma_dedup_len(t);
        if s.last() == s[s.len() - 2] {
            lemma_dedup_elements(t, i);
            let k = choose|k: int| 0 <= k < t.len() && t[k] == dedup(t)[i];
            assert(s[k] == t[k]);
        } else if i < dedup(t).len() {
            lemma_dedup_elements(t, i);
            let k = choose|k: int| 0 <= k < t.len() && t[k] == dedup(t)[i];
            assert(s[k] == t[k]);
        } else {
            assert(s[s.len() - 1] == dedup(s)[i]);
        }
    } else {
        assert(s[i] == dedup(s)[i]);
    }
}

/// Law: the line numbers of a file are shown each once, in strictly
/// increasing order, and they are exactly the file's line numbers.
pub proof fn law_line_numbers_ascending(ns: Seq<usize>)
    ensures
        forall|i: int, j: int|
            0 <= i < j < sorted_unique(ns).len() ==> sorted_unique(ns)[i] < sorted_unique(ns)[j],
        forall|n: usize| ns.contains(n) <==> sorted_unique(ns).contains(n),
{
    let before = |a: usize, b: usize| num_before(a, b);
    let t = insertion_sort(ns, before);
    lemma_sort_sorted(ns, before);
    lemma_sort_len(ns, before);
    assert forall|i: int, j: int| 0 <= i < j < t.len() implies t[i] <= t[j] by {
        assert(!before(t[j], t[i]));
    }
    lemma_dedup_increasing(t);
    assert forall|n: usize| ns.contains(n) implies sorted_unique(ns).contains(n) by {
        let i = choose|i: int| 0 <= i < ns.len() && ns[i] == n;
        lemma_sort_keeps(ns, before, i);
        let k = choose|k: int| 0 <= k < t.len() && t[k] == n;
        lemma_dedup_keeps(t, k);
    }
    assert forall|n: usize| sorted_unique(ns).contains(n) implies ns.contains(n) by {
        let i = choose|i: int| 0 <= i < dedup(t).len() && dedup(t)[i] == n;
        lemma_dedup_elements(t, i);
        let k = choose|k: int| 0 <= k < t.len() && t[k] == n;
        lemma_sort_elements(ns, before, k);
    }
}

/// No element of a sequence comes before an element placed earlier.
pub open spec fn sorted_by<A>(s: Seq<A>, before: spec_fn(A, A) -> bool) -> bool {
    forall|i: int, j: int| 0 <= i < j < s.len() ==> !before(#[trigger] s[j], #[trigger] s[i])
}

/// Every element before the insertion index does not come after `x`.
proof fn lemma_insert_index_prefix<A>(s: Seq<A>, x: A, before: spec_fn(A, A) -> bool, k: int)
    requires
        0 <= k <= s.len(),
    ensures
        forall|i: int| k <= i < insert_index(s, x, before, k) ==> !before(x, #[trigger] s[i]),
        insert_index(s, x, before, k) < s.len() ==> before(x, s[insert_index(s, x, before, k)]),
    decreases s.len() - k,
{
    if k < s.len() && !before(x, s[k]) {
        lemma_insert_index_prefix(s, x, before, k + 1);
    }
}

/// Sorting by insertion with a transitive order leaves no element before an
/// element placed earlier.
pub proof fn lemma_sort_sorted<A>(s: Seq<A>, before: spec_fn(A, A) -> bool)
    requires
        forall|a: A, b: A, c: A| #[trigger] before(a, b) && #[trigger] before(b, c) ==> before(a, c),
        forall|a: A, b: A| #[trigger] before(a, b) ==> !before(b, a),
    ensures
        sorted_by(insertion_sort(s, before), before),
    decreases s.len(),
{
    if s.len() > 0 {
        let t = insertion_sort(s.drop_last(), before);
        lemma_sort_sorted(s.drop_last(), before);
        let x = s.last();
        let k = insert_index(t, x, before, 0);
        lemma_insert_index_bounds(t, x, before, 0);
        lemma_insert_index_prefix(t, x, before, 0);
        let r = t.insert(k, x);
        assert forall|i: int, j: int| 0 <= i < j < r.len() implies !before(#[trigger] r[j], #[trigger] r[i]) by {
            if i < k && j < k {
                assert(r[i] == t[i] && r[j] == t[j]);
            } else if i < k && j == k {
                assert(r[i] == t[i] && r[j] == x);
            } else if i < k {
                assert(r[i] == t[i] && r[j] == t[j - 1]);
            } else if i == k {
                assert(r[j] == t[j - 1]);
                assert(before(x, t[k]));
                if before(t[j - 1], x) {
                    if j - 1 > k {
                        assert(before(t[j - 1], t[k]));
                        assert(!before(t[j - 1], t[k]));
                    } else {
                        assert(!before(t[k], x));
                    }
                }
            } else {
                assert(r[i] == t[i - 1] && r[j] == t[j - 1]);
            }
        }
    }
}

// ---------------------------------------------------------------------------
// Code
// ---------------------------------------------------------------------------

/// `a` comes before `b` in the order of `String`.
pub fn lex_less(a: &[char], b: &[char]) -> (r: bool)
    ensures
        r == lex_lt(a@, b@),
{
    let mut i: usize = 0;
    assert(a@.skip(0) =~= a@);
    assert(b@.skip(0) =~= b@);
    while i < a.len() && i < b.len()
        invariant
            0 <= i <= a.len(),
            i <= b.len(),
            lex_lt(a@, b@) == lex_lt(a@.skip(i as int), b@.skip(i as int)),
        decreases a.len() - i,
    {
        if a[i] != b[i] {
            return (a[i] as u32) < (b[i] as u32);
        }
        assert(a@.skip(i as int).drop_first() =~= a@.skip(i + 1));
        assert(b@.skip(i as int).drop_first() =~= b@.skip(i + 1));
        i += 1;
    }
    i == a.len() && i < b.len()
}

/// `s` with each run of equal neighbours cut to one.
pub fn dedup_numbers(s: &Vec<usize>) -> (r: Vec<usize>)
    ensures
        r@ == dedup(s@),
{
    let mut r: Vec<usize> = Vec::new();
    let mut i: usize = 0;
    while i < s.len()
        invariant
            0 <= i <= s.len(),
            r@ == dedup(s@.take(i as int)),
            i > 0 ==> r@.len() > 0 && r@.last() == s@[i - 1],
        decreases s.len() - i,
    {
        let ghost t = s@.take(i + 1);
        assert(t.drop_last() =~= s@.take(i as int));
        if i == 0 || s[i] != s[i - 1] {
            r.push(s[i]);
        }
        proof {
            if i >= 1 {
                assert(t[t.len() - 2] == s@[i - 1]);
            } else {
                assert(t =~= seq![s@[0]]);
                assert(dedup(t) == t);
            }
        }
        i += 1;
    }
    assert(s@.take(s.len() as int) =~= s@);
    r
}

/// `s` in increasing order with each value once.
pub fn sort_unique_numbers(s: &Vec<usize>) -> (r: Vec<usize>)
    ensures
        r@ == sorted_unique(s@),
{
    let ghost before = |a: usize, b: usize| num_before(a, b);
    let mut sorted: Vec<usize> = Vec::new();
    let mut i: usize = 0;
    while i < s.len()
        invariant
            0 <= i <= s.len(),
            sorted@ == insertion_sort(s@.take(i as int), before),
            before == (|a: usize, b: usize| num_before(a, b)),
        decreases s.len() - i,
    {
        let x = s[i];
        let mut k: usize = 0;
        proof {
            lemma_sort_len(s@.take(i as int), before);
        }
        while k < sorted.len() && !(x < sorted[k])
            invariant
                0 <= k <= sorted.len(),
                insert_index(sorted@, x, before, 0) == insert_index(sorted@, x, before, k as int),
                before == (|a: usize, b: usize| num_before(a, b)),
            decreases sorted.len() - k,
        {
            k += 1;
        }
        assert(s@.take(i + 1).drop_last() =~= s@.take(i as int));
        sorted.insert(k, x);
        i += 1;
    }
    assert(s@.take(s.len() as int) =~= s@);
    dedup_numbers(&sorted)
}

} // verus!
