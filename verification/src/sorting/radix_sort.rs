//! Radix sort: the numbers are put in order digit by digit, the lowest
//! digit first, each time without disturbing the order that the lower digits
//! have given.
use vstd::arithmetic::div_mod::{lemma_mod_bound, lemma_mod_breakdown, lemma_small_mod};
use vstd::prelude::*;
use vstd::slice::slice_to_vec;

verus! {

/// The digit of `x` that has the weight `p`, in the base `radix`.
pub open spec fn digit(x: usize, p: int, radix: int) -> int {
    (x as int / p) % radix
}

/// What the digits of `x` below the weight `p` come to.
pub open spec fn low(x: usize, p: int) -> int {
    x as int % p
}

/// The numbers are in order as far as their digits below the weight `p` go.
pub open spec fn sorted_low(s: Seq<usize>, p: int) -> bool {
    forall|i: int, j: int| 0 <= i <= j < s.len() ==> low(s[i], p) <= low(s[j], p)
}

/// No number of `s` is larger than a later one.
pub open spec fn rising(s: Seq<usize>) -> bool {
    forall|i: int, j: int| 0 <= i <= j < s.len() ==> s[i] <= s[j]
}

/// `after` holds the numbers of `before`, each as often, in rising order.
pub open spec fn sorts(before: Seq<usize>, after: Seq<usize>) -> bool {
    &&& rising(after)
    &&& after.to_multiset() == before.to_multiset()
}

/// The first `k` buckets in a row.
pub open spec fn flat(buckets: Seq<Seq<usize>>, k: int) -> Seq<usize>
    decreases k,
{
    if k <= 0 {
        Seq::empty()
    } else {
        flat(buckets, k - 1) + buckets[k - 1]
    }
}

/// The numbers in each bucket.
pub open spec fn contents(buckets: Seq<Vec<usize>>) -> Seq<Seq<usize>> {
    buckets.map_values(|b: Vec<usize>| b@)
}

/// Every number in a bucket has the digit of the bucket, and each bucket is
/// in order as far as the lower digits go.
pub open spec fn bucketed(buckets: Seq<Seq<usize>>, p: int, radix: int) -> bool {
    &&& forall|d: int, j: int|
        0 <= d < buckets.len() && 0 <= j < buckets[d].len() ==> digit(
            #[trigger] buckets[d][j],
            p,
            radix,
        ) == d
    &&& forall|d: int| 0 <= d < buckets.len() ==> sorted_low(#[trigger] buckets[d], p)
}

/// The digits of a number below the weight `p * radix` are its digit of
/// weight `p` and the digits below.
pub proof fn lemma_low_of_next(x: usize, p: int, radix: int)
    requires
        p > 0,
        radix > 0,
    ensures
        low(x, p * radix) == p * digit(x, p, radix) + low(x, p),
        0 <= low(x, p) < p,
        0 <= digit(x, p, radix) < radix,
{
    lemma_mod_breakdown(x as int, p, radix);
    lemma_mod_bound(x as int, p);
    lemma_mod_bound(x as int / p, radix);
}

/// Buckets in a row are in order as far as the digits up to that of the
/// buckets go.
pub proof fn lemma_flat_sorted(buckets: Seq<Seq<usize>>, p: int, radix: int, k: int)
    requires
        p > 0,
        radix > 0,
        bucketed(buckets, p, radix),
        0 <= k <= buckets.len(),
    ensures
        sorted_low(flat(buckets, k), p * radix),
        forall|i: int| 0 <= i < flat(buckets, k).len() ==> digit(
            #[trigger] flat(buckets, k)[i],
            p,
            radix,
        ) < k,
    decreases k,
{
    if k > 0 {
        lemma_flat_sorted(buckets, p, radix, k - 1);
        let head = flat(buckets, k - 1);
        let last = buckets[k - 1];
        let all = flat(buckets, k);
        assert(sorted_low(last, p));
        assert forall|i: int| 0 <= i < all.len() implies digit(#[trigger] all[i], p, radix) < k by {
            if i < head.len() {
                assert(all[i] == head[i]);
            } else {
                assert(all[i] == last[i - head.len()]);
            }
        }
        assert forall|i: int, j: int| 0 <= i <= j < all.len() implies low(all[i], p * radix) <= low(
            all[j],
            p * radix,
        ) by {
            lemma_low_of_next(all[i], p, radix);
            lemma_low_of_next(all[j], p, radix);
            if j < head.len() {
                assert(low(head[i], p * radix) <= low(head[j], p * radix));
            } else if i >= head.len() {
                assert(low(last[i - head.len()], p) <= low(last[j - head.len()], p));
                assert(digit(all[i], p, radix) == k - 1);
                assert(digit(all[j], p, radix) == k - 1);
            } else {
                assert(all[i] == head[i]);
                assert(all[j] == last[j - head.len()]);
                assert(digit(all[j], p, radix) == k - 1);
                assert(digit(all[i], p, radix) <= k - 2);
                assert(p * digit(all[i], p, radix) + p <= p * (k - 1)) by (nonlinear_arith)
                    requires
                        p > 0,
                        digit(all[i], p, radix) <= k - 2,
                ;
            }
        }
    }
}

/// One more number in a bucket is one more number in the buckets in a row.
pub proof fn lemma_flat_push(buckets: Seq<Seq<usize>>, d: int, x: usize, k: int)
    requires
        0 <= d < buckets.len(),
        0 <= k <= buckets.len(),
    ensures
        flat(buckets.update(d, buckets[d].push(x)), k).to_multiset() == (if d < k {
            flat(buckets, k).to_multiset().insert(x)
        } else {
            flat(buckets, k).to_multiset()
        }),
        d >= k ==> flat(buckets.update(d, buckets[d].push(x)), k) == flat(buckets, k),
    decreases k,
{
    broadcast use vstd::multiset::group_multiset_axioms;

    if k > 0 {
        let more = buckets.update(d, buckets[d].push(x));
        lemma_flat_push(buckets, d, x, k - 1);
        vstd::seq_lib::lemma_multiset_commutative(flat(more, k - 1), more[k - 1]);
        vstd::seq_lib::lemma_multiset_commutative(flat(buckets, k - 1), buckets[k - 1]);
        if d == k - 1 {
            vstd::seq_lib::to_multiset_build(buckets[d], x);
            assert(flat(more, k).to_multiset() =~= flat(buckets, k).to_multiset().insert(x));
        } else if d < k - 1 {
            assert(flat(more, k).to_multiset() =~= flat(buckets, k).to_multiset().insert(x));
        }
    }
}

/// Numbers that are in order as far as all digits go that any of them has
/// are in order.
pub proof fn lemma_sorted_low_is_rising(s: Seq<usize>, p: int)
    requires
        sorted_low(s, p),
        forall|i: int| 0 <= i < s.len() ==> s[i] < p,
    ensures
        rising(s),
{
    assert forall|i: int, j: int| 0 <= i <= j < s.len() implies s[i] <= s[j] by {
        lemma_small_mod(s[i] as nat, p as nat);
        lemma_small_mod(s[j] as nat, p as nat);
        assert(low(s[i], p) <= low(s[j], p));
    }
}

/// Puts the numbers in order by the digit of weight `digit_pow`, in base
/// ten: each number goes into the bucket of its digit, and the buckets are
/// emptied in a row. Also tells whether no number has a digit beyond that
/// one.
pub fn bucket_pass(array: &Vec<usize>, digit_pow: usize) -> (out: (Vec<usize>, bool))
    requires
        digit_pow >= 1,
    ensures
        out.0@ == flat(buckets_of(array@, digit_pow as int, 10), 10),
        out.0@.to_multiset() == array@.to_multiset(),
        sorted_low(array@, digit_pow as int) ==> sorted_low(out.0@, digit_pow * 10),
        out.1 == (forall|i: int| 0 <= i < array@.len() ==> #[trigger] array@[i] / digit_pow < 10),
{
    let ghost p = digit_pow as int;
    let mut buckets: Vec<Vec<usize>> = Vec::new();
    let mut d: usize = 0;
    while d < 10
        invariant
            d <= 10,
            buckets@.len() == d,
            forall|k: int| 0 <= k < d ==> (#[trigger] buckets@[k])@.len() == 0,
        decreases 10 - d,
    {
        buckets.push(Vec::new());
        d += 1;
    }
    let mut finished = true;
    let n = array.len();
    let mut i: usize = 0;
    proof {
        assert(array@.take(0) =~= Seq::<usize>::empty());
        assert forall|d: int| 0 <= d < 10 implies #[trigger] contents(buckets@)[d] =~= buckets_of(
            array@.take(0),
            p,
            10,
        )[d] by {}
        assert(contents(buckets@) =~= buckets_of(array@.take(0), p, 10));
    }
    while i < n
        invariant
            n == array@.len(),
            i <= n,
            p == digit_pow,
            p >= 1,
            buckets@.len() == 10,
            contents(buckets@) == buckets_of(array@.take(i as int), p, 10),
            finished == (forall|m: int| 0 <= m < i ==> #[trigger] array@[m] / digit_pow < 10),
        decreases n - i,
    {
        let num = array[i];
        let shifted = num / digit_pow;
        let digit_here = shifted % 10;
        if shifted >= 10 {
            finished = false;
        }
        let ghost before = contents(buckets@);
        let bucket = &mut buckets[digit_here];
        bucket.push(num);
        proof {
            assert(array@.take(i + 1).drop_last() =~= array@.take(i as int));
            assert(array@.take(i + 1).last() == num);
            assert(contents(buckets@) =~= before.update(
                digit_here as int,
                before[digit_here as int].push(num),
            ));
            assert(contents(buckets@) =~= buckets_of(array@.take(i + 1), p, 10));
        }
        i += 1;
    }
    proof {
        assert(array@.take(n as int) =~= array@);
    }
    // empty the buckets in a row
    let mut out: Vec<usize> = Vec::new();
    let mut d: usize = 0;
    let ghost held = contents(buckets@);
    while d < 10
        invariant
            d <= 10,
            buckets@.len() == 10,
            held == contents(buckets@),
            out@ == flat(held, d as int),
        decreases 10 - d,
    {
        let bucket = &buckets[d];
        let mut j: usize = 0;
        while j < bucket.len()
            invariant
                j <= bucket@.len(),
                bucket@ == held[d as int],
                out@ == flat(held, d as int) + bucket@.take(j as int),
            decreases bucket@.len() - j,
        {
            out.push(bucket[j]);
            j += 1;
            assert(bucket@.take(j as int) =~= bucket@.take(j - 1).push(bucket@[j - 1]));
        }
        proof {
            assert(bucket@.take(j as int) =~= bucket@);
        }
        d += 1;
    }
    proof {
        lemma_buckets_hold_all(array@, p, 10);
        if sorted_low(array@, p) {
            lemma_buckets_sorted(array@, p, 10);
        }
    }
    (out, finished)
}

/// Empty buckets in a row are nothing.
pub proof fn lemma_flat_empty(buckets: Seq<Seq<usize>>, k: int)
    requires
        0 <= k <= buckets.len(),
        forall|d: int| 0 <= d < buckets.len() ==> (#[trigger] buckets[d]).len() == 0,
    ensures
        flat(buckets, k) =~= Seq::<usize>::empty(),
    decreases k,
{
    if k > 0 {
        lemma_flat_empty(buckets, k - 1);
    }
}

/// The numbers of `array` in rising order, sorted digit by digit in base
/// ten with a bucket for each digit. It sorts afresh for every digit and
/// allocates a lot.
pub fn radix_sort_naive(array: &[usize]) -> (sorted: Vec<usize>)
    ensures
        sorts(array@, sorted@),
{
    let ghost given = array@;
    let mut digit_pow: usize = 1;
    let mut numbers = slice_to_vec(array);
    proof {
        assert forall|i: int, j: int| 0 <= i <= j < numbers@.len() implies low(numbers@[i], 1)
            <= low(numbers@[j], 1) by {}
    }
    loop
        invariant
            digit_pow >= 1,
            given == array@,
            numbers@.to_multiset() == given.to_multiset(),
            sorted_low(numbers@, digit_pow as int),
        decreases usize::MAX - digit_pow,
    {
        let ghost before = numbers@;
        let (next, finished) = bucket_pass(&numbers, digit_pow);
        numbers = next;
        if finished {
            proof {
                assert forall|i: int| 0 <= i < numbers@.len() implies numbers@[i] < digit_pow
                    * 10 by {
                    vstd::seq_lib::to_multiset_contains(numbers@, numbers@[i]);
                    vstd::seq_lib::to_multiset_contains(before, numbers@[i]);
                    assert(numbers@.contains(numbers@[i]));
                    let k = choose|k: int| 0 <= k < before.len() && before[k] == numbers@[i];
                    assert(before[k] / digit_pow < 10);
                    lemma_below_next_weight(before[k], digit_pow as int);
                }
                lemma_sorted_low_is_rising(numbers@, digit_pow * 10);
            }
            return numbers;
        }
        proof {
            let k = choose|k: int| 0 <= k < before.len() && !(#[trigger] before[k] / digit_pow < 10);
            lemma_weight_fits(before[k], digit_pow as int);
        }
        digit_pow = digit_pow * 10;
    }
}

/// A number with at most one digit from the weight `p` on is below the
/// next weight.
pub proof fn lemma_below_next_weight(x: usize, p: int)
    requires
        p > 0,
        x as int / p < 10,
    ensures
        x < p * 10,
{
    vstd::arithmetic::div_mod::lemma_fundamental_div_mod(x as int, p);
    lemma_mod_bound(x as int, p);
    assert(p * (x as int / p) <= p * 9) by (nonlinear_arith)
        requires
            p > 0,
            x as int / p <= 9,
    ;
}

/// A number with a digit beyond the weight `p` is at least the next
/// weight.
pub proof fn lemma_weight_fits(x: usize, p: int)
    requires
        p > 0,
        x as int / p >= 10,
    ensures
        p * 10 <= x,
{
    vstd::arithmetic::div_mod::lemma_fundamental_div_mod(x as int, p);
    lemma_mod_bound(x as int, p);
    assert(p * (x as int / p) >= p * 10) by (nonlinear_arith)
        requires
            p > 0,
            x as int / p >= 10,
    ;
}

/// The numbers of `s` whose digit of weight `p` is `d`, in the order that
/// they have in `s`.
pub open spec fn bucket_of(s: Seq<usize>, p: int, radix: int, d: int) -> Seq<usize>
    decreases s.len(),
{
    if s.len() == 0 {
        Seq::empty()
    } else if digit(s.last(), p, radix) == d {
        bucket_of(s.drop_last(), p, radix, d).push(s.last())
    } else {
        bucket_of(s.drop_last(), p, radix, d)
    }
}

/// The numbers of `s` by their digit of weight `p`.
pub open spec fn buckets_of(s: Seq<usize>, p: int, radix: int) -> Seq<Seq<usize>> {
    Seq::new(radix as nat, |d: int| bucket_of(s, p, radix, d))
}

/// A bucket holds some of the numbers, all of its digit, and in order as
/// far as the lower digits go if the numbers are.
pub proof fn lemma_bucket_of(s: Seq<usize>, p: int, radix: int, d: int)
    requires
        p > 0,
        radix > 0,
    ensures
        bucket_of(s, p, radix, d).len() <= s.len(),
        forall|j: int|
            0 <= j < bucket_of(s, p, radix, d).len() ==> digit(
                #[trigger] bucket_of(s, p, radix, d)[j],
                p,
                radix,
            ) == d && s.contains(bucket_of(s, p, radix, d)[j]),
        sorted_low(s, p) ==> sorted_low(bucket_of(s, p, radix, d), p),
    decreases s.len(),
{
    if s.len() > 0 {
        let init = s.drop_last();
        let here = bucket_of(s, p, radix, d);
        let before = bucket_of(init, p, radix, d);
        lemma_bucket_of(init, p, radix, d);
        assert forall|j: int| 0 <= j < here.len() implies digit(#[trigger] here[j], p, radix) == d
            && s.contains(here[j]) by {
            if j < before.len() {
                assert(here[j] == before[j]);
                let k = choose|k: int| 0 <= k < init.len() && init[k] == before[j];
                assert(s[k] == here[j]);
            } else {
                assert(s[s.len() - 1] == here[j]);
            }
        }
        if sorted_low(s, p) {
            assert(sorted_low(init, p)) by {
                assert forall|i: int, j: int| 0 <= i <= j < init.len() implies low(init[i], p)
                    <= low(init[j], p) by {
                    assert(low(s[i], p) <= low(s[j], p));
                }
            }
            assert forall|i: int, j: int| 0 <= i <= j < here.len() implies low(here[i], p) <= low(
                here[j],
                p,
            ) by {
                if j < before.len() {
                    assert(low(before[i], p) <= low(before[j], p));
                } else if i < before.len() {
                    assert(init.contains(before[i]));
                    let k = choose|k: int| 0 <= k < init.len() && init[k] == before[i];
                    assert(low(s[k], p) <= low(s[s.len() - 1], p));
                }
            }
        }
    }
}

/// The buckets in a row hold the numbers, each as often as it was there.
pub proof fn lemma_buckets_hold_all(s: Seq<usize>, p: int, radix: int)
    requires
        p > 0,
        radix > 0,
    ensures
        flat(buckets_of(s, p, radix), radix).to_multiset() == s.to_multiset(),
        flat(buckets_of(s, p, radix), radix).len() == s.len(),
    decreases s.len(),
{
    let all = buckets_of(s, p, radix);
    if s.len() == 0 {
        lemma_flat_empty(all, radix);
        assert(flat(all, radix) =~= s);
    } else {
        let init = s.drop_last();
        let x = s.last();
        let d = digit(x, p, radix);
        lemma_mod_bound(x as int / p, radix);
        lemma_buckets_hold_all(init, p, radix);
        let before = buckets_of(init, p, radix);
        assert(all =~= before.update(d, before[d].push(x)));
        lemma_flat_push(before, d, x, radix);
        vstd::seq_lib::to_multiset_build(init, x);
        assert(init.push(x) =~= s);
        assert(flat(all, radix).to_multiset() =~= s.to_multiset());
        vstd::seq_lib::to_multiset_len(flat(all, radix));
        vstd::seq_lib::to_multiset_len(flat(before, radix));
        vstd::seq_lib::to_multiset_len(s);
        vstd::seq_lib::to_multiset_len(init);
    }
}

/// Numbers that are in order as far as the digits below the weight `p`
/// go are, taken bucket by bucket, in order as far as the digits up to that
/// of weight `p` go.
pub proof fn lemma_buckets_sorted(s: Seq<usize>, p: int, radix: int)
    requires
        p > 0,
        radix > 0,
        sorted_low(s, p),
    ensures
        sorted_low(flat(buckets_of(s, p, radix), radix), p * radix),
{
    let held = buckets_of(s, p, radix);
    assert(bucketed(held, p, radix)) by {
        assert forall|d: int, j: int| 0 <= d < held.len() && 0 <= j < held[d].len() implies digit(
            #[trigger] held[d][j],
            p,
            radix,
        ) == d by {
            lemma_bucket_of(s, p, radix, d);
        }
        assert forall|d: int| 0 <= d < held.len() implies sorted_low(#[trigger] held[d], p) by {
            lemma_bucket_of(s, p, radix, d);
        }
    }
    lemma_flat_sorted(held, p, radix, radix);
}

/// The buckets in a row grow with each bucket by what it holds.
pub proof fn lemma_flat_len(buckets: Seq<Seq<usize>>, a: int, b: int)
    requires
        0 <= a <= b <= buckets.len(),
    ensures
        flat(buckets, a).len() <= flat(buckets, b).len(),
        b > a ==> flat(buckets, a).len() + buckets[a].len() <= flat(buckets, b).len(),
    decreases b - a,
{
    if a < b {
        lemma_flat_len(buckets, a, b - 1);
    }
}

/// Numbers that stand, bucket by bucket, where the buckets in a row have
/// them are the buckets in a row.
pub proof fn lemma_placed_is_flat(a: Seq<usize>, buckets: Seq<Seq<usize>>, k: int)
    requires
        0 <= k <= buckets.len(),
        flat(buckets, k).len() <= a.len(),
        forall|d: int, j: int|
            0 <= d < k && 0 <= j < buckets[d].len() ==> #[trigger] a[flat(buckets, d).len() + j]
                == buckets[d][j],
    ensures
        a.take(flat(buckets, k).len() as int) == flat(buckets, k),
    decreases k,
{
    if k > 0 {
        lemma_flat_len(buckets, k - 1, k);
        lemma_placed_is_flat(a, buckets, k - 1);
        let head = flat(buckets, k - 1);
        let all = flat(buckets, k);
        assert forall|i: int| 0 <= i < all.len() implies a.take(all.len() as int)[i] == all[i] by {
            if i < head.len() {
                assert(a.take(head.len() as int)[i] == head[i]);
            } else {
                assert(a[head.len() + (i - head.len())] == buckets[k - 1][i - head.len()]);
            }
        }
        assert(a.take(all.len() as int) =~= all);
    } else {
        assert(a.take(0) =~= flat(buckets, 0));
    }
}

/// `r` is a power of two.
pub open spec fn is_power_of_two(r: int) -> bool
    decreases r,
{
    r == 1 || (r > 1 && r % 2 == 0 && is_power_of_two(r / 2))
}

/// The least power of two that is at least `n`, or the largest power of
/// two that fits if none that fits is.
pub fn power_of_two_at_least(n: usize) -> (r: usize)
    ensures
        is_power_of_two(r as int),
        r >= n || r > usize::MAX / 2,
        r == 1 || r / 2 < n,
{
    let mut r: usize = 1;
    while r < n && r <= usize::MAX / 2
        invariant
            is_power_of_two(r as int),
            r == 1 || r / 2 < n,
        decreases usize::MAX - r,
    {
        r = r * 2;
    }
    r
}

/// The largest of the numbers, or zero if there is none.
pub fn largest(array: &[usize]) -> (max: usize)
    ensures
        forall|i: int| 0 <= i < array@.len() ==> array@[i] <= max,
        array@.len() == 0 ==> max == 0,
        array@.len() > 0 ==> array@.contains(max),
{
    let mut max: usize = 0;
    let mut i: usize = 0;
    while i < array.len()
        invariant
            i <= array@.len(),
            forall|k: int| 0 <= k < i ==> array@[k] <= max,
            i == 0 ==> max == 0,
            i > 0 ==> array@.contains(max),
        decreases array@.len() - i,
    {
        if i == 0 || array[i] > max {
            max = array[i];
            assert(array@[i as int] == max);
        }
        i += 1;
    }
    max
}

/// Puts the numbers in order by the digit of weight `digit_pow` in the
/// base `radix`, in the place where they stand: it counts how often each
/// digit occurs, which gives the place where the numbers of each digit end,
/// and then puts each number, the last one first, before the numbers of its
/// digit that are in place already.
pub fn counting_pass(array: &mut [usize], digit_pow: usize, radix: usize)
    requires
        digit_pow >= 1,
        radix >= 1,
        sorted_low(old(array)@, digit_pow as int),
    ensures
        final(array)@ == flat(
            buckets_of(old(array)@, digit_pow as int, radix as int),
            radix as int,
        ),
        final(array)@.to_multiset() == old(array)@.to_multiset(),
        final(array)@.len() == old(array)@.len(),
        sorted_low(final(array)@, digit_pow * radix),
{
    let ghost given = array@;
    let ghost p = digit_pow as int;
    let ghost base = radix as int;
    let ghost held = buckets_of(given, p, base);
    let n = array.len();
    let mut digit_count: Vec<usize> = vec![0usize; radix];
    // counting sort subroutine to determine the number of elements in each bucket
    let mut i: usize = 0;
    proof {
        assert(given.take(0) =~= Seq::<usize>::empty());
    }
    while i < n
        invariant
            array@ == given,
            n == given.len(),
            i <= n,
            p == digit_pow,
            base == radix,
            p >= 1,
            base >= 1,
            digit_count@.len() == radix,
            forall|d: int|
                0 <= d < base ==> #[trigger] digit_count@[d] == bucket_of(
                    given.take(i as int),
                    p,
                    base,
                    d,
                ).len(),
        decreases n - i,
    {
        let d = (array[i] / digit_pow) % radix;
        proof {
            assert(given.take(i + 1).drop_last() =~= given.take(i as int));
            assert(given.take(i + 1).last() == given[i as int]);
            lemma_bucket_of(given.take(i as int), p, base, d as int);
        }
        digit_count[d] += 1;
        i += 1;
    }
    proof {
        assert(given.take(n as int) =~= given);
    }
    proof {
        assert forall|d: int| 0 <= d < base implies #[trigger] digit_count@[d] == held[d].len() by {
            assert(held[d] == bucket_of(given, p, base, d));
        }
        assert(flat(held, 0) =~= Seq::<usize>::empty());
        assert(flat(held, 1) =~= held[0]);
    }
    // create buckets ranges for each digit
    let mut k: usize = 1;
    while k < radix
        invariant
            1 <= k <= radix,
            base == radix,
            digit_count@.len() == radix,
            held == buckets_of(given, p, base),
            forall|d: int| 0 <= d < k ==> #[trigger] digit_count@[d] == flat(held, d + 1).len(),
            forall|d: int| k <= d < base ==> #[trigger] digit_count@[d] == held[d].len(),
            p >= 1,
            n == given.len(),
        decreases radix - k,
    {
        proof {
            lemma_buckets_hold_all(given, p, base);
            lemma_flat_len(held, k + 1, base);
        }
        digit_count[k] += digit_count[k - 1];
        k += 1;
    }
    // place each value in the correct bucket
    let source = slice_to_vec(array);
    let mut t: usize = n;
    proof {
        lemma_buckets_hold_all(given, p, base);
        assert forall|d: int| 0 <= d < base implies #[trigger] digit_count@[d] == flat(held, d).len()
            + bucket_of(given.take(t as int), p, base, d).len() by {
            assert(given.take(t as int) =~= given);
            assert(held[d] == bucket_of(given, p, base, d));
        }
    }
    while t > 0
        invariant
            t <= n,
            n == given.len(),
            array@.len() == n,
            source@ == given,
            p == digit_pow,
            base == radix,
            p >= 1,
            base >= 1,
            digit_count@.len() == radix,
            held == buckets_of(given, p, base),
            flat(held, base).len() == n,
            forall|d: int|
                0 <= d < base ==> #[trigger] digit_count@[d] == flat(held, d).len() + bucket_of(
                    given.take(t as int),
                    p,
                    base,
                    d,
                ).len(),
            forall|d: int, j: int|
                0 <= d < base && bucket_of(given.take(t as int), p, base, d).len() <= j
                    < held[d].len() ==> #[trigger] array@[flat(held, d).len() + j] == held[d][j],
        decreases t,
    {
        let num = source[t - 1];
        let d = (num / digit_pow) % radix;
        let ghost before = array@;
        let ghost part = given.take(t as int);
        let ghost rest = given.take(t - 1);
        proof {
            assert(part.drop_last() =~= rest);
            assert(part.last() == num);
            lemma_bucket_of(rest, p, base, d as int);
            lemma_bucket_prefix(given, p, base, d as int, t as int);
            lemma_flat_len(held, d as int, base);
        }
        digit_count[d] -= 1;
        array[digit_count[d]] = num;
        proof {
            let at = bucket_of(rest, p, base, d as int).len() as int;
            assert(bucket_of(part, p, base, d as int) == bucket_of(rest, p, base, d as int).push(
                num,
            ));
            assert(held[d as int] == bucket_of(given, p, base, d as int));
            assert(bucket_of(given, p, base, d as int)[at] == bucket_of(part, p, base, d as int)[at]);
            assert(held[d as int][at] == num);
            assert(digit_count@[d as int] == flat(held, d as int).len() + at);
            assert(array@ == before.update(flat(held, d as int).len() + at, num));
            assert forall|e: int, j: int|
                0 <= e < base && bucket_of(rest, p, base, e).len() <= j
                    < held[e].len() implies #[trigger] array@[flat(held, e).len() + j]
                == held[e][j] by {
                lemma_flat_len(held, e, base);
                if e == d && j == at {
                } else {
                    // the place written lies in the bucket of `d`
                    lemma_bucket_prefix(given, p, base, e, t as int);
                    if e < d {
                        lemma_flat_len(held, e, d as int);
                    } else if e > d {
                        lemma_flat_len(held, d as int, e);
                        assert(at < held[d as int].len());
                    } else {
                        assert(bucket_of(part, p, base, e).len() == at + 1);
                    }
                    if e != d {
                        assert(bucket_of(part, p, base, e) == bucket_of(rest, p, base, e));
                    }
                    assert(bucket_of(part, p, base, e).len() <= j);
                    assert(before[flat(held, e).len() + j] == held[e][j]);
                    assert(flat(held, e).len() + j != flat(held, d as int).len() + at);
                }
            }
        }
        t -= 1;
    }
    proof {
        assert(given.take(0) =~= Seq::<usize>::empty());
        lemma_placed_is_flat(array@, held, base);
        assert(array@.take(n as int) =~= array@);
        lemma_buckets_sorted(given, p, base);
    }
}

/// The numbers of a digit among the first `t` numbers are the first of the
/// numbers of that digit among all; the number before the place `t` is the
/// next of them if it has the digit.
pub proof fn lemma_bucket_prefix(s: Seq<usize>, p: int, radix: int, d: int, t: int)
    requires
        0 <= t <= s.len(),
    ensures
        bucket_of(s.take(t), p, radix, d).len() <= bucket_of(s, p, radix, d).len(),
        forall|j: int|
            0 <= j < bucket_of(s.take(t), p, radix, d).len() ==> #[trigger] bucket_of(
                s,
                p,
                radix,
                d,
            )[j] == bucket_of(s.take(t), p, radix, d)[j],
    decreases s.len() - t,
{
    if t < s.len() {
        lemma_bucket_prefix(s, p, radix, d, t + 1);
        assert(s.take(t + 1).drop_last() =~= s.take(t));
    } else {
        assert(s.take(t) =~= s);
    }
}

/// Sorts the numbers in the place where they stand, digit by digit, in a
/// base that is the least power of two which is at least the count of the
/// numbers.
pub fn radix_sort_in_place(array: &mut [usize])
    ensures
        sorts(old(array)@, final(array)@),
{
    let ghost given = array@;
    let n = array.len();
    if n < 2 {
        assert forall|i: int, j: int| 0 <= i <= j < array@.len() implies array@[i] <= array@[j] by {}
        return ;
    }
    // optimal radix base
    let radix = power_of_two_at_least(n);
    // simple way to know when to stop
    let max = largest(array);
    let mut digit_pow: usize = 1;
    let mut rest: usize = max;
    let ghost mut done: int = 1;
    proof {
        assert forall|i: int, j: int| 0 <= i <= j < array@.len() implies low(array@[i], 1) <= low(
            array@[j],
            1,
        ) by {}
    }
    while rest > 0
        invariant
            array@.len() == n,
            radix >= 2,
            done >= 1,
            rest == max as int / done,
            rest > 0 ==> digit_pow == done,
            array@.to_multiset() == given.to_multiset(),
            sorted_low(array@, done),
        decreases rest,
    {
        counting_pass(array, digit_pow, radix);
        proof {
            vstd::arithmetic::div_mod::lemma_div_denominator(max as int, done, radix as int);
            vstd::arithmetic::div_mod::lemma_div_decreases(rest as int, radix as int);
        }
        rest = rest / radix;
        proof {
            if rest > 0 {
                lemma_weight_reaches(max, done * radix);
            }
            done = done * radix;
        }
        if rest > 0 {
            digit_pow = digit_pow * radix;
        }
    }
    proof {
        lemma_weight_exceeds(max, done);
        assert forall|i: int| 0 <= i < array@.len() implies array@[i] < done by {
            vstd::seq_lib::to_multiset_contains(array@, array@[i]);
            vstd::seq_lib::to_multiset_contains(given, array@[i]);
            assert(array@.contains(array@[i]));
            let k = choose|k: int| 0 <= k < given.len() && given[k] == array@[i];
            assert(given[k] <= max);
        }
        lemma_sorted_low_is_rising(array@, done);
    }
}

/// A number that has a digit of the weight `p` is at least `p`.
pub proof fn lemma_weight_reaches(x: usize, p: int)
    requires
        p > 0,
        x as int / p > 0,
    ensures
        p <= x,
{
    if (x as int) < p {
        vstd::arithmetic::div_mod::lemma_basic_div(x as int, p);
    }
}

/// A number that has no digit of the weight `p` is below `p`.
pub proof fn lemma_weight_exceeds(x: usize, p: int)
    requires
        p > 0,
        x as int / p == 0,
    ensures
        x < p,
{
    vstd::arithmetic::div_mod::lemma_fundamental_div_mod(x as int, p);
    lemma_mod_bound(x as int, p);
    assert(p * (x as int / p) == 0) by (nonlinear_arith)
        requires
            x as int / p == 0,
    ;
}

} // verus!
