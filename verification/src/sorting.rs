//! The radix sort itself: four stable counting-sort passes, one per digit.

use crate::classes::{
    class_seq, class_start, lemma_cat_low_sorted, lemma_cat_multiset, lemma_class_len,
    lemma_class_push, lemma_class_take_len, lemma_runs_cat, lemma_start_mono, lemma_start_total,
    run_filled,
};
use crate::digits::{digit_of, lemma_low_full, low, low_sorted};
use vstd::prelude::*;

verus! {

/// Ascending signed order.
pub open spec fn sorted(v: Seq<i32>) -> bool {
    forall|i: int, j: int| 0 <= i < j < v.len() ==> v[i] <= v[j]
}

/// What the sort returns for input `v`: an ascending rearrangement of
/// exactly the values of `v`.
pub open spec fn sort_of(v: Seq<i32>, r: Seq<i32>) -> bool {
    &&& sorted(r)
    &&& r.to_multiset() == v.to_multiset()
}

/// A vector of `n` zeros, used as a fresh working buffer.
fn zero_buffer(n: usize) -> (r: Vec<i32>)
    ensures
        r@.len() == n,
{
    let mut r: Vec<i32> = Vec::new();
    let mut z: usize = 0;
    while z < n
        invariant
            r@.len() == z,
            z <= n,
        decreases n - z,
    {
        r.push(0);
        z = z + 1;
    }
    r
}

/// A fresh copy of a vector.
fn copy_of(v: &Vec<i32>) -> (r: Vec<i32>)
    ensures
        r@ == v@,
{
    let mut r: Vec<i32> = Vec::new();
    let n = v.len();
    let mut z: usize = 0;
    while z < n
        invariant
            n == v@.len(),
            z <= n,
            r@ =~= v@.take(z as int),
        decreases n - z,
    {
        r.push(v[z]);
        proof {
            assert(v@.take(z as int + 1) =~= v@.take(z as int).push(v@[z as int]));
        }
        z = z + 1;
    }
    proof {
        assert(v@.take(n as int) =~= v@);
    }
    r
}

/// One stable counting-sort pass over digit position `s`: count each digit,
/// turn the counts into starting offsets by a prefix sum, then scatter the
/// elements in input order.  A pass keeps the values (as a multiset) and,
/// if the input was ordered on the low `8*s` key bits, orders the output on
/// the low `8*(s+1)` bits.
fn counting_pass(a: &Vec<i32>, s: usize) -> (b: Vec<i32>)
    requires
        s < 4,
    ensures
        b@.len() == a@.len(),
        b@.to_multiset() == a@.to_multiset(),
        low_sorted(a@, s as int) ==> low_sorted(b@, s as int + 1),
{
    let ghost si: int = s as int;
    let n = a.len();

    // Histogram with one extra slot, so that the prefix sum below starts at
    // zero: a digit `d` is counted in slot `d + 1`.
    let mut cnt: Vec<usize> = Vec::new();
    let mut z: usize = 0;
    while z < 257
        invariant
            cnt@.len() == z,
            z <= 257,
            forall|t: int| 0 <= t < z ==> #[trigger] cnt@[t] == 0,
        decreases 257 - z,
    {
        cnt.push(0);
        z = z + 1;
    }

    // Count the digits.
    for i in 0..n
        invariant
            s < 4,
            si == s as int,
            a@.len() == n,
            cnt@.len() == 257,
            cnt@[0] == 0,
            forall|t: int|
                1 <= t < 257 ==> #[trigger] cnt@[t] == class_seq(
                    a@.take(i as int),
                    si,
                    t - 1,
                ).len(),
    {
        let x = a[i];
        let d = digit_of(x, s);
        proof {
            lemma_class_len(a@.take(i as int), si, d as int);
            assert(a@.take(i as int).len() == i);
        }
        let c = cnt[d + 1];
        cnt[d + 1] = c + 1;
        proof {
            assert(a@.take(i as int + 1) =~= a@.take(i as int).push(a@[i as int]));
            assert forall|t: int|
                1 <= t < 257 implies #[trigger] cnt@[t] == class_seq(
                a@.take(i as int + 1),
                si,
                t - 1,
            ).len() by {
                lemma_class_push(a@.take(i as int), a@[i as int], si, t - 1);
            }
        }
    }
    proof {
        assert(a@.take(n as int) =~= a@);
    }

    // Prefix sum: slot `d` becomes the first output position for digit `d`.
    for j in 1..257usize
        invariant
            si == s as int,
            a@.len() == n,
            cnt@.len() == 257,
            forall|t: int| 0 <= t < j ==> #[trigger] cnt@[t] == class_start(a@, si, t),
            forall|t: int|
                j <= t < 257 ==> #[trigger] cnt@[t] == class_seq(a@, si, t - 1).len(),
    {
        proof {
            lemma_start_mono(a@, si, j as int, 256);
            lemma_start_total(a@, si);
        }
        let c = cnt[j - 1];
        let e = cnt[j];
        cnt[j] = c + e;
    }

    // Scatter, in input order: each element goes to the next free position
    // of its digit's run.
    let mut b = zero_buffer(n);
    proof {
        assert(a@.take(0) =~= Seq::<i32>::empty());
        assert forall|t: int| 0 <= t < 256 implies #[trigger] run_filled(b@, a@, si, t, 0) by {
            lemma_start_mono(a@, si, 0, t);
            lemma_start_mono(a@, si, t, 256);
            lemma_start_total(a@, si);
            assert(class_seq(a@.take(0), si, t).len() == 0);
            assert(b@.subrange(class_start(a@, si, t), class_start(a@, si, t) + 0) =~= class_seq(
                a@.take(0),
                si,
                t,
            ));
        }
    }
    let mut i: usize = 0;
    while i < n
        invariant
            s < 4,
            si == s as int,
            i <= n,
            a@.len() == n,
            b@.len() == n,
            cnt@.len() == 257,
            forall|t: int|
                0 <= t < 256 ==> #[trigger] cnt@[t] == class_start(a@, si, t) + class_seq(
                    a@.take(i as int),
                    si,
                    t,
                ).len(),
            forall|t: int| 0 <= t < 256 ==> #[trigger] run_filled(b@, a@, si, t, i as int),
        decreases n - i,
    {
        let x = a[i];
        let d = digit_of(x, s);
        let ghost di: int = d as int;
        let ghost ii: int = i as int;
        let p = cnt[d];
        proof {
            assert(a@.take(ii + 1) =~= a@.take(ii).push(a@[ii]));
            lemma_class_push(a@.take(ii), a@[ii], si, di);
            lemma_class_take_len(a@, si, di, ii + 1);
            lemma_start_mono(a@, si, di + 1, 256);
            lemma_start_total(a@, si);
            assert(class_start(a@, si, di + 1) == class_start(a@, si, di) + class_seq(
                a@,
                si,
                di,
            ).len());
            assert(p < n);
        }
        let ghost b0: Seq<i32> = b@;
        proof {
            assert forall|t: int| 0 <= t < 256 implies #[trigger] run_filled(
                b0,
                a@,
                si,
                t,
                ii,
            ) by {
                assert(run_filled(b@, a@, si, t, i as int));
            }
        }
        b[p] = x;
        cnt[d] = p + 1;
        proof {
            assert forall|t: int| 0 <= t < 256 implies #[trigger] run_filled(
                b@,
                a@,
                si,
                t,
                ii + 1,
            ) by {
                lemma_class_push(a@.take(ii), a@[ii], si, t);
                lemma_class_take_len(a@, si, t, ii);
                lemma_class_take_len(a@, si, t, ii + 1);
                lemma_start_mono(a@, si, 0, t);
                lemma_start_mono(a@, si, t + 1, 256);
                lemma_start_total(a@, si);
                let st = class_start(a@, si, t);
                let ci = class_seq(a@.take(ii), si, t);
                let cn = class_seq(a@.take(ii + 1), si, t);
                assert(class_start(a@, si, t + 1) == st + class_seq(a@, si, t).len());
                if t == di {
                    assert(cn == ci.push(x));
                    assert(run_filled(b0, a@, si, t, ii));
                    assert forall|q: int| 0 <= q < cn.len() implies b@.subrange(
                        st,
                        st + cn.len(),
                    )[q] == cn[q] by {
                        if q < ci.len() {
                            assert(b0.subrange(st, st + ci.len())[q] == ci[q]);
                            assert(b@[st + q] == b0[st + q]);
                        } else {
                            assert(st + q == p);
                        }
                    }
                    assert(b@.subrange(st, st + cn.len()) =~= cn);
                } else {
                    assert(cn == ci);
                    // The write at `p` lands in the run of digit `di`,
                    // outside this one.
                    if t < di {
                        lemma_start_mono(a@, si, t + 1, di);
                        assert(st + ci.len() <= p);
                    } else {
                        lemma_start_mono(a@, si, di + 1, t);
                        assert(p < st);
                    }
                    assert(run_filled(b0, a@, si, t, ii));
                    assert forall|q: int| 0 <= q < ci.len() implies b@.subrange(
                        st,
                        st + ci.len(),
                    )[q] == ci[q] by {
                        assert(b0.subrange(st, st + ci.len())[q] == ci[q]);
                        assert(b@[st + q] == b0[st + q]);
                    }
                    assert(b@.subrange(st, st + cn.len()) =~= cn);
                }
            }
            assert forall|t: int|
                0 <= t < 256 implies #[trigger] cnt@[t] == class_start(a@, si, t) + class_seq(
                a@.take(ii + 1),
                si,
                t,
            ).len() by {
                lemma_class_push(a@.take(ii), a@[ii], si, t);
            }
        }
        i = i + 1;
    }

    // The runs, laid end to end, are the whole output.
    proof {
        assert(a@.take(n as int) =~= a@);
        assert forall|t: int| 0 <= t < 256 implies #[trigger] run_filled(
            b@,
            a@,
            si,
            t,
            a@.len() as int,
        ) by {
            assert(run_filled(b@, a@, si, t, n as int));
        }
        lemma_runs_cat(b@, a@, si, 256);
        lemma_start_total(a@, si);
        assert(b@.subrange(0, n as int) =~= b@);
        lemma_cat_multiset(a@, si);
        if low_sorted(a@, si) {
            lemma_cat_low_sorted(a@, si, 256);
        }
    }
    b
}

/// Sort a vector of 32-bit signed integers into ascending order by a
/// least-significant-digit radix sort: four counting-sort passes over 8-bit
/// digits, each scattering into a fresh buffer that then becomes the input
/// of the next pass.  The input vector is not changed; the result holds
/// exactly the same values, ascending.
pub fn radix_sort(vec: &Vec<i32>) -> (r: Vec<i32>)
    ensures
        sort_of(vec@, r@),
        r@.len() == vec@.len(),
{
    let n = vec.len();
    if n <= 1 {
        let r = copy_of(vec);
        return r;
    }
    let mut cur = copy_of(vec);
    for s in 0..4usize
        invariant
            cur@.len() == vec@.len(),
            cur@.to_multiset() == vec@.to_multiset(),
            low_sorted(cur@, s as int),
    {
        cur = counting_pass(&cur, s);
    }
    proof {
        assert forall|i: int, j: int| 0 <= i < j < cur@.len() implies cur@[i] <= cur@[j] by {
            lemma_low_full(cur@[i]);
            lemma_low_full(cur@[j]);
            assert(low(cur@[i], 4) <= low(cur@[j], 4));
        }
    }
    cur
}

/// Two ascending rearrangements of the same values are the same sequence:
/// the result of a correct sort is unique, so the radix sort agrees with any
/// correct ascending comparison sort.
pub proof fn lemma_sorted_unique(a: Seq<i32>, b: Seq<i32>)
    requires
        sorted(a),
        sorted(b),
        a.to_multiset() == b.to_multiset(),
    ensures
        a == b,
    decreases a.len(),
{
    broadcast use vstd::seq_lib::group_to_multiset_ensures;

    if a.len() == 0 {
        assert(a.to_multiset().len() == 0);
        assert(a =~= b);
    } else {
        assert(b.len() == a.len()) by {
            assert(a.len() == a.to_multiset().len());
            assert(b.len() == b.to_multiset().len());
        }
        let x = a[0];
        let y = b[0];
        assert(a.contains(x));
        assert(b.to_multiset().count(x) > 0);
        assert(b.contains(x));
        let k = choose|k: int| 0 <= k < b.len() && b[k] == x;
        assert(y <= x);
        assert(b.contains(y));
        assert(a.to_multiset().count(y) > 0);
        assert(a.contains(y));
        let m = choose|m: int| 0 <= m < a.len() && a[m] == y;
        assert(x <= y);
        let at = a.drop_first();
        let bt = b.drop_first();
        assert(a.remove(0) =~= at);
        assert(b.remove(0) =~= bt);
        assert(at.to_multiset() == a.to_multiset().remove(x));
        assert(bt.to_multiset() == b.to_multiset().remove(x));
        assert(sorted(at)) by {
            assert(forall|i: int, j: int|
                0 <= i < j < at.len() ==> at[i] == a[i + 1] && at[j] == a[j + 1]);
        }
        assert(sorted(bt)) by {
            assert(forall|i: int, j: int|
                0 <= i < j < bt.len() ==> bt[i] == b[i + 1] && bt[j] == b[j + 1]);
        }
        lemma_sorted_unique(at, bt);
        assert forall|i: int| 0 <= i < a.len() implies a[i] == b[i] by {
            if i > 0 {
                assert(a[i] == at[i - 1]);
                assert(b[i] == bt[i - 1]);
            }
        }
        assert(a =~= b);
    }
}

/// Sorting is idempotent: feeding a sort result through the sort again
/// changes nothing.
pub proof fn lemma_sort_idempotent(v: Seq<i32>, r1: Seq<i32>, r2: Seq<i32>)
    requires
        sort_of(v, r1),
        sort_of(r1, r2),
    ensures
        r2 == r1,
{
    lemma_sorted_unique(r1, r2);
}

/// A sequence that holds both `i32::MIN` and `i32::MAX` sorts with the
/// minimum first and the maximum last.
pub proof fn lemma_sort_of_extremes(v: Seq<i32>, r: Seq<i32>)
    requires
        sort_of(v, r),
        v.contains(i32::MIN),
        v.contains(i32::MAX),
    ensures
        r.len() == v.len(),
        r.first() == i32::MIN,
        r.last() == i32::MAX,
{
    broadcast use vstd::seq_lib::group_to_multiset_ensures;

    assert(r.len() == v.len()) by {
        assert(v.len() == v.to_multiset().len());
        assert(r.len() == r.to_multiset().len());
    }
    assert(v.to_multiset().count(i32::MIN) > 0);
    assert(r.contains(i32::MIN));
    let k = choose|k: int| 0 <= k < r.len() && r[k] == i32::MIN;
    assert(r.first() <= i32::MIN);
    assert(v.to_multiset().count(i32::MAX) > 0);
    assert(r.contains(i32::MAX));
    let m = choose|m: int| 0 <= m < r.len() && r[m] == i32::MAX;
    assert(r.last() >= i32::MAX);
}

/// Sorting a sequence of at most one element returns it unchanged.
pub proof fn lemma_sort_of_short(v: Seq<i32>, r: Seq<i32>)
    requires
        sort_of(v, r),
        v.len() <= 1,
    ensures
        r == v,
{
    broadcast use vstd::seq_lib::group_to_multiset_ensures;

    assert(r.len() == v.len()) by {
        assert(v.len() == v.to_multiset().len());
        assert(r.len() == r.to_multiset().len());
    }
    if v.len() == 0 {
        assert(r =~= v);
    } else {
        assert(v.contains(v[0]));
        assert(r.to_multiset().count(v[0]) > 0);
        assert(r.contains(v[0]));
        let k = choose|k: int| 0 <= k < r.len() && r[k] == v[0];
        assert(k == 0);
        assert(r =~= v);
    }
}

} // verus!

