//! Digit classes: the view of one counting-sort pass.
//!
//! A pass over digit position `s` groups the input by digit value.  The
//! class of digit `d` is the subsequence of inputs whose digit at `s` is
//! `d`, kept in input order; the output of the pass is the 256 classes laid
//! end to end.  These functions and lemmas describe that layout.

use crate::digits::{dig, lemma_dig_bounds, lemma_dig_order, low, low_sorted};
use vstd::prelude::*;
use vstd::seq_lib::lemma_multiset_commutative;

verus! {

/// The elements of `v` whose digit at position `s` is `d`, in input order.
pub open spec fn class_seq(v: Seq<i32>, s: int, d: int) -> Seq<i32>
    decreases v.len(),
{
    if v.len() == 0 {
        Seq::empty()
    } else if dig(v.last(), s) == d {
        class_seq(v.drop_last(), s, d).push(v.last())
    } else {
        class_seq(v.drop_last(), s, d)
    }
}

/// Where the run of digit `d` begins in the output of a pass: the number of
/// elements of `v` whose digit at `s` is below `d`.
pub open spec fn class_start(v: Seq<i32>, s: int, d: int) -> int
    decreases d,
{
    if d <= 0 {
        0
    } else {
        class_start(v, s, d - 1) + class_seq(v, s, d - 1).len()
    }
}

/// The runs for digits below `d`, laid end to end: at `d == 256`, the whole
/// output of a pass.
pub open spec fn class_cat(v: Seq<i32>, s: int, d: int) -> Seq<i32>
    decreases d,
{
    if d <= 0 {
        Seq::empty()
    } else {
        class_cat(v, s, d - 1) + class_seq(v, s, d - 1)
    }
}

/// In `out`, the run of digit `d` holds exactly the digit-`d` elements of
/// the first `i` inputs, in input order.
pub open spec fn run_filled(out: Seq<i32>, v: Seq<i32>, s: int, d: int, i: int) -> bool {
    out.subrange(
        class_start(v, s, d),
        class_start(v, s, d) + class_seq(v.take(i), s, d).len(),
    ) == class_seq(v.take(i), s, d)
}

/// Appending one element extends its own class and no other.
pub proof fn lemma_class_push(v: Seq<i32>, x: i32, s: int, d: int)
    ensures
        class_seq(v.push(x), s, d) == (if dig(x, s) == d {
            class_seq(v, s, d).push(x)
        } else {
            class_seq(v, s, d)
        }),
{
    assert(v.push(x).drop_last() =~= v);
    assert(v.push(x).last() == x);
}

/// A class is no longer than the sequence it came from.
pub proof fn lemma_class_len(v: Seq<i32>, s: int, d: int)
    ensures
        class_seq(v, s, d).len() <= v.len(),
    decreases v.len(),
{
    if v.len() > 0 {
        lemma_class_len(v.drop_last(), s, d);
    }
}

/// A class of a prefix is no longer than the class of the whole.
pub proof fn lemma_class_take_len(v: Seq<i32>, s: int, d: int, i: int)
    requires
        0 <= i <= v.len(),
    ensures
        class_seq(v.take(i), s, d).len() <= class_seq(v, s, d).len(),
    decreases v.len() - i,
{
    if i == v.len() {
        assert(v.take(i) =~= v);
    } else {
        lemma_class_take_len(v, s, d, i + 1);
        assert(v.take(i + 1) =~= v.take(i).push(v[i]));
        lemma_class_push(v.take(i), v[i], s, d);
    }
}

/// Every element of the class of `d` has digit `d`.
pub proof fn lemma_class_dig(v: Seq<i32>, s: int, d: int)
    ensures
        forall|i: int|
            0 <= i < class_seq(v, s, d).len() ==> dig(#[trigger] class_seq(v, s, d)[i], s) == d,
    decreases v.len(),
{
    if v.len() > 0 {
        let u = v.drop_last();
        let x = v.last();
        lemma_class_dig(u, s, d);
        let c = class_seq(u, s, d);
        let w = class_seq(v, s, d);
        assert forall|i: int| 0 <= i < w.len() implies dig(#[trigger] w[i], s) == d by {
            if dig(x, s) == d {
                if i < c.len() {
                    assert(w[i] == c[i]);
                } else {
                    assert(w[i] == x);
                }
            } else {
                assert(w[i] == c[i]);
            }
        }
    }
}

/// An upper bound on the low parts of a sequence bounds its classes too.
proof fn lemma_class_low_max(v: Seq<i32>, s: int, d: int, m: i32)
    requires
        forall|i: int| 0 <= i < v.len() ==> low(#[trigger] v[i], s) <= low(m, s),
    ensures
        forall|i: int|
            0 <= i < class_seq(v, s, d).len() ==> low(
                #[trigger] class_seq(v, s, d)[i],
                s,
            ) <= low(m, s),
    decreases v.len(),
{
    if v.len() > 0 {
        let u = v.drop_last();
        let x = v.last();
        assert(forall|i: int| 0 <= i < u.len() ==> low(#[trigger] u[i], s) <= low(m, s));
        lemma_class_low_max(u, s, d, m);
        let c = class_seq(u, s, d);
        let w = class_seq(v, s, d);
        assert forall|i: int| 0 <= i < w.len() implies low(#[trigger] w[i], s) <= low(m, s) by {
            if dig(x, s) == d {
                if i < c.len() {
                    assert(w[i] == c[i]);
                } else {
                    assert(w[i] == x);
                }
            } else {
                assert(w[i] == c[i]);
            }
        }
    }
}

/// Taking a class keeps the order of the low key bits.
pub proof fn lemma_class_low_sorted(v: Seq<i32>, s: int, d: int)
    requires
        low_sorted(v, s),
    ensures
        low_sorted(class_seq(v, s, d), s),
    decreases v.len(),
{
    if v.len() > 0 {
        let u = v.drop_last();
        let x = v.last();
        assert(forall|i: int, j: int|
            0 <= i < j < u.len() ==> low(u[i], s) <= low(u[j], s)) by {
            assert(forall|i: int, j: int|
                0 <= i < j < u.len() ==> low(v[i], s) <= low(v[j], s));
        }
        lemma_class_low_sorted(u, s, d);
        assert(forall|i: int| 0 <= i < u.len() ==> low(#[trigger] u[i], s) <= low(x, s));
        lemma_class_low_max(u, s, d, x);
        if dig(x, s) == d {
            let c = class_seq(u, s, d);
            let w = class_seq(v, s, d);
            assert(w == c.push(x));
            assert forall|i: int, j: int| 0 <= i < j < w.len() implies low(w[i], s) <= low(
                w[j],
                s,
            ) by {
                if j < c.len() {
                } else {
                    assert(w[j] == x);
                }
            }
        }
    }
}

/// Run starts never decrease as the digit grows.
pub proof fn lemma_start_mono(v: Seq<i32>, s: int, d1: int, d2: int)
    requires
        d1 <= d2,
    ensures
        class_start(v, s, d1) <= class_start(v, s, d2),
    decreases d2 - d1,
{
    if d1 < d2 {
        lemma_start_mono(v, s, d1, d2 - 1);
    }
}

proof fn lemma_start_empty(s: int, d: int)
    ensures
        class_start(Seq::<i32>::empty(), s, d) == 0,
    decreases d,
{
    if d > 0 {
        lemma_start_empty(s, d - 1);
    }
}

/// Appending one element moves the starts of all higher digits up by one.
proof fn lemma_start_push(v: Seq<i32>, x: i32, s: int, d: int)
    ensures
        class_start(v.push(x), s, d) == class_start(v, s, d) + (if 0 <= dig(x, s) < d {
            1int
        } else {
            0int
        }),
    decreases d,
{
    if d > 0 {
        lemma_start_push(v, x, s, d - 1);
        lemma_class_push(v, x, s, d - 1);
    }
}

/// The 256 digit classes together hold every element: the runs cover the
/// whole output.
pub proof fn lemma_start_total(v: Seq<i32>, s: int)
    ensures
        class_start(v, s, 256) == v.len(),
    decreases v.len(),
{
    if v.len() == 0 {
        assert(v =~= Seq::<i32>::empty());
        lemma_start_empty(s, 256);
    } else {
        let u = v.drop_last();
        lemma_start_total(u, s);
        assert(u.push(v.last()) =~= v);
        lemma_start_push(u, v.last(), s, 256);
        lemma_dig_bounds(v.last(), s);
    }
}

proof fn lemma_cat_empty(s: int, d: int)
    ensures
        class_cat(Seq::<i32>::empty(), s, d) == Seq::<i32>::empty(),
    decreases d,
{
    if d > 0 {
        lemma_cat_empty(s, d - 1);
        assert(class_cat(Seq::<i32>::empty(), s, d) =~= Seq::<i32>::empty());
    }
}

/// Appending an element whose digit is at least `d` leaves the runs below
/// `d` unchanged.
proof fn lemma_cat_push_eq(v: Seq<i32>, x: i32, s: int, d: int)
    requires
        dig(x, s) >= d,
    ensures
        class_cat(v.push(x), s, d) == class_cat(v, s, d),
    decreases d,
{
    if d > 0 {
        lemma_cat_push_eq(v, x, s, d - 1);
        lemma_class_push(v, x, s, d - 1);
    }
}

/// Appending one element adds exactly that element, somewhere, to the
/// concatenated runs that cover its digit.
proof fn lemma_cat_push_multiset(v: Seq<i32>, x: i32, s: int, d: int)
    ensures
        class_cat(v.push(x), s, d).to_multiset() == (if 0 <= dig(x, s) < d {
            class_cat(v, s, d).to_multiset().insert(x)
        } else {
            class_cat(v, s, d).to_multiset()
        }),
    decreases d,
{
    broadcast use vstd::multiset::group_multiset_axioms;

    lemma_dig_bounds(x, s);
    if d > 0 {
        lemma_class_push(v, x, s, d - 1);
        if dig(x, s) == d - 1 {
            lemma_cat_push_eq(v, x, s, d - 1);
            let a = class_cat(v, s, d - 1);
            let c = class_seq(v, s, d - 1);
            assert(class_cat(v.push(x), s, d) == a + c.push(x));
            assert(a + c.push(x) =~= (a + c).push(x));
            vstd::seq_lib::to_multiset_build(a + c, x);
        } else if dig(x, s) < d - 1 {
            lemma_cat_push_multiset(v, x, s, d - 1);
            let a1 = class_cat(v.push(x), s, d - 1);
            let a = class_cat(v, s, d - 1);
            let c = class_seq(v, s, d - 1);
            lemma_multiset_commutative(a1, c);
            lemma_multiset_commutative(a, c);
            assert(a1.to_multiset().add(c.to_multiset()) =~= a.to_multiset().add(
                c.to_multiset(),
            ).insert(x));
        } else {
            lemma_cat_push_eq(v, x, s, d);
        }
    }
}

/// The concatenated 256 runs are a permutation of the input.
pub proof fn lemma_cat_multiset(v: Seq<i32>, s: int)
    ensures
        class_cat(v, s, 256).to_multiset() == v.to_multiset(),
    decreases v.len(),
{
    broadcast use vstd::seq_lib::group_to_multiset_ensures;

    if v.len() == 0 {
        assert(v =~= Seq::<i32>::empty());
        lemma_cat_empty(s, 256);
    } else {
        let u = v.drop_last();
        let x = v.last();
        lemma_cat_multiset(u, s);
        assert(u.push(x) =~= v);
        lemma_dig_bounds(x, s);
        lemma_cat_push_multiset(u, x, s, 256);
        assert(u.push(x).to_multiset() =~= u.to_multiset().insert(x));
    }
}

/// If the input is in order on the low `8*s` key bits, the concatenated runs
/// are in order on the low `8*(s+1)` bits; and every element placed so far
/// has digit below `d`.
pub proof fn lemma_cat_low_sorted(v: Seq<i32>, s: int, d: int)
    requires
        0 <= s <= 3,
        low_sorted(v, s),
    ensures
        low_sorted(class_cat(v, s, d), s + 1),
        forall|i: int|
            0 <= i < class_cat(v, s, d).len() ==> dig(#[trigger] class_cat(v, s, d)[i], s) < d,
    decreases d,
{
    if d > 0 {
        lemma_cat_low_sorted(v, s, d - 1);
        lemma_class_low_sorted(v, s, d - 1);
        lemma_class_dig(v, s, d - 1);
        let a = class_cat(v, s, d - 1);
        let c = class_seq(v, s, d - 1);
        let w = class_cat(v, s, d);
        assert(w == a + c);
        assert forall|i: int, j: int| 0 <= i < j < w.len() implies low(w[i], s + 1) <= low(
            w[j],
            s + 1,
        ) by {
            lemma_dig_order(w[i], w[j], s);
            if j < a.len() {
            } else if i >= a.len() {
                assert(w[i] == c[i - a.len()]);
                assert(w[j] == c[j - a.len()]);
                assert(low(c[i - a.len()], s) <= low(c[j - a.len()], s));
            } else {
                assert(dig(w[i], s) < d - 1);
                assert(dig(w[j], s) == d - 1);
            }
        }
        assert forall|i: int| 0 <= i < w.len() implies dig(#[trigger] w[i], s) < d by {
            if i >= a.len() {
                assert(w[i] == c[i - a.len()]);
            }
        }
    }
}

/// If in `out` each digit's run holds exactly that digit's class of all of
/// `v`, then the front of `out` is the concatenation of the runs.
pub proof fn lemma_runs_cat(out: Seq<i32>, v: Seq<i32>, s: int, d: int)
    requires
        0 <= d <= 256,
        out.len() == v.len(),
        forall|t: int| 0 <= t < 256 ==> #[trigger] run_filled(out, v, s, t, v.len() as int),
    ensures
        out.subrange(0, class_start(v, s, d)) == class_cat(v, s, d),
    decreases d,
{
    lemma_start_total(v, s);
    if d == 0 {
        assert(out.subrange(0, 0) =~= class_cat(v, s, 0));
    } else {
        lemma_runs_cat(out, v, s, d - 1);
        let st = class_start(v, s, d - 1);
        let en = class_start(v, s, d);
        lemma_start_mono(v, s, 0, d - 1);
        lemma_start_mono(v, s, d, 256);
        assert(run_filled(out, v, s, d - 1, v.len() as int));
        assert(v.take(v.len() as int) =~= v);
        assert(en == st + class_seq(v, s, d - 1).len());
        assert(out.subrange(st, en) == class_seq(v, s, d - 1));
        assert(out.subrange(0, en) =~= out.subrange(0, st) + out.subrange(st, en));
        assert(class_cat(v, s, d) == class_cat(v, s, d - 1) + class_seq(v, s, d - 1));
    }
}

} // verus!
