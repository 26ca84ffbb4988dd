//! Sorting routines over totally ordered copyable values.  Each one leaves
//! the vector holding the same values (as a multiset) in ascending order.

use vstd::prelude::*;
use vstd::seq_lib::lemma_multiset_commutative;
use vstd::multiset::Multiset;
use vstd::pervasive::VecAdditionalExecFns;
use crate::order::{CmpResult, TotalOrder};

verus! {

/// The values run in ascending order.
pub open spec fn sorted_leq<T: TotalOrder>(s: Seq<T>) -> bool {
    forall|i: int, j: int| 0 <= i < j < s.len() ==> (#[trigger] s[i]).leq(#[trigger] s[j])
}

fn leq_exec<T: TotalOrder>(a: &T, b: &T) -> (r: bool)
    ensures
        r == a.leq(*b),
{
    match a.cmp_with(b) {
        CmpResult::Lt => true,
        CmpResult::Eq => {
            proof {
                T::lemma_refl(*a);
            }
            true
        },
        CmpResult::Gt => {
            proof {
                if a.leq(*b) {
                    T::lemma_antisym(*a, *b);
                }
            }
            false
        },
    }
}

fn swap_in<T: Copy>(v: &mut Vec<T>, i: usize, j: usize)
    requires
        i < old(v)@.len(),
        j < old(v)@.len(),
    ensures
        final(v)@ == old(v)@.update(i as int, old(v)@[j as int]).update(j as int, old(v)@[i as int]),
{
    let a = v[i];
    let b = v[j];
    v.set(i, b);
    v.set(j, a);
}

proof fn lemma_swap_multiset<T>(s: Seq<T>, i: int, j: int)
    requires
        0 <= i < s.len(),
        0 <= j < s.len(),
    ensures
        s.update(i, s[j]).update(j, s[i]).to_multiset() == s.to_multiset(),
{
    let u = s.update(i, s[j]).update(j, s[i]);
    if i == j {
        assert(u =~= s);
    } else {
        let lo = if i < j { i } else { j };
        let hi = if i < j { j } else { i };
        let p1 = s.subrange(0, lo);
        let m1 = seq![s[lo]];
        let p2 = s.subrange(lo + 1, hi);
        let m2 = seq![s[hi]];
        let p3 = s.subrange(hi + 1, s.len() as int);
        assert(s =~= p1 + m1 + p2 + m2 + p3);
        assert(u =~= p1 + m2 + p2 + m1 + p3);
        lemma_multiset_commutative(p1, m1);
        lemma_multiset_commutative(p1 + m1, p2);
        lemma_multiset_commutative(p1 + m1 + p2, m2);
        lemma_multiset_commutative(p1 + m1 + p2 + m2, p3);
        lemma_multiset_commutative(p1, m2);
        lemma_multiset_commutative(p1 + m2, p2);
        lemma_multiset_commutative(p1 + m2 + p2, m1);
        lemma_multiset_commutative(p1 + m2 + p2 + m1, p3);
        assert(u.to_multiset() =~= s.to_multiset());
    }
}

/// Compares neighbours and floats the greatest value of the unsorted prefix
/// to its end, pass by pass; a pass without a swap ends the sort early.
pub fn bubble_sort<T: TotalOrder>(vec: &mut Vec<T>)
    ensures
        sorted_leq(final(vec)@),
        final(vec)@.to_multiset() == old(vec)@.to_multiset(),
{
    let n = vec.len();
    if n == 0 {
        return;
    }
    let mut i: usize = 0;
    let mut keep_going = true;
    while keep_going && i < n
        invariant
            n == vec@.len(),
            0 <= i <= n,
            vec@.to_multiset() == old(vec)@.to_multiset(),
            forall|a: int, b: int|
                n - i <= a < b < n ==> (#[trigger] vec@[a]).leq(#[trigger] vec@[b]),
            forall|a: int, b: int|
                0 <= a < n - i <= b < n ==> (#[trigger] vec@[a]).leq(#[trigger] vec@[b]),
            !keep_going ==> sorted_leq(vec@),
        decreases n - i,
    {
        let mut swapped = false;
        let mut x: usize = 0;
        proof {
            T::lemma_refl(vec@[0]);
        }
        while x + 1 < n - i
            invariant
                n == vec@.len(),
                0 <= i < n,
                0 <= x < n - i,
                vec@.to_multiset() == old(vec)@.to_multiset(),
                forall|a: int| 0 <= a <= x ==> (#[trigger] vec@[a]).leq(vec@[x as int]),
                forall|a: int, b: int|
                    n - i <= a < b < n ==> (#[trigger] vec@[a]).leq(#[trigger] vec@[b]),
                forall|a: int, b: int|
                    0 <= a < n - i <= b < n ==> (#[trigger] vec@[a]).leq(#[trigger] vec@[b]),
                !swapped ==> sorted_leq(vec@.take(x as int + 1)),
            decreases n - i - x,
        {
            let ghost before = vec@;
            if !leq_exec(&vec[x], &vec[x + 1]) {
                proof {
                    T::lemma_total(before[x as int], before[x as int + 1]);
                }
                swap_in(vec, x, x + 1);
                swapped = true;
                proof {
                    lemma_swap_multiset(before, x as int, x as int + 1);
                    assert forall|a: int| 0 <= a <= x + 1 implies (#[trigger] vec@[a]).leq(
                        vec@[x as int + 1],
                    ) by {
                        if a < x {
                            assert(vec@[a] == before[a]);
                            assert(before[a].leq(before[x as int]));
                        } else if a == x + 1 {
                            T::lemma_refl(before[x as int]);
                        }
                    }
                }
            } else {
                proof {
                    assert forall|a: int| 0 <= a <= x + 1 implies (#[trigger] vec@[a]).leq(
                        vec@[x as int + 1],
                    ) by {
                        if a <= x {
                            T::lemma_trans(vec@[a], vec@[x as int], vec@[x as int + 1]);
                        } else {
                            T::lemma_refl(vec@[x as int + 1]);
                        }
                    }
                    if !swapped {
                        let t = vec@.take(x as int + 2);
                        assert forall|a: int, b: int| 0 <= a < b < t.len() implies (
                        #[trigger] t[a]).leq(#[trigger] t[b]) by {
                            assert(t[a] == vec@[a] && t[b] == vec@[b]);
                            if b <= x {
                                assert(vec@.take(x as int + 1)[a] == vec@[a]);
                                assert(vec@.take(x as int + 1)[b] == vec@[b]);
                            } else {
                                assert(vec@[a].leq(vec@[x as int + 1]));
                            }
                        }
                    }
                }
            }
            x += 1;
        }
        proof {
            // The carried maximum makes the prefix boundary move one left.
            assert forall|a: int, b: int| 0 <= a < n - i - 1 <= b < n implies (
            #[trigger] vec@[a]).leq(#[trigger] vec@[b]) by {
                if b == n - i - 1 {
                    assert(vec@[a].leq(vec@[(n - i - 1) as int]));
                } else {
                    T::lemma_trans(vec@[a], vec@[(n - i - 1) as int], vec@[b]);
                }
            }
            assert forall|a: int, b: int| n - i - 1 <= a < b < n implies (#[trigger] vec@[a]).leq(
                #[trigger] vec@[b],
            ) by {
                if a == n - i - 1 {
                    assert(vec@[a].leq(vec@[b]));
                }
            }
        }
        if !swapped {
            keep_going = false;
            proof {
                let x0 = n - i - 1;
                assert forall|a: int, b: int| 0 <= a < b < n implies (#[trigger] vec@[a]).leq(
                    #[trigger] vec@[b],
                ) by {
                    if b <= x0 {
                        assert(vec@.take(x0 as int + 1)[a] == vec@[a]);
                        assert(vec@.take(x0 as int + 1)[b] == vec@[b]);
                    } else {
                        assert(vec@[a].leq(vec@[b]));
                    }
                }
            }
        }
        i += 1;
    }
}

/// Finds the least remaining value each round and swaps it to the front of
/// the unsorted part.
pub fn selection_sort<T: TotalOrder>(vec: &mut Vec<T>)
    ensures
        sorted_leq(final(vec)@),
        final(vec)@.to_multiset() == old(vec)@.to_multiset(),
{
    let n = vec.len();
    let mut i: usize = 0;
    while i < n
        invariant
            n == vec@.len(),
            0 <= i <= n,
            vec@.to_multiset() == old(vec)@.to_multiset(),
            sorted_leq(vec@.take(i as int)),
            forall|a: int, b: int| 0 <= a < i <= b < n ==> (#[trigger] vec@[a]).leq(
                #[trigger] vec@[b],
            ),
        decreases n - i,
    {
        let mut idx: usize = i;
        let mut j: usize = i + 1;
        proof {
            T::lemma_refl(vec@[i as int]);
        }
        while j < n
            invariant
                n == vec@.len(),
                i <= idx < j <= n,
                idx < n,
                forall|b: int| i <= b < j ==> vec@[idx as int].leq(#[trigger] vec@[b]),
            decreases n - j,
        {
            if !leq_exec(&vec[idx], &vec[j]) {
                proof {
                    T::lemma_total(vec@[idx as int], vec@[j as int]);
                    let old_idx = idx as int;
                    assert forall|b: int| i <= b < j + 1 implies vec@[j as int].leq(
                        #[trigger] vec@[b],
                    ) by {
                        if b < j {
                            T::lemma_trans(vec@[j as int], vec@[old_idx], vec@[b]);
                        } else {
                            T::lemma_refl(vec@[j as int]);
                        }
                    }
                }
                idx = j;
            } else {
                proof {
                    T::lemma_refl(vec@[j as int]);
                }
            }
            j += 1;
        }
        if idx != i {
            let ghost before = vec@;
            swap_in(vec, idx, i);
            proof {
                lemma_swap_multiset(before, idx as int, i as int);
                assert(vec@.take(i as int) =~= before.take(i as int));
            }
        }
        proof {
            assert forall|a: int, b: int| 0 <= a < i + 1 <= b < n implies (#[trigger] vec@[a]).leq(
                #[trigger] vec@[b],
            ) by {
                if a < i {
                    assert(vec@[a].leq(vec@[b]));
                } else {
                    assert(vec@[i as int].leq(vec@[b]));
                }
            }
            let t = vec@.take(i as int + 1);
            assert forall|a: int, b: int| 0 <= a < b < t.len() implies (#[trigger] t[a]).leq(
                #[trigger] t[b],
            ) by {
                assert(t[a] == vec@[a] && t[b] == vec@[b]);
                if b < i {
                    assert(vec@.take(i as int)[a] == vec@[a]);
                    assert(vec@.take(i as int)[b] == vec@[b]);
                }
            }
        }
        i += 1;
    }
    proof {
        assert(vec@.take(n as int) =~= vec@);
    }
}

proof fn lemma_move_multiset<T>(p: Seq<T>, q: Seq<T>, r: Seq<T>, x: T)
    ensures
        (p + seq![x] + q + r).to_multiset() == (p + q + seq![x] + r).to_multiset(),
{
    lemma_multiset_commutative(p, seq![x]);
    lemma_multiset_commutative(p + seq![x], q);
    lemma_multiset_commutative(p + seq![x] + q, r);
    lemma_multiset_commutative(p, q);
    lemma_multiset_commutative(p + q, seq![x]);
    lemma_multiset_commutative(p + q + seq![x], r);
    assert((p + seq![x] + q + r).to_multiset() =~= (p + q + seq![x] + r).to_multiset());
}

/// Grows a sorted prefix: each round lifts the first unsorted value out,
/// shifts the greater prefix values one slot right, and drops the value
/// into the gap.
pub fn insertion_sort<T: TotalOrder>(vec: &mut Vec<T>)
    ensures
        sorted_leq(final(vec)@),
        final(vec)@.to_multiset() == old(vec)@.to_multiset(),
{
    let n = vec.len();
    if n == 0 {
        return;
    }
    let mut i: usize = 1;
    while i < n
        invariant
            n == vec@.len(),
            1 <= i <= n,
            vec@.to_multiset() == old(vec)@.to_multiset(),
            sorted_leq(vec@.take(i as int)),
        decreases n - i,
    {
        let temp = vec[i];
        let ghost t0 = vec@;
        let mut j: usize = i;
        while j > 0 && !leq_exec(&vec[j - 1], &temp)
            invariant
                n == vec@.len(),
                0 <= j <= i < n,
                temp == t0[i as int],
                sorted_leq(t0.take(i as int)),
                forall|a: int| 0 <= a < j ==> vec@[a] == t0[a],
                forall|a: int| j < a <= i ==> vec@[a] == t0[a - 1],
                forall|a: int| i < a < n ==> vec@[a] == t0[a],
                forall|a: int| j < a <= i ==> temp.leq(#[trigger] vec@[a]) && temp != vec@[a],
            decreases j,
        {
            proof {
                T::lemma_total(vec@[j as int - 1], temp);
            }
            let v = vec[j - 1];
            vec.set(j, v);
            j -= 1;
        }
        let ghost jf = j as int;
        vec.set(j, temp);
        proof {
            let t1 = vec@;
            let ii = i as int;
            // The new prefix is sorted: left of the gap the old sorted
            // prefix, the lifted value in the gap, the shifted values after.
            assert forall|a: int, b: int| 0 <= a < b < ii + 1 implies (
            #[trigger] t1.take(ii + 1)[a]).leq(#[trigger] t1.take(ii + 1)[b]) by {
                assert(t1.take(ii + 1)[a] == t1[a] && t1.take(ii + 1)[b] == t1[b]);
                if b < jf {
                    assert(t0.take(ii)[a] == t0[a] && t0.take(ii)[b] == t0[b]);
                } else if a < jf && b == jf {
                    assert(t1[a] == t0[a] && t1[b] == temp);
                    assert(t0.take(ii)[a] == t0[a] && t0.take(ii)[jf - 1] == t0[jf - 1]);
                    if a < jf - 1 {
                        T::lemma_trans(t0[a], t0[jf - 1], temp);
                    }
                } else if a < jf && b > jf {
                    assert(t1[a] == t0[a] && t1[b] == t0[b - 1]);
                    assert(t0.take(ii)[a] == t0[a] && t0.take(ii)[b - 1] == t0[b - 1]);
                } else if a == jf && b > jf {
                    assert(t1[b] == t0[b - 1]);
                    assert(temp.leq(t1[b]));
                } else {
                    assert(t1[a] == t0[a - 1] && t1[b] == t0[b - 1]);
                    assert(t0.take(ii)[a - 1] == t0[a - 1] && t0.take(ii)[b - 1] == t0[b - 1]);
                }
            }
            // Same values: the lifted one moved from slot `i` to the gap.
            let p = t0.take(jf);
            let q = t0.subrange(jf, ii);
            let r = t0.subrange(ii + 1, n as int);
            assert(t1 =~= p + seq![temp] + q + r);
            assert(t0 =~= p + q + seq![temp] + r);
            lemma_move_multiset(p, q, r, temp);
        }
        i += 1;
    }
    proof {
        assert(vec@.take(n as int) =~= vec@);
    }
}

/// Splits the values in half, sorts each half, and merges the two sorted
/// halves by repeatedly taking the smaller front value.
pub fn merge_sort<T: TotalOrder>(vec: Vec<T>) -> (out: Vec<T>)
    ensures
        sorted_leq(out@),
        out@.to_multiset() == vec@.to_multiset(),
    decreases vec@.len(),
{
    let len = vec.len();
    if len <= 1 {
        return vec;
    }
    let mut first = vec;
    let second = first.split_off(len / 2);
    let ghost f0 = first@;
    let ghost s0 = second@;
    let sorted_second = merge_sort(second);
    let sorted_first = merge_sort(first);
    let ghost fs = sorted_first@;
    let ghost ss = sorted_second@;
    let mut out: Vec<T> = Vec::new();
    let mut a: usize = 0;
    let mut b: usize = 0;
    proof {
        assert(fs.take(0) =~= Seq::<T>::empty());
        assert(ss.take(0) =~= Seq::<T>::empty());
        Seq::<T>::empty().to_multiset_ensures();
        assert(Seq::<T>::empty().to_multiset() =~= Multiset::<T>::empty());
        assert(out@.to_multiset() =~= fs.take(0).to_multiset().add(ss.take(0).to_multiset()));
    }
    while a < sorted_first.len() || b < sorted_second.len()
        invariant
            fs == sorted_first@,
            ss == sorted_second@,
            a <= fs.len(),
            b <= ss.len(),
            sorted_leq(fs),
            sorted_leq(ss),
            sorted_leq(out@),
            out@.to_multiset() == fs.take(a as int).to_multiset().add(
                ss.take(b as int).to_multiset(),
            ),
            forall|q: int|
                0 <= q < out@.len() && a < fs.len() ==> (#[trigger] out@[q]).leq(fs[a as int]),
            forall|q: int|
                0 <= q < out@.len() && b < ss.len() ==> (#[trigger] out@[q]).leq(ss[b as int]),
        decreases fs.len() - a + ss.len() - b,
    {
        let ghost out0 = out@;
        let take_second: bool = if a >= sorted_first.len() {
            true
        } else if b >= sorted_second.len() {
            false
        } else {
            !leq_exec(&sorted_first[a], &sorted_second[b])
        };
        if take_second {
            let v = sorted_second[b];
            out.push(v);
            proof {
                let bi = b as int;
                if a < fs.len() {
                    T::lemma_total(fs[a as int], ss[bi]);
                }
                assert(out@ == out0.push(ss[bi]));
                assert(ss.take(bi + 1) =~= ss.take(bi).push(ss[bi]));
                out0.to_multiset_ensures();
                ss.take(bi).to_multiset_ensures();
                assert(out@.to_multiset() =~= fs.take(a as int).to_multiset().add(
                    ss.take(bi + 1).to_multiset(),
                ));
                assert forall|q: int, w: int| 0 <= q < w < out@.len() implies (
                #[trigger] out@[q]).leq(#[trigger] out@[w]) by {
                    if w == out@.len() - 1 {
                        assert(out@[q] == out0[q] && out@[w] == ss[bi]);
                    }
                }
                assert forall|q: int|
                    0 <= q < out@.len() && bi + 1 < ss.len() implies (#[trigger] out@[q]).leq(
                    ss[bi + 1],
                ) by {
                    assert(ss[bi].leq(ss[bi + 1]));
                    if q < out0.len() {
                        T::lemma_trans(out0[q], ss[bi], ss[bi + 1]);
                    }
                }
                assert forall|q: int|
                    0 <= q < out@.len() && a < fs.len() implies (#[trigger] out@[q]).leq(
                    fs[a as int],
                ) by {
                    if q == out@.len() - 1 {
                        assert(ss[bi].leq(fs[a as int]));
                    }
                }
            }
            b += 1;
        } else {
            let v = sorted_first[a];
            out.push(v);
            proof {
                let ai = a as int;
                if b < ss.len() {
                    T::lemma_refl(fs[ai]);
                }
                assert(out@ == out0.push(fs[ai]));
                assert(fs.take(ai + 1) =~= fs.take(ai).push(fs[ai]));
                out0.to_multiset_ensures();
                fs.take(ai).to_multiset_ensures();
                assert(out@.to_multiset() =~= fs.take(ai + 1).to_multiset().add(
                    ss.take(b as int).to_multiset(),
                ));
                assert forall|q: int, w: int| 0 <= q < w < out@.len() implies (
                #[trigger] out@[q]).leq(#[trigger] out@[w]) by {
                    if w == out@.len() - 1 {
                        assert(out@[q] == out0[q] && out@[w] == fs[ai]);
                    }
                }
                assert forall|q: int|
                    0 <= q < out@.len() && ai + 1 < fs.len() implies (#[trigger] out@[q]).leq(
                    fs[ai + 1],
                ) by {
                    assert(fs[ai].leq(fs[ai + 1]));
                    if q < out0.len() {
                        T::lemma_trans(out0[q], fs[ai], fs[ai + 1]);
                    }
                }
                assert forall|q: int|
                    0 <= q < out@.len() && b < ss.len() implies (#[trigger] out@[q]).leq(
                    ss[b as int],
                ) by {
                    if q == out@.len() - 1 {
                        assert(fs[ai].leq(ss[b as int]));
                    }
                }
            }
            a += 1;
        }
    }
    proof {
        assert(fs.take(fs.len() as int) =~= fs);
        assert(ss.take(ss.len() as int) =~= ss);
        lemma_multiset_commutative(f0, s0);
        assert(f0 + s0 =~= vec@);
    }
    out
}

proof fn lemma_multiset_keeps_le<T: TotalOrder>(s1: Seq<T>, s2: Seq<T>, p: T)
    requires
        s1.to_multiset() == s2.to_multiset(),
        forall|i: int| 0 <= i < s1.len() ==> (#[trigger] s1[i]).leq(p),
    ensures
        forall|i: int| 0 <= i < s2.len() ==> (#[trigger] s2[i]).leq(p),
{
    s1.to_multiset_ensures();
    s2.to_multiset_ensures();
    assert forall|i: int| 0 <= i < s2.len() implies (#[trigger] s2[i]).leq(p) by {
        assert(s2.contains(s2[i]));
        assert(s2.to_multiset().count(s2[i]) > 0);
        assert(s1.to_multiset().count(s2[i]) > 0);
        assert(s1.contains(s2[i]));
        let j = choose|j: int| 0 <= j < s1.len() && s1[j] == s2[i];
        assert(s1[j].leq(p));
    }
}

proof fn lemma_multiset_keeps_ge<T: TotalOrder>(s1: Seq<T>, s2: Seq<T>, p: T)
    requires
        s1.to_multiset() == s2.to_multiset(),
        forall|i: int| 0 <= i < s1.len() ==> p.leq(#[trigger] s1[i]),
    ensures
        forall|i: int| 0 <= i < s2.len() ==> p.leq(#[trigger] s2[i]),
{
    s1.to_multiset_ensures();
    s2.to_multiset_ensures();
    assert forall|i: int| 0 <= i < s2.len() implies p.leq(#[trigger] s2[i]) by {
        assert(s2.contains(s2[i]));
        assert(s2.to_multiset().count(s2[i]) > 0);
        assert(s1.to_multiset().count(s2[i]) > 0);
        assert(s1.contains(s2[i]));
        let j = choose|j: int| 0 <= j < s1.len() && s1[j] == s2[i];
        assert(p.leq(s1[j]));
    }
}

fn quick_sort_range<T: TotalOrder>(vec: &mut Vec<T>, start: usize, end: usize)
    requires
        start <= end,
        end <= old(vec)@.len(),
    ensures
        final(vec)@.len() == old(vec)@.len(),
        forall|q: int| 0 <= q < start ==> final(vec)@[q] == old(vec)@[q],
        forall|q: int| end <= q < old(vec)@.len() ==> final(vec)@[q] == old(vec)@[q],
        final(vec)@.subrange(start as int, end as int).to_multiset() == old(vec)@.subrange(
            start as int,
            end as int,
        ).to_multiset(),
        sorted_leq(final(vec)@.subrange(start as int, end as int)),
    decreases end - start,
{
    if end - start <= 1 {
        return;
    }
    let ghost v0 = vec@;
    let n = vec.len();
    let pivot = vec[start];
    let mut lm: usize = start + 1;
    let mut rm: usize = end - 1;
    while lm <= rm
        invariant
            vec@.len() == n,
            start + 1 < end <= n,
            start < lm <= end,
            start <= rm < end,
            lm <= rm + 1,
            vec@[start as int] == pivot,
            forall|q: int| 0 <= q < start ==> vec@[q] == v0[q],
            forall|q: int| end <= q < n ==> vec@[q] == v0[q],
            vec@.subrange(start as int, end as int).to_multiset() == v0.subrange(
                start as int,
                end as int,
            ).to_multiset(),
            forall|q: int| start < q < lm ==> (#[trigger] vec@[q]).leq(pivot),
            forall|q: int| rm < q < end ==> pivot.leq(#[trigger] vec@[q]),
        decreases rm + 1 - lm,
    {
        if leq_exec(&vec[lm], &pivot) {
            lm += 1;
        } else if leq_exec(&pivot, &vec[rm]) {
            rm -= 1;
        } else {
            proof {
                T::lemma_total(vec@[lm as int], pivot);
                T::lemma_total(pivot, vec@[rm as int]);
            }
            let ghost before = vec@;
            swap_in(vec, lm, rm);
            proof {
                let s = start as int;
                let e = end as int;
                let bsub = before.subrange(s, e);
                assert(vec@.subrange(s, e) =~= bsub.update(lm - s, bsub[rm - s]).update(
                    rm - s,
                    bsub[lm - s],
                ));
                lemma_swap_multiset(bsub, lm - s, rm - s);
            }
            lm += 1;
            rm -= 1;
        }
    }
    let ghost before_place = vec@;
    swap_in(vec, start, lm - 1);
    proof {
        let s = start as int;
        let e = end as int;
        let bsub = before_place.subrange(s, e);
        assert(vec@.subrange(s, e) =~= bsub.update(0, bsub[lm - 1 - s]).update(lm - 1 - s, bsub[0]));
        lemma_swap_multiset(bsub, 0, lm - 1 - s);
        assert(vec@[lm - 1] == pivot);
        assert forall|q: int| s <= q < lm - 1 implies (#[trigger] vec@[q]).leq(pivot) by {
            if q > s {
                assert(vec@[q] == before_place[q]);
            }
        }
    }
    let ghost placed = vec@;
    let mid = lm - 1;
    quick_sort_range(vec, start, mid);
    let ghost after_left = vec@;
    quick_sort_range(vec, lm, end);
    proof {
        let s = start as int;
        let e = end as int;
        let m = mid as int;
        // The pivot slot and the right part were outside the first call's
        // range, and the left part and pivot slot outside the second's.
        assert(vec@[m] == pivot);
        assert(after_left.subrange(s, m).to_multiset() == placed.subrange(s, m).to_multiset());
        assert(vec@.subrange(s, m) =~= after_left.subrange(s, m));
        assert(vec@.subrange(m + 1, e).to_multiset() == after_left.subrange(
            m + 1,
            e,
        ).to_multiset()) by {
            assert(vec@.subrange(m + 1, e) =~= vec@.subrange(lm as int, e));
            assert(after_left.subrange(m + 1, e) =~= after_left.subrange(lm as int, e));
        }
        // Each side still holds values on its side of the pivot.
        lemma_multiset_keeps_le(placed.subrange(s, m), vec@.subrange(s, m), pivot);
        assert forall|q: int| m < q < e implies pivot.leq(#[trigger] placed[q]) by {
            assert(placed[q] == before_place[q]);
        }
        assert(placed.subrange(m + 1, e) =~= after_left.subrange(m + 1, e));
        lemma_multiset_keeps_ge(placed.subrange(m + 1, e), vec@.subrange(m + 1, e), pivot);
        // Sortedness of the assembled range.
        let fin = vec@.subrange(s, e);
        assert forall|a: int, b: int| 0 <= a < b < fin.len() implies (#[trigger] fin[a]).leq(
            #[trigger] fin[b],
        ) by {
            let ls = vec@.subrange(s, m);
            let rs = vec@.subrange(m + 1, e);
            assert(fin[a] == vec@[s + a] && fin[b] == vec@[s + b]);
            if s + b < m {
                assert(ls[a] == vec@[s + a] && ls[b] == vec@[s + b]);
            } else if s + b == m {
                if s + a < m {
                    assert(ls[a] == vec@[s + a]);
                    assert(vec@[s + a].leq(pivot));
                }
            } else {
                assert(rs[s + b - m - 1] == vec@[s + b]);
                assert(pivot.leq(vec@[s + b]));
                if s + a < m {
                    assert(ls[a] == vec@[s + a]);
                    assert(vec@[s + a].leq(pivot));
                    T::lemma_trans(vec@[s + a], pivot, vec@[s + b]);
                } else if s + a == m {
                } else {
                    assert(rs[s + a - m - 1] == vec@[s + a] && rs[s + b - m - 1] == vec@[s + b]);
                }
            }
        }
        // The pieces carry the same values throughout.
        let mpc = seq![pivot];
        assert(placed.subrange(s, e) =~= placed.subrange(s, m) + mpc + placed.subrange(m + 1, e));
        assert(fin =~= vec@.subrange(s, m) + mpc + vec@.subrange(m + 1, e));
        lemma_multiset_commutative(placed.subrange(s, m), mpc);
        lemma_multiset_commutative(placed.subrange(s, m) + mpc, placed.subrange(m + 1, e));
        lemma_multiset_commutative(vec@.subrange(s, m), mpc);
        lemma_multiset_commutative(vec@.subrange(s, m) + mpc, vec@.subrange(m + 1, e));
        assert(fin.to_multiset() =~= placed.subrange(s, e).to_multiset());
    }
}

/// Partitions around the first value of the range and sorts both sides in
/// place.  The recursion leaves the settled pivot slot out of both sides, so
/// every range, duplicate values included, gets strictly smaller.
pub fn quick_sort<T: TotalOrder>(vec: &mut Vec<T>)
    ensures
        sorted_leq(final(vec)@),
        final(vec)@.to_multiset() == old(vec)@.to_multiset(),
{
    let n = vec.len();
    quick_sort_range(vec, 0, n);
    proof {
        assert(vec@.subrange(0, n as int) =~= vec@);
        assert(old(vec)@.subrange(0, n as int) =~= old(vec)@);
    }
}

} // verus!
