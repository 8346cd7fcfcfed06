//! Canonical vectors of state identifiers.
//!
//! Sets of NFA states are kept as strictly sorted vectors, so that set
//! equality coincides with vector equality.  This module holds the sorting
//! and comparison helpers and the lemmas connecting vectors, their integer
//! images, and their element sets.

use vstd::prelude::*;
use vstd::seq_lib::*;
use vstd::set_lib::*;
use vstd::arithmetic::power2::*;

verus! {

/// Strictly ascending: sorted with no duplicates.
pub open spec fn strictly_sorted(s: Seq<usize>) -> bool {
    forall|i: int, j: int| 0 <= i < j < s.len() ==> s[i] < s[j]
}

/// The element set of a vector of identifiers, as mathematical integers.
pub open spec fn iset(s: Seq<usize>) -> Set<int> {
    s.map_values(|x: usize| x as int).to_set()
}

/// Membership in the integer image agrees with membership in the vector.
pub proof fn lemma_iset(s: Seq<usize>)
    ensures
        forall|x: usize| #[trigger] iset(s).contains(x as int) <==> s.contains(x),
        forall|t: int| #[trigger] iset(s).contains(t) ==> s.contains(t as usize) && (t as usize)
            as int == t,
{
    let m = s.map_values(|x: usize| x as int);
    assert forall|x: usize| #[trigger] iset(s).contains(x as int) <==> s.contains(x) by {
        if s.contains(x) {
            let i = choose|i: int| 0 <= i < s.len() && s[i] == x;
            assert(m[i] == x as int);
        }
        if m.contains(x as int) {
            let i = choose|i: int| 0 <= i < m.len() && m[i] == x as int;
            assert(s[i] as int == x as int);
            assert(s[i] == x);
        }
    }
    assert forall|t: int| #[trigger] iset(s).contains(t) implies s.contains(t as usize) && (
    t as usize) as int == t by {
        let i = choose|i: int| 0 <= i < m.len() && m[i] == t;
        assert(s[i] as int == t);
        assert(s[i] == t as usize);
    }
}

/// The integer image of a concatenation is the union of the images.
pub proof fn lemma_iset_concat(a: Seq<usize>, b: Seq<usize>)
    ensures
        iset(a + b) == iset(a).union(iset(b)),
{
    let ma = a.map_values(|x: usize| x as int);
    let mb = b.map_values(|x: usize| x as int);
    let mab = (a + b).map_values(|x: usize| x as int);
    assert forall|t: int| mab.to_set().contains(t) implies ma.to_set().contains(t)
        || mb.to_set().contains(t) by {
        let i = choose|i: int| 0 <= i < mab.len() && mab[i] == t;
        if i < a.len() {
            assert(ma[i] == t);
        } else {
            assert(mb[i - a.len()] == t);
        }
    }
    assert forall|t: int| ma.to_set().contains(t) implies mab.to_set().contains(t) by {
        let i = choose|i: int| 0 <= i < ma.len() && ma[i] == t;
        assert((a + b)[i] == a[i]);
        assert(mab[i] == t);
    }
    assert forall|t: int| mb.to_set().contains(t) implies mab.to_set().contains(t) by {
        let i = choose|i: int| 0 <= i < mb.len() && mb[i] == t;
        assert((a + b)[a.len() + i] == b[i]);
        assert(mab[a.len() + i] == t);
    }
    assert(iset(a + b) =~= iset(a).union(iset(b)));
}

/// Whether a vector holds a given identifier.
pub fn contains_usize(v: &Vec<usize>, x: usize) -> (r: bool)
    ensures
        r == v@.contains(x),
{
    let mut i: usize = 0;
    while i < v.len()
        invariant
            i <= v@.len(),
            forall|j: int| 0 <= j < i ==> v@[j] != x,
        decreases v@.len() - i,
    {
        if v[i] == x {
            return true;
        }
        i = i + 1;
    }
    false
}

/// Copy a vector of identifiers.
pub fn copy_vec(v: &Vec<usize>) -> (r: Vec<usize>)
    ensures
        r@ == v@,
{
    let mut r: Vec<usize> = Vec::new();
    let mut i: usize = 0;
    proof {
        assert(r@ =~= v@.take(0));
    }
    while i < v.len()
        invariant
            i <= v@.len(),
            r@ == v@.take(i as int),
        decreases v@.len() - i,
    {
        r.push(v[i]);
        proof {
            assert(v@.take(i as int).push(v@[i as int]) =~= v@.take(i as int + 1));
        }
        i = i + 1;
    }
    proof {
        assert(v@.take(v@.len() as int) =~= v@);
    }
    r
}

/// Whether a vector holds a given scalar.
pub fn contains_char(v: &Vec<char>, x: char) -> (r: bool)
    ensures
        r == v@.contains(x),
{
    let mut i: usize = 0;
    while i < v.len()
        invariant
            i <= v@.len(),
            forall|j: int| 0 <= j < i ==> v@[j] != x,
        decreases v@.len() - i,
    {
        if v[i] == x {
            return true;
        }
        i = i + 1;
    }
    false
}

/// Whether two vectors of identifiers are equal.
pub fn vec_eq(a: &Vec<usize>, b: &Vec<usize>) -> (r: bool)
    ensures
        r == (a@ == b@),
{
    if a.len() != b.len() {
        proof {
            assert(a@.len() != b@.len());
        }
        return false;
    }
    let mut i: usize = 0;
    while i < a.len()
        invariant
            a@.len() == b@.len(),
            i <= a@.len(),
            forall|j: int| 0 <= j < i ==> a@[j] == b@[j],
        decreases a@.len() - i,
    {
        if a[i] != b[i] {
            return false;
        }
        i = i + 1;
    }
    proof {
        assert(a@ =~= b@);
    }
    true
}

/// Append every element of `src` to `dst`, in order.
pub fn push_all(dst: &mut Vec<usize>, src: &Vec<usize>)
    ensures
        final(dst)@ == old(dst)@ + src@,
{
    let mut i: usize = 0;
    proof {
        assert(dst@ =~= old(dst)@ + src@.take(0));
    }
    while i < src.len()
        invariant
            i <= src@.len(),
            dst@ == old(dst)@ + src@.take(i as int),
        decreases src@.len() - i,
    {
        dst.push(src[i]);
        proof {
            assert(old(dst)@ + src@.take(i as int) + seq![src@[i as int]] =~= old(dst)@
                + src@.take(i as int + 1));
        }
        i = i + 1;
    }
    proof {
        assert(src@.take(src@.len() as int) =~= src@);
    }
}

/// Sort a vector of identifiers and drop duplicates: the canonical vector
/// with the same element set.
pub fn sort_dedup(v: &Vec<usize>) -> (r: Vec<usize>)
    ensures
        strictly_sorted(r@),
        r@.to_set() == v@.to_set(),
        iset(r@) == iset(v@),
{
    let mut out: Vec<usize> = Vec::new();
    let mut idx: usize = 0;
    proof {
        assert(out@.to_set() =~= v@.take(0).to_set());
    }
    while idx < v.len()
        invariant
            idx <= v@.len(),
            strictly_sorted(out@),
            out@.to_set() == v@.take(idx as int).to_set(),
        decreases v@.len() - idx,
    {
        let x = v[idx];
        let mut j: usize = 0;
        while j < out.len() && out[j] < x
            invariant
                j <= out@.len(),
                forall|jj: int| 0 <= jj < j ==> out@[jj] < x,
            decreases out@.len() - j,
        {
            j = j + 1;
        }
        let ghost pre = out@;
        if j < out.len() && out[j] == x {
            proof {
                assert(out@.contains(x));
                assert(out@.to_set() =~= pre.to_set().insert(x));
            }
        } else {
            out.insert(j, x);
            proof {
                assert(out@ =~= pre.take(j as int) + seq![x] + pre.skip(j as int));
                assert forall|a: int, b: int| 0 <= a < b < out@.len() implies out@[a]
                    < out@[b] by {
                    if j < pre.len() {
                        assert(pre[j as int] > x);
                    }
                }
                assert forall|e: usize| out@.to_set().contains(e) <==> pre.to_set().insert(
                    x,
                ).contains(e) by {
                    if out@.contains(e) {
                        let i = choose|i: int| 0 <= i < out@.len() && out@[i] == e;
                        if i < j {
                            assert(pre[i] == e);
                        } else if i == j {
                        } else {
                            assert(pre[i - 1] == e);
                        }
                    }
                    if pre.contains(e) {
                        let i = choose|i: int| 0 <= i < pre.len() && pre[i] == e;
                        if i < j {
                            assert(out@[i] == e);
                        } else {
                            assert(out@[i + 1] == e);
                        }
                    }
                    if e == x {
                        assert(out@[j as int] == e);
                    }
                }
                assert(out@.to_set() =~= pre.to_set().insert(x));
            }
        }
        proof {
            assert(v@.take(idx as int + 1) =~= v@.take(idx as int).push(x));
            v@.take(idx as int).lemma_push_to_set_commute(x);
            assert(v@.take(idx as int + 1).to_set() =~= v@.take(idx as int).to_set().insert(x));
        }
        idx = idx + 1;
    }
    proof {
        assert(v@.take(v@.len() as int) =~= v@);
        let m1 = out@.map_values(|y: usize| y as int);
        let m2 = v@.map_values(|y: usize| y as int);
        lemma_iset(out@);
        lemma_iset(v@);
        assert forall|t: int| iset(out@).contains(t) <==> iset(v@).contains(t) by {
            if iset(out@).contains(t) {
                assert(out@.contains(t as usize));
                assert(v@.to_set().contains(t as usize));
            }
            if iset(v@).contains(t) {
                assert(v@.contains(t as usize));
                assert(out@.to_set().contains(t as usize));
            }
        }
        assert(iset(out@) =~= iset(v@));
    }
    out
}

/// A vector of distinct integers drawn from a bounded range is no longer
/// than the range.
pub proof fn lemma_distinct_bounded(s: Seq<int>, lo: int, hi: int)
    requires
        s.no_duplicates(),
        lo <= hi,
        forall|i: int| 0 <= i < s.len() ==> lo <= #[trigger] s[i] < hi,
    ensures
        s.len() <= hi - lo,
{
    s.unique_seq_to_set();
    assert forall|t: int| s.to_set().contains(t) implies set_int_range(lo, hi).contains(t) by {
        assert(s.contains(t));
        let i = choose|i: int| 0 <= i < s.len() && s[i] == t;
    }
    assert(s.to_set().subset_of(set_int_range(lo, hi)));
    lemma_int_range(lo, hi);
    lemma_len_subset(s.to_set(), set_int_range(lo, hi));
}

/// What a canonical subset of state identifiers may hold: identifiers of
/// live states below `n`, or the dead sentinel `usize::MAX`.
pub open spec fn elems_ok(s: Seq<usize>, n: int) -> bool {
    forall|k: int| #![trigger s[k]] 0 <= k < s.len() ==> (((s[k] as int) < n) || (s[k]
        == usize::MAX))
}

/// Encode an element as a bit position: live identifiers keep their value,
/// the sentinel takes position `n`.
pub open spec fn enc(e: usize, n: int) -> int {
    if e == usize::MAX {
        n
    } else {
        e as int
    }
}

/// The bit mask of a canonical subset: one bit per element.
pub open spec fn mask(s: Seq<usize>, n: int) -> nat
    decreases s.len(),
{
    if s.len() == 0 {
        0
    } else if enc(s.last(), n) >= 0 {
        mask(s.drop_last(), n) + pow2(enc(s.last(), n) as nat)
    } else {
        mask(s.drop_last(), n)
    }
}

/// The mask of a canonical subset whose encodings lie below `m` lies below
/// the `m`-th power of two.
proof fn lemma_mask_lt(s: Seq<usize>, n: int, m: int)
    requires
        strictly_sorted(s),
        0 <= n <= usize::MAX as int,
        elems_ok(s, n),
        0 <= m,
        forall|k: int| 0 <= k < s.len() ==> enc(#[trigger] s[k], n) < m,
    ensures
        mask(s, n) < pow2(m as nat),
    decreases s.len(),
{
    lemma_pow2_pos(m as nat);
    if s.len() > 0 {
        let l = s.last();
        let el = enc(l, n);
        assert(0 <= el < m);
        assert forall|k: int| 0 <= k < s.drop_last().len() implies enc(
            #[trigger] s.drop_last()[k],
            n,
        ) < el by {
            assert(s.drop_last()[k] == s[k]);
            assert(s[k] < l);
            if l == usize::MAX {
                assert((s[k] as int) < n);
            }
        }
        lemma_mask_lt(s.drop_last(), n, el);
        lemma_pow2_adds(el as nat, 1);
        lemma2_to64();
        assert(mask(s, n) < pow2(el as nat) + pow2(el as nat));
        assert(pow2((el + 1) as nat) == pow2(el as nat) * 2);
        if el + 1 <= m - 1 {
            lemma_pow2_strictly_increases((el + 1) as nat, m as nat);
        }
    }
}

/// Distinct canonical subsets have distinct masks.
proof fn lemma_mask_inj(s1: Seq<usize>, s2: Seq<usize>, n: int)
    requires
        strictly_sorted(s1),
        strictly_sorted(s2),
        0 <= n <= usize::MAX as int,
        elems_ok(s1, n),
        elems_ok(s2, n),
        mask(s1, n) == mask(s2, n),
    ensures
        s1 == s2,
    decreases s1.len() + s2.len(),
{
    if s1.len() == 0 && s2.len() == 0 {
        assert(s1 =~= s2);
    } else if s1.len() == 0 {
        lemma_pow2_pos(enc(s2.last(), n) as nat);
        assert(mask(s2, n) > 0);
    } else if s2.len() == 0 {
        lemma_pow2_pos(enc(s1.last(), n) as nat);
        assert(mask(s1, n) > 0);
    } else {
        let e1 = enc(s1.last(), n);
        let e2 = enc(s2.last(), n);
        if e1 < e2 {
            assert forall|k: int| 0 <= k < s1.len() implies enc(#[trigger] s1[k], n) < e1 + 1 by {
                if k < s1.len() - 1 {
                    assert(s1[k] < s1.last());
                    if s1.last() == usize::MAX {
                        assert((s1[k] as int) < n);
                    }
                }
            }
            lemma_mask_lt(s1, n, e1 + 1);
            lemma_pow2_strictly_increases((e1 + 1) as nat, e2 as nat);
            assert(mask(s2, n) >= pow2(e2 as nat));
            assert(false);
        } else if e2 < e1 {
            assert forall|k: int| 0 <= k < s2.len() implies enc(#[trigger] s2[k], n) < e2 + 1 by {
                if k < s2.len() - 1 {
                    assert(s2[k] < s2.last());
                    if s2.last() == usize::MAX {
                        assert((s2[k] as int) < n);
                    }
                }
            }
            lemma_mask_lt(s2, n, e2 + 1);
            lemma_pow2_strictly_increases((e2 + 1) as nat, e1 as nat);
            assert(mask(s1, n) >= pow2(e1 as nat));
            assert(false);
        } else {
            assert(s1.last() == s2.last());
            lemma_mask_inj(s1.drop_last(), s2.drop_last(), n);
            assert(s1 =~= s1.drop_last().push(s1.last()));
            assert(s2 =~= s2.drop_last().push(s2.last()));
        }
    }
}

/// There are at most `2^(n+1)` distinct canonical subsets over `n` live
/// states and the sentinel.
pub proof fn lemma_subset_count(subs: Seq<Seq<usize>>, n: int)
    requires
        0 <= n <= usize::MAX as int,
        forall|i: int| 0 <= i < subs.len() ==> strictly_sorted(#[trigger] subs[i]),
        forall|i: int| 0 <= i < subs.len() ==> elems_ok(#[trigger] subs[i], n),
        forall|i: int, j: int| 0 <= i < j < subs.len() ==> subs[i] != subs[j],
    ensures
        subs.len() <= pow2((n + 1) as nat),
{
    let ms = Seq::new(subs.len(), |i: int| mask(subs[i], n) as int);
    assert forall|i: int, j: int|
        0 <= i < ms.len() && 0 <= j < ms.len() && i != j implies ms[i] != ms[j] by {
        if ms[i] == ms[j] {
            lemma_mask_inj(subs[i], subs[j], n);
        }
    }
    assert(ms.no_duplicates());
    assert forall|i: int| 0 <= i < ms.len() implies 0 <= #[trigger] ms[i] < pow2(
        (n + 1) as nat,
    ) as int by {
        assert forall|k: int| 0 <= k < subs[i].len() implies enc(#[trigger] subs[i][k], n) < n
            + 1 by {}
        lemma_mask_lt(subs[i], n, n + 1);
    }
    lemma_distinct_bounded(ms, 0, pow2((n + 1) as nat) as int);
}

} // verus!
