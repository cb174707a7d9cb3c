//! A verified merge sort for values that carry their own order.
use vstd::prelude::*;
use vstd::multiset::Multiset;

verus! {

broadcast use vstd::seq_lib::group_to_multiset_ensures;

/// Values with a strict weak order.
pub trait Ranked: Sized {
    /// `self` comes strictly before `other`.
    spec fn rank_lt(self, other: Self) -> bool;

    /// Decides `rank_lt`.
    fn precedes(&self, other: &Self) -> (r: bool)
        ensures
            r == self.rank_lt(*other);

    /// `rank_lt` is asymmetric and transitive, and so is "comes no later".
    proof fn lemma_rank_order(a: Self, b: Self, c: Self)
        ensures
            !(a.rank_lt(b) && b.rank_lt(a)),
            a.rank_lt(b) && b.rank_lt(c) ==> a.rank_lt(c),
            !b.rank_lt(a) && !c.rank_lt(b) ==> !c.rank_lt(a);
}

/// No element comes strictly before an earlier one.
pub open spec fn ranked_sorted<T: Ranked>(s: Seq<T>) -> bool {
    forall|i: int, j: int| 0 <= i < j < s.len() ==> !(#[trigger] s[j]).rank_lt(#[trigger] s[i])
}

/// No element comes strictly after an earlier one.
pub open spec fn ranked_descending<T: Ranked>(s: Seq<T>) -> bool {
    forall|i: int, j: int| 0 <= i < j < s.len() ==> !(#[trigger] s[i]).rank_lt(#[trigger] s[j])
}

/// `x` comes no earlier than any element of `s`.
pub open spec fn at_least_all<T: Ranked>(x: T, s: Seq<T>) -> bool {
    forall|k: int| 0 <= k < s.len() ==> !x.rank_lt(#[trigger] s[k])
}

proof fn lemma_last_is_greatest<T: Ranked>(s: Seq<T>, x: T)
    requires
        ranked_sorted(s),
        s.len() > 0,
        !x.rank_lt(s.last()),
    ensures
        at_least_all(x, s),
{
    assert forall|k: int| 0 <= k < s.len() implies !x.rank_lt(#[trigger] s[k]) by {
        if k < s.len() - 1 {
            assert(!s[s.len() - 1].rank_lt(s[k]));
            T::lemma_rank_order(s[k], s.last(), x);
        }
    }
}

/// Sorts `v` so that no element comes strictly before an earlier one; the
/// result holds exactly the elements of `v`.
pub fn sort_ranked<T: Ranked>(v: Vec<T>) -> (r: Vec<T>)
    ensures
        ranked_sorted(r@),
        r@.to_multiset() == v@.to_multiset(),
    decreases v@.len(),
{
    if v.len() <= 1 {
        return v;
    }
    let mut left = v;
    let ghost whole = left@;
    let middle = left.len() / 2;
    let right = left.split_off(middle);
    proof {
        assert(whole =~= left@ + right@);
        vstd::seq_lib::lemma_multiset_commutative(left@, right@);
    }
    let a = sort_ranked(left);
    let b = sort_ranked(right);
    merge_sorted(a, b)
}

/// Merges two sorted vectors.
fn merge_sorted<T: Ranked>(a: Vec<T>, b: Vec<T>) -> (r: Vec<T>)
    requires
        ranked_sorted(a@),
        ranked_sorted(b@),
    ensures
        ranked_sorted(r@),
        r@.to_multiset() == a@.to_multiset().add(b@.to_multiset()),
{
    let ghost total = a@.to_multiset().add(b@.to_multiset());
    let mut a = a;
    let mut b = b;
    let mut rev: Vec<T> = Vec::new();
    while a.len() > 0 || b.len() > 0
        invariant
            ranked_sorted(a@),
            ranked_sorted(b@),
            ranked_descending(rev@),
            rev@.len() > 0 ==> at_least_all(rev@.last(), a@) && at_least_all(rev@.last(), b@),
            rev@.to_multiset().add(a@.to_multiset()).add(b@.to_multiset()) == total,
        decreases a@.len() + b@.len(),
    {
        let ghost old_rev = rev@;
        let ghost old_a = a@;
        let ghost old_b = b@;
        let take_a = if a.len() == 0 {
            false
        } else if b.len() == 0 {
            true
        } else {
            b[b.len() - 1].precedes(&a[a.len() - 1])
        };
        if take_a {
            let x = a.pop().unwrap();
            proof {
                if old_b.len() > 0 {
                    T::lemma_rank_order(x, old_b.last(), x);
                    lemma_last_is_greatest(old_b, x);
                }
                if old_a.len() > 1 {
                    lemma_last_is_greatest(a@, x);
                }
                assert(old_a =~= a@.push(x));
            }
            rev.push(x);
        } else {
            let x = b.pop().unwrap();
            proof {
                if old_a.len() > 0 {
                    lemma_last_is_greatest(old_a, x);
                }
                if old_b.len() > 1 {
                    lemma_last_is_greatest(b@, x);
                }
                assert(old_b =~= b@.push(x));
            }
            rev.push(x);
        }
        proof {
            let x = rev@.last();
            assert(rev@ == old_rev.push(x));
            if old_rev.len() > 0 {
                assert forall|i: int, j: int| 0 <= i < j < rev@.len() implies !(#[trigger] rev@[i]).rank_lt(#[trigger] rev@[j]) by {
                    if j == rev@.len() - 1 {
                        if i < old_rev.len() - 1 {
                            assert(!old_rev[i].rank_lt(old_rev.last()));
                            T::lemma_rank_order(x, old_rev.last(), old_rev[i]);
                        }
                    }
                }
            }
            assert forall|k: int| 0 <= k < a@.len() implies !x.rank_lt(#[trigger] a@[k]) by {
                assert(a@[k] == old_a[k]);
            }
            assert forall|k: int| 0 <= k < b@.len() implies !x.rank_lt(#[trigger] b@[k]) by {
                assert(b@[k] == old_b[k]);
            }
        }
    }
    assert(a@ =~= Seq::<T>::empty());
    assert(b@ =~= Seq::<T>::empty());
    let mut out: Vec<T> = Vec::new();
    let ghost full = rev@;
    while rev.len() > 0
        invariant
            ranked_descending(rev@),
            ranked_sorted(out@),
            full.to_multiset() == total,
            rev@.to_multiset().add(out@.to_multiset()) == total,
            out@.len() > 0 ==> forall|k: int| 0 <= k < rev@.len() ==> !(#[trigger] rev@[k]).rank_lt(out@.last()),
        decreases rev@.len(),
    {
        let ghost old_rev = rev@;
        let ghost old_out = out@;
        let x = rev.pop().unwrap();
        proof {
            assert(old_rev =~= rev@.push(x));
            assert forall|k: int| 0 <= k < rev@.len() implies !(#[trigger] rev@[k]).rank_lt(x) by {
                assert(rev@[k] == old_rev[k]);
                assert(!old_rev[k].rank_lt(old_rev[old_rev.len() - 1]));
            }
            if old_out.len() > 0 {
                assert(!old_rev[old_rev.len() - 1].rank_lt(old_out.last()));
            }
        }
        out.push(x);
        proof {
            assert(out@ == old_out.push(x));
            assert forall|i: int, j: int| 0 <= i < j < out@.len() implies !(#[trigger] out@[j]).rank_lt(#[trigger] out@[i]) by {
                if j == out@.len() - 1 {
                    if i < old_out.len() - 1 {
                        assert(!old_out.last().rank_lt(old_out[i]));
                        assert(!x.rank_lt(old_out.last()));
                        T::lemma_rank_order(old_out[i], old_out.last(), x);
                    } else {
                        assert(!x.rank_lt(old_out.last()));
                    }
                }
            }
            assert(old_out.to_multiset().insert(x) == out@.to_multiset());
            assert(rev@.to_multiset().insert(x) == old_rev.to_multiset());
        }
    }
    assert(rev@ =~= Seq::<T>::empty());
    out
}

} // verus!
