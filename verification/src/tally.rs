//! Sorted tallies: lists of (name, count) pairs with strictly increasing
//! names, the ordered maps from names to counts that the reports build.
use vstd::prelude::*;
use crate::strings::{compare_text, lemma_text_lt_transitive, lemma_text_lt_trichotomy, text_lt, Order};

verus! {

/// Names strictly increase along the tally.
pub open spec fn tally_sorted(r: Seq<(String, usize)>) -> bool {
    forall|i: int, j: int| 0 <= i < j < r.len() ==> text_lt(#[trigger] r[i].0@, #[trigger] r[j].0@)
}

/// The tally holds an entry for `name`.
pub open spec fn tally_has(r: Seq<(String, usize)>, name: Seq<char>) -> bool {
    exists|i: int| 0 <= i < r.len() && #[trigger] r[i].0@ == name
}

/// The count of `name` in the tally (0 where absent).
pub open spec fn count_of(r: Seq<(String, usize)>, name: Seq<char>) -> nat
    decreases r.len(),
{
    if r.len() == 0 {
        0
    } else {
        count_of(r.drop_last(), name) + (if r.last().0@ == name {
            r.last().1 as nat
        } else {
            0nat
        })
    }
}

pub proof fn lemma_count_of_concat(a: Seq<(String, usize)>, b: Seq<(String, usize)>, name: Seq<char>)
    ensures
        count_of(a + b, name) == count_of(a, name) + count_of(b, name),
    decreases b.len(),
{
    if b.len() == 0 {
        assert(a + b =~= a);
    } else {
        assert((a + b).drop_last() =~= a + b.drop_last());
        lemma_count_of_concat(a, b.drop_last(), name);
    }
}

pub proof fn lemma_count_of_single(e: (String, usize), name: Seq<char>)
    ensures
        count_of(seq![e], name) == (if e.0@ == name {
            e.1 as nat
        } else {
            0nat
        }),
{
    assert(seq![e].drop_last() =~= Seq::<(String, usize)>::empty());
    assert(count_of(Seq::<(String, usize)>::empty(), name) == 0);
}

/// A tally without `name` counts it as zero.
pub proof fn lemma_count_of_absent(r: Seq<(String, usize)>, name: Seq<char>)
    requires
        !tally_has(r, name),
    ensures
        count_of(r, name) == 0,
    decreases r.len(),
{
    if r.len() > 0 {
        assert(!tally_has(r.drop_last(), name)) by {
            if tally_has(r.drop_last(), name) {
                let i = choose|i: int| 0 <= i < r.drop_last().len() && #[trigger] r.drop_last()[i].0@ == name;
                assert(r[i].0@ == name);
            }
        }
        lemma_count_of_absent(r.drop_last(), name);
        assert(r[r.len() - 1].0@ != name);
    }
}

/// In a sorted tally the count of a present name is the count of its entry.
pub proof fn lemma_count_of_entry(r: Seq<(String, usize)>, i: int)
    requires
        tally_sorted(r),
        0 <= i < r.len(),
    ensures
        count_of(r, r[i].0@) == r[i].1,
{
    let name = r[i].0@;
    assert(r =~= r.take(i) + seq![r[i]] + r.skip(i + 1));
    lemma_count_of_concat(r.take(i) + seq![r[i]], r.skip(i + 1), name);
    lemma_count_of_concat(r.take(i), seq![r[i]], name);
    lemma_count_of_single(r[i], name);
    assert(!tally_has(r.take(i), name)) by {
        if tally_has(r.take(i), name) {
            let k = choose|k: int| 0 <= k < r.take(i).len() && #[trigger] r.take(i)[k].0@ == name;
            assert(text_lt(r[k].0@, r[i].0@));
            lemma_text_lt_trichotomy(r[k].0@, r[i].0@);
        }
    }
    assert(!tally_has(r.skip(i + 1), name)) by {
        if tally_has(r.skip(i + 1), name) {
            let k = choose|k: int| 0 <= k < r.skip(i + 1).len() && #[trigger] r.skip(i + 1)[k].0@ == name;
            assert(text_lt(r[i].0@, r[i + 1 + k].0@));
            lemma_text_lt_trichotomy(r[i].0@, r[i + 1 + k].0@);
        }
    }
    lemma_count_of_absent(r.take(i), name);
    lemma_count_of_absent(r.skip(i + 1), name);
}

/// Replacing entry `p` of a sorted tally by one with the same name and a
/// larger count.
proof fn lemma_tally_replace(old_r: Seq<(String, usize)>, new_r: Seq<(String, usize)>, p: int, name: Seq<char>, amount: nat)
    requires
        tally_sorted(old_r),
        0 <= p < old_r.len(),
        old_r[p].0@ == name,
        new_r.len() == old_r.len(),
        new_r[p].0@ == name,
        new_r[p].1 == old_r[p].1 + amount,
        forall|k: int| 0 <= k < old_r.len() && k != p ==> #[trigger] new_r[k] == old_r[k],
    ensures
        tally_sorted(new_r),
        forall|n: Seq<char>| #[trigger] tally_has(new_r, n) <==> (tally_has(old_r, n) || n == name),
        forall|n: Seq<char>| #[trigger] count_of(new_r, n) == count_of(old_r, n) + (if n == name {
            amount
        } else {
            0nat
        }),
{
    assert(old_r =~= old_r.take(p) + seq![old_r[p]] + old_r.skip(p + 1));
    assert(new_r =~= old_r.take(p) + seq![new_r[p]] + old_r.skip(p + 1));
    assert forall|n: Seq<char>| #[trigger] count_of(new_r, n) == count_of(old_r, n) + (if n == name {
        amount
    } else {
        0nat
    }) by {
        lemma_count_of_concat(old_r.take(p) + seq![old_r[p]], old_r.skip(p + 1), n);
        lemma_count_of_concat(old_r.take(p), seq![old_r[p]], n);
        lemma_count_of_concat(old_r.take(p) + seq![new_r[p]], old_r.skip(p + 1), n);
        lemma_count_of_concat(old_r.take(p), seq![new_r[p]], n);
        lemma_count_of_single(old_r[p], n);
        lemma_count_of_single(new_r[p], n);
    }
    assert forall|n: Seq<char>| #[trigger] tally_has(new_r, n) <==> (tally_has(old_r, n) || n == name) by {
        if tally_has(old_r, n) {
            let i = choose|i: int| 0 <= i < old_r.len() && #[trigger] old_r[i].0@ == n;
            if i != p {
                assert(new_r[i] == old_r[i]);
            }
            assert(new_r[i].0@ == n);
        }
        if tally_has(new_r, n) {
            let i = choose|i: int| 0 <= i < new_r.len() && #[trigger] new_r[i].0@ == n;
            if i != p {
                assert(new_r[i] == old_r[i]);
            }
            assert(old_r[i].0@ == n);
        }
        if n == name {
            assert(new_r[p].0@ == n);
        }
    }
    assert forall|i: int, j: int| 0 <= i < j < new_r.len() implies text_lt(#[trigger] new_r[i].0@, #[trigger] new_r[j].0@) by {
        if i != p {
            assert(new_r[i] == old_r[i]);
        }
        if j != p {
            assert(new_r[j] == old_r[j]);
        }
        assert(text_lt(old_r[i].0@, old_r[j].0@));
    }
}

/// Inserting a new name at its place `p` in a sorted tally.
proof fn lemma_tally_insert(old_r: Seq<(String, usize)>, new_r: Seq<(String, usize)>, p: int, name: Seq<char>, amount: nat)
    requires
        tally_sorted(old_r),
        0 <= p <= old_r.len(),
        forall|k: int| 0 <= k < p ==> text_lt(#[trigger] old_r[k].0@, name),
        p < old_r.len() ==> text_lt(name, old_r[p].0@),
        new_r == old_r.insert(p, new_r[p]),
        new_r[p].0@ == name,
        new_r[p].1 == amount,
    ensures
        tally_sorted(new_r),
        forall|n: Seq<char>| #[trigger] tally_has(new_r, n) <==> (tally_has(old_r, n) || n == name),
        forall|n: Seq<char>| #[trigger] count_of(new_r, n) == count_of(old_r, n) + (if n == name {
            amount
        } else {
            0nat
        }),
{
    let e = new_r[p];
    assert(old_r =~= old_r.take(p) + old_r.skip(p));
    assert(new_r =~= old_r.take(p) + seq![e] + old_r.skip(p));
    assert forall|n: Seq<char>| #[trigger] count_of(new_r, n) == count_of(old_r, n) + (if n == name {
        amount
    } else {
        0nat
    }) by {
        lemma_count_of_concat(old_r.take(p) + seq![e], old_r.skip(p), n);
        lemma_count_of_concat(old_r.take(p), seq![e], n);
        lemma_count_of_concat(old_r.take(p), old_r.skip(p), n);
        lemma_count_of_single(e, n);
    }
    assert forall|n: Seq<char>| #[trigger] tally_has(new_r, n) <==> (tally_has(old_r, n) || n == name) by {
        if tally_has(old_r, n) {
            let i = choose|i: int| 0 <= i < old_r.len() && #[trigger] old_r[i].0@ == n;
            if i < p {
                assert(new_r[i].0@ == n);
            } else {
                assert(new_r[i + 1].0@ == n);
            }
        }
        if tally_has(new_r, n) {
            let i = choose|i: int| 0 <= i < new_r.len() && #[trigger] new_r[i].0@ == n;
            if i < p {
                assert(old_r[i].0@ == n);
            } else if i > p {
                assert(old_r[i - 1].0@ == n);
            }
        }
        if n == name {
            assert(new_r[p].0@ == n);
        }
    }
    assert forall|i: int, j: int| 0 <= i < j < new_r.len() implies text_lt(#[trigger] new_r[i].0@, #[trigger] new_r[j].0@) by {
        if j < p {
            assert(new_r[i] == old_r[i] && new_r[j] == old_r[j]);
        } else if j == p {
            assert(new_r[i] == old_r[i]);
        } else if i > p {
            assert(new_r[i] == old_r[i - 1] && new_r[j] == old_r[j - 1]);
        } else if i == p {
            assert(new_r[j] == old_r[j - 1]);
            if j - 1 > p {
                assert(text_lt(old_r[p].0@, old_r[j - 1].0@));
                lemma_text_lt_transitive(name, old_r[p].0@, old_r[j - 1].0@);
            }
        } else {
            assert(new_r[i] == old_r[i] && new_r[j] == old_r[j - 1]);
            if j - 1 > p {
                assert(text_lt(old_r[p].0@, old_r[j - 1].0@));
                lemma_text_lt_transitive(name, old_r[p].0@, old_r[j - 1].0@);
            }
            lemma_text_lt_transitive(old_r[i].0@, name, old_r[j - 1].0@);
        }
    }
}

/// Adds `amount` to the count of `name`, inserting the name where absent.
pub fn tally_add(r: &mut Vec<(String, usize)>, name: &str, amount: usize)
    requires
        tally_sorted(old(r)@),
        count_of(old(r)@, name@) + amount <= usize::MAX,
    ensures
        tally_sorted(final(r)@),
        forall|n: Seq<char>|
            #[trigger] tally_has(final(r)@, n) <==> (tally_has(old(r)@, n) || n == name@),
        forall|n: Seq<char>|
            #[trigger] count_of(final(r)@, n) == count_of(old(r)@, n) + (if n == name@ {
                amount as nat
            } else {
                0nat
            }),
{
    let ghost old_r = r@;
    let mut p: usize = 0;
    while p < r.len()
        invariant
            r@ == old_r,
            p <= r@.len(),
            forall|k: int| 0 <= k < p ==> text_lt(#[trigger] r@[k].0@, name@),
        ensures
            r@ == old_r,
            p <= r@.len(),
            forall|k: int| 0 <= k < p ==> text_lt(#[trigger] r@[k].0@, name@),
            p < r@.len() ==> !text_lt(r@[p as int].0@, name@),
        decreases r@.len() - p,
    {
        if !matches!(compare_text(r[p].0.as_str(), name), Order::Less) {
            break;
        }
        p = p + 1;
    }
    let found = p < r.len() && matches!(compare_text(r[p].0.as_str(), name), Order::Equal);
    if found {
        let key = r[p].0.clone();
        proof {
            lemma_count_of_entry(old_r, p as int);
        }
        let updated = r[p].1 + amount;
        r.set(p, (key, updated));
        proof {
            lemma_tally_replace(old_r, r@, p as int, name@, amount as nat);
        }
    } else {
        proof {
            if p < old_r.len() {
                lemma_text_lt_trichotomy(old_r[p as int].0@, name@);
            }
        }
        r.insert(p, (crate::strings::text_from(name), amount));
        proof {
            lemma_tally_insert(old_r, r@, p as int, name@, amount as nat);
        }
    }
}


/// The count of `name` in a sorted tally.
pub fn tally_count(r: &Vec<(String, usize)>, name: &str) -> (c: usize)
    requires
        tally_sorted(r@),
    ensures
        c == count_of(r@, name@),
{
    let mut i: usize = 0;
    while i < r.len()
        invariant
            tally_sorted(r@),
            i <= r@.len(),
            forall|j: int| 0 <= j < i ==> #[trigger] r@[j].0@ != name@,
        decreases r@.len() - i,
    {
        if crate::strings::text_eq(r[i].0.as_str(), name) {
            proof {
                lemma_count_of_entry(r@, i as int);
            }
            return r[i].1;
        }
        i = i + 1;
    }
    proof {
        assert(!tally_has(r@, name@)) by {
            if tally_has(r@, name@) {
                let k = choose|k: int| 0 <= k < r@.len() && #[trigger] r@[k].0@ == name@;
                assert(r@[k].0@ != name@);
            }
        }
        lemma_count_of_absent(r@, name@);
    }
    0
}

} // verus!
