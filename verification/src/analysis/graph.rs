//! Algorithms on graphs whose nodes are indices: the undirected closure of a
//! directed adjacency, and connected components.
use vstd::prelude::*;
use crate::analysis::corpus::increasing;
use crate::analysis::dependency::row_has;
use crate::analysis::proof_steps::{count_true, lemma_count_true_set};

verus! {

/// `row` with `t` added, kept increasing.
pub fn insert_unique(row: &Vec<usize>, t: usize) -> (r: Vec<usize>)
    requires
        increasing(row@),
    ensures
        increasing(r@),
        forall|y: usize| #[trigger] r@.contains(y) <==> (row@.contains(y) || y == t),
{
    let mut r: Vec<usize> = Vec::new();
    let mut i: usize = 0;
    while i < row.len() && row[i] < t
        invariant
            i <= row@.len(),
            increasing(row@),
            r@ == row@.take(i as int),
            forall|k: int| 0 <= k < i ==> #[trigger] row@[k] < t,
        decreases row@.len() - i,
    {
        r.push(row[i]);
        proof {
            assert(row@.take(i + 1) == row@.take(i as int).push(row@[i as int]));
        }
        i = i + 1;
    }
    let p = i;
    let present = i < row.len() && row[i] == t;
    let ghost mid: Seq<usize> = if present { Seq::empty() } else { seq![t] };
    if !present {
        r.push(t);
    }
    proof {
        assert(row@.subrange(p as int, i as int) == Seq::<usize>::empty());
        assert(r@ == row@.take(p as int) + mid + row@.subrange(p as int, i as int));
    }
    while i < row.len()
        invariant
            p <= i <= row@.len(),
            increasing(row@),
            r@ == row@.take(p as int) + mid + row@.subrange(p as int, i as int),
        decreases row@.len() - i,
    {
        r.push(row[i]);
        proof {
            assert(row@.subrange(p as int, i + 1) == row@.subrange(p as int, i as int).push(row@[i as int]));
        }
        i = i + 1;
    }
    proof {
        let a = row@.take(p as int);
        let b = row@.subrange(p as int, row@.len() as int);
        assert(row@ == a + b);
        assert(forall|k: int| 0 <= k < a.len() ==> #[trigger] a[k] < t);
        assert(forall|k: int| 0 <= k < b.len() ==> #[trigger] b[k] >= t) by {
            assert forall|k: int| 0 <= k < b.len() implies #[trigger] b[k] >= t by {
                if k > 0 {
                    assert(row@[p as int] < row@[p + k]);
                }
            }
        }
        assert(present ==> b.len() > 0 && b[0] == t);
        assert(!present ==> forall|k: int| 0 <= k < b.len() ==> #[trigger] b[k] > t) by {
            if !present {
                assert forall|k: int| 0 <= k < b.len() implies #[trigger] b[k] > t by {
                    if k > 0 {
                        assert(row@[p as int] < row@[p + k]);
                    }
                }
            }
        }
        assert(r@ == a + mid + b);
        assert forall|x: int, y: int| 0 <= x < y < r@.len() implies #[trigger] r@[x] < #[trigger] r@[y] by {
            let la = a.len() as int;
            let lm = mid.len() as int;
            if y < la {
                assert(r@[x] == row@[x] && r@[y] == row@[y]);
            } else if y < la + lm {
                assert(r@[y] == t);
                assert(r@[x] == a[x]);
            } else if x < la {
                assert(r@[x] == a[x] && r@[y] == b[y - la - lm]);
            } else if x < la + lm {
                assert(r@[x] == t && r@[y] == b[y - la - lm]);
            } else {
                assert(r@[x] == row@[p + x - la - lm] && r@[y] == row@[p + y - la - lm]);
            }
        }
        assert forall|y: usize| #[trigger] r@.contains(y) <==> (row@.contains(y) || y == t) by {
            if r@.contains(y) {
                let k = choose|k: int| 0 <= k < r@.len() && r@[k] == y;
                if k < a.len() {
                    assert(row@[k] == y);
                } else if k >= a.len() + mid.len() {
                    assert(row@[p + k - a.len() - mid.len()] == y);
                }
            }
            if row@.contains(y) {
                let k = choose|k: int| 0 <= k < row@.len() && row@[k] == y;
                if k < p {
                    assert(r@[k] == y);
                } else {
                    assert(r@[k + mid.len()] == y);
                }
            }
            if y == t {
                if present {
                    assert(r@[a.len() as int] == y);
                } else {
                    assert(r@[a.len() as int] == y);
                }
            }
        }
    }
    r
}

/// A directed edge `a -> b` of the adjacency, both ends marked.
pub open spec fn arc(directed: Seq<Vec<(usize, usize)>>, mask: Seq<bool>, a: int, b: int) -> bool {
    &&& 0 <= a < directed.len()
    &&& 0 <= a < mask.len()
    &&& 0 <= b < mask.len()
    &&& mask[a]
    &&& mask[b]
    &&& row_has(directed[a]@, b)
}

/// `x` and `y` are joined by an arc in either direction.
pub open spec fn linked(directed: Seq<Vec<(usize, usize)>>, mask: Seq<bool>, x: int, y: int) -> bool {
    arc(directed, mask, x, y) || arc(directed, mask, y, x)
}

/// `u` is the undirected graph of the marked nodes: row `x` lists, in
/// increasing order, the nodes linked to `x`.
pub open spec fn undirected_rows(directed: Seq<Vec<(usize, usize)>>, mask: Seq<bool>, u: Seq<Vec<usize>>) -> bool {
    &&& u.len() == directed.len()
    &&& forall|x: int| 0 <= x < u.len() ==> increasing(#[trigger] u[x]@)
    &&& forall|x: int, y: usize| 0 <= x < u.len() ==> (#[trigger] u[x]@.contains(y) <==> linked(directed, mask, x, y as int))
}

/// The arc `a -> b` is among the first `j` entries of row `s`, or in an
/// earlier row.
spec fn arc_upto(directed: Seq<Vec<(usize, usize)>>, mask: Seq<bool>, a: int, b: int, s: int, j: int) -> bool {
    &&& arc(directed, mask, a, b)
    &&& (a < s || (a == s && row_has(directed[a]@.take(j), b)))
}

/// Every target of every row is a node.
pub open spec fn targets_in_range(directed: Seq<Vec<(usize, usize)>>) -> bool {
    forall|x: int, i: int| 0 <= x < directed.len() && 0 <= i < directed[x]@.len() ==> (#[trigger] directed[x]@[i]).0 < directed.len()
}

/// The undirected graph of the marked nodes of a directed adjacency.
pub fn undirected_graph(directed: &Vec<Vec<(usize, usize)>>, mask: &Vec<bool>) -> (u: Vec<Vec<usize>>)
    requires
        mask@.len() == directed@.len(),
        targets_in_range(directed@),
    ensures
        undirected_rows(directed@, mask@, u@),
{
    let n = directed.len();
    let mut u: Vec<Vec<usize>> = Vec::new();
    let mut x: usize = 0;
    while x < n
        invariant
            x <= n,
            u@.len() == x,
            forall|z: int| 0 <= z < x ==> (#[trigger] u@[z])@ == Seq::<usize>::empty(),
        decreases n - x,
    {
        u.push(Vec::new());
        x = x + 1;
    }
    let mut s: usize = 0;
    while s < n
        invariant
            n == directed@.len(),
            mask@.len() == n,
            targets_in_range(directed@),
            s <= n,
            u@.len() == n,
            forall|z: int| 0 <= z < n ==> increasing(#[trigger] u@[z]@),
            forall|z: int, y: usize| 0 <= z < n ==> (#[trigger] u@[z]@.contains(y) <==> (arc_upto(directed@, mask@, z, y as int, s as int, 0)
                || arc_upto(directed@, mask@, y as int, z, s as int, 0))),
        decreases n - s,
    {
        let row = &directed[s];
        let mut j: usize = 0;
        while j < row.len()
            invariant
                n == directed@.len(),
                mask@.len() == n,
                targets_in_range(directed@),
                s < n,
                row@ == directed@[s as int]@,
                j <= row@.len(),
                u@.len() == n,
                forall|z: int| 0 <= z < n ==> increasing(#[trigger] u@[z]@),
                forall|z: int, y: usize| 0 <= z < n ==> (#[trigger] u@[z]@.contains(y) <==> (arc_upto(directed@, mask@, z, y as int, s as int, j as int)
                    || arc_upto(directed@, mask@, y as int, z, s as int, j as int))),
            decreases row@.len() - j,
        {
            let t = row[j].0;
            proof {
                assert(t < n);
                lemma_row_has_take(directed@[s as int]@, j as int);
            }
            let ghost u0 = u@;
            if mask[s] && mask[t] {
                let a = insert_unique(&u[s], t);
                u.set(s, a);
                let b = insert_unique(&u[t], s);
                u.set(t, b);
                proof {
                    assert forall|z: int, y: usize| 0 <= z < n implies (#[trigger] u@[z]@.contains(y) <==> (arc_upto(directed@, mask@, z, y as int, s as int, j + 1)
                        || arc_upto(directed@, mask@, y as int, z, s as int, j + 1))) by {
                        assert(u0[z]@.contains(y) <==> (arc_upto(directed@, mask@, z, y as int, s as int, j as int)
                            || arc_upto(directed@, mask@, y as int, z, s as int, j as int)));
                    }
                }
            } else {
                proof {
                    assert forall|z: int, y: usize| 0 <= z < n implies (#[trigger] u@[z]@.contains(y) <==> (arc_upto(directed@, mask@, z, y as int, s as int, j + 1)
                        || arc_upto(directed@, mask@, y as int, z, s as int, j + 1))) by {
                        assert(u0[z]@.contains(y) <==> (arc_upto(directed@, mask@, z, y as int, s as int, j as int)
                            || arc_upto(directed@, mask@, y as int, z, s as int, j as int)));
                    }
                }
            }
            j = j + 1;
        }
        proof {
            assert(directed@[s as int]@.take(j as int) == directed@[s as int]@);
            assert forall|z: int, y: usize| 0 <= z < n implies (#[trigger] u@[z]@.contains(y) <==> (arc_upto(directed@, mask@, z, y as int, s + 1, 0)
                || arc_upto(directed@, mask@, y as int, z, s + 1, 0))) by {
                assert(u@[z]@.contains(y) <==> (arc_upto(directed@, mask@, z, y as int, s as int, j as int)
                    || arc_upto(directed@, mask@, y as int, z, s as int, j as int)));
            }
        }
        s = s + 1;
    }
    proof {
        assert forall|z: int, y: usize| 0 <= z < u@.len() implies (#[trigger] u@[z]@.contains(y) <==> linked(directed@, mask@, z, y as int)) by {
            assert(u@[z]@.contains(y) <==> (arc_upto(directed@, mask@, z, y as int, n as int, 0)
                || arc_upto(directed@, mask@, y as int, z, n as int, 0)));
        }
    }
    u
}

proof fn lemma_row_has_take(row: Seq<(usize, usize)>, j: int)
    requires
        0 <= j < row.len(),
    ensures
        forall|b: int| #[trigger] row_has(row.take(j + 1), b) <==> (row_has(row.take(j), b) || row[j].0 == b),
{
    assert forall|b: int| #[trigger] row_has(row.take(j + 1), b) <==> (row_has(row.take(j), b) || row[j].0 == b) by {
        if row_has(row.take(j + 1), b) {
            let i = choose|i: int| 0 <= i < row.take(j + 1).len() && (#[trigger] row.take(j + 1)[i]).0 == b;
            if i < j {
                assert(row.take(j)[i].0 == b);
            }
        }
        if row_has(row.take(j), b) {
            let i = choose|i: int| 0 <= i < row.take(j).len() && (#[trigger] row.take(j)[i]).0 == b;
            assert(row.take(j + 1)[i].0 == b);
        }
        if row[j].0 == b {
            assert(row.take(j + 1)[j].0 == b);
        }
    }
}

/// `b` is a neighbour of `a`.
pub open spec fn step(u: Seq<Vec<usize>>, a: usize, b: usize) -> bool {
    a < u.len() && u[a as int]@.contains(b)
}

/// `p` is a walk along the rows of `u`.
pub open spec fn walk(u: Seq<Vec<usize>>, p: Seq<usize>) -> bool {
    &&& p.len() >= 1
    &&& forall|i: int| 0 <= i < p.len() - 1 ==> #[trigger] step(u, p[i], p[i + 1])
}

/// Some walk leads from `a` to `b`.
pub open spec fn reaches(u: Seq<Vec<usize>>, a: usize, b: usize) -> bool {
    exists|p: Seq<usize>| #[trigger] walk(u, p) && p[0] == a && p.last() == b
}

/// Every row holds nodes only.
pub open spec fn rows_in_range(u: Seq<Vec<usize>>) -> bool {
    forall|x: int, y: usize| 0 <= x < u.len() && #[trigger] u[x]@.contains(y) ==> y < u.len()
}

proof fn lemma_walk_push(u: Seq<Vec<usize>>, p: Seq<usize>, y: usize)
    requires
        walk(u, p),
        step(u, p.last(), y),
    ensures
        walk(u, p.push(y)),
        p.push(y)[0] == p[0],
        p.push(y).last() == y,
{
    let q = p.push(y);
    assert forall|i: int| 0 <= i < q.len() - 1 implies #[trigger] step(u, q[i], q[i + 1]) by {
        if i < p.len() - 1 {
            assert(q[i] == p[i] && q[i + 1] == p[i + 1]);
            assert(step(u, p[i], p[i + 1]));
        }
    }
}

/// Breadth first search from `start` through nodes not yet seen; marks and
/// returns them, `start` first.
fn bfs_component(u: &Vec<Vec<usize>>, seen: &mut Vec<bool>, start: usize) -> (queue: Vec<usize>)
    requires
        old(seen)@.len() == u@.len(),
        start < u@.len(),
        !old(seen)@[start as int],
        rows_in_range(u@),
    ensures
        final(seen)@.len() == u@.len(),
        queue@.len() >= 1,
        queue@[0] == start,
        queue@.no_duplicates(),
        forall|i: int| 0 <= i < queue@.len() ==> (#[trigger] queue@[i]) < u@.len() && !old(seen)@[queue@[i] as int],
        forall|y: int| 0 <= y < u@.len() ==> (#[trigger] final(seen)@[y] <==> (old(seen)@[y] || queue@.contains(y as usize))),
        forall|x: usize, y: usize| #![trigger queue@.contains(x), u@[x as int]@.contains(y)]
            queue@.contains(x) && u@[x as int]@.contains(y) ==> queue@.contains(y) || old(seen)@[y as int],
        forall|x: usize| #[trigger] queue@.contains(x) ==> reaches(u@, start, x),
{
    let ghost seen0 = seen@;
    let n = u.len();
    proof {
        lemma_count_true_set(seen@, start as int);
    }
    seen.set(start, true);
    let mut queue: Vec<usize> = Vec::new();
    queue.push(start);
    let ghost mut walks: Seq<Seq<usize>> = seq![seq![start]];
    let mut head: usize = 0;
    proof {
        lemma_count_true_set(seen@, 0);
        assert(walk(u@, seq![start]));
        assert forall|y: int| 0 <= y < n implies (#[trigger] seen@[y] <==> (seen0[y] || queue@.contains(y as usize))) by {
            if y == start {
                assert(queue@[0] == start);
            }
        }
    }
    while head < queue.len()
        invariant
            n == u@.len(),
            rows_in_range(u@),
            seen0.len() == n,
            seen@.len() == n,
            count_true(seen@) == count_true(seen0) + queue@.len(),
            count_true(seen@) <= n,
            queue@.len() >= 1,
            queue@[0] == start,
            queue@.no_duplicates(),
            head <= queue@.len(),
            forall|i: int| 0 <= i < queue@.len() ==> (#[trigger] queue@[i]) < n && !seen0[queue@[i] as int],
            forall|y: int| 0 <= y < n ==> (#[trigger] seen@[y] <==> (seen0[y] || queue@.contains(y as usize))),
            forall|i: int, y: usize| 0 <= i < head && #[trigger] u@[queue@[i] as int]@.contains(y) ==> queue@.contains(y) || seen0[y as int],
            walks.len() == queue@.len(),
            forall|i: int| 0 <= i < queue@.len() ==> #[trigger] walk(u@, walks[i]) && walks[i][0] == start && walks[i].last() == queue@[i],
        decreases n - head,
    {
        let node = queue[head];
        let row = &u[node];
        let current = head;
        head = head + 1;
        let mut j: usize = 0;
        while j < row.len()
            invariant
                n == u@.len(),
                rows_in_range(u@),
                seen0.len() == n,
                seen@.len() == n,
                count_true(seen@) == count_true(seen0) + queue@.len(),
                count_true(seen@) <= n,
                queue@.len() >= 1,
                queue@[0] == start,
                queue@.no_duplicates(),
                head == current + 1,
                head <= queue@.len(),
                node == queue@[current as int],
                node < n,
                row@ == u@[node as int]@,
                j <= row@.len(),
                forall|i: int| 0 <= i < queue@.len() ==> (#[trigger] queue@[i]) < n && !seen0[queue@[i] as int],
                forall|y: int| 0 <= y < n ==> (#[trigger] seen@[y] <==> (seen0[y] || queue@.contains(y as usize))),
                forall|i: int, y: usize| 0 <= i < current && #[trigger] u@[queue@[i] as int]@.contains(y) ==> queue@.contains(y) || seen0[y as int],
                forall|k: int| 0 <= k < j ==> queue@.contains(#[trigger] row@[k]) || seen0[row@[k] as int],
                walks.len() == queue@.len(),
                forall|i: int| 0 <= i < queue@.len() ==> #[trigger] walk(u@, walks[i]) && walks[i][0] == start && walks[i].last() == queue@[i],
            decreases row@.len() - j,
        {
            let y = row[j];
            proof {
                assert(u@[node as int]@.contains(y));
            }
            if !seen[y] {
                let ghost q0 = queue@;
                proof {
                    lemma_count_true_set(seen@, y as int);
                    assert(!q0.contains(y));
                    assert(walk(u@, walks[current as int]));
                    assert(step(u@, walks[current as int].last(), y));
                    lemma_walk_push(u@, walks[current as int], y);
                    walks = walks.push(walks[current as int].push(y));
                }
                seen.set(y, true);
                queue.push(y);
                proof {
                    lemma_count_true_set(seen@, 0);
                    assert(queue@ == q0.push(y));
                    assert forall|a: int, b: int| 0 <= a < b < queue@.len() implies queue@[a] != queue@[b] by {
                        if b < q0.len() {
                            assert(q0[a] != q0[b]);
                        } else {
                            assert(q0.contains(q0[a]));
                        }
                    }
                    assert forall|yy: int| 0 <= yy < n implies (#[trigger] seen@[yy] <==> (seen0[yy] || queue@.contains(yy as usize))) by {
                        if q0.contains(yy as usize) {
                            let w = choose|w: int| 0 <= w < q0.len() && q0[w] == yy as usize;
                            assert(queue@[w] == yy as usize);
                        }
                        if queue@.contains(yy as usize) && yy != y {
                            let w = choose|w: int| 0 <= w < queue@.len() && queue@[w] == yy as usize;
                            assert(q0[w] == yy as usize);
                        }
                        if yy == y {
                            assert(queue@[q0.len() as int] == y);
                        }
                    }
                    assert forall|i: int, z: usize| 0 <= i < current && #[trigger] u@[queue@[i] as int]@.contains(z)
                        implies queue@.contains(z) || seen0[z as int] by {
                        assert(queue@[i] == q0[i]);
                        if q0.contains(z) {
                            let w = choose|w: int| 0 <= w < q0.len() && q0[w] == z;
                            assert(queue@[w] == z);
                        }
                    }
                    assert forall|k: int| 0 <= k < j + 1 implies queue@.contains(#[trigger] row@[k]) || seen0[row@[k] as int] by {
                        if k < j && q0.contains(row@[k]) {
                            let w = choose|w: int| 0 <= w < q0.len() && q0[w] == row@[k];
                            assert(queue@[w] == row@[k]);
                        }
                        if k == j {
                            assert(queue@[q0.len() as int] == y);
                        }
                    }
                    assert forall|i: int| 0 <= i < queue@.len() implies #[trigger] walk(u@, walks[i]) && walks[i][0] == start
                        && walks[i].last() == queue@[i] by {
                        if i < q0.len() {
                            assert(queue@[i] == q0[i]);
                            assert(walks[i] == walks.drop_last()[i]);
                        }
                    }
                }
            } else {
                proof {
                    assert(y < n);
                    assert(seen0[y as int] || queue@.contains(y));
                }
            }
            assert(forall|i: int| 0 <= i < queue@.len() ==> #[trigger] walk(u@, walks[i]) && walks[i][0] == start && walks[i].last() == queue@[i]);
            j = j + 1;
        }
        proof {
            assert forall|i: int, y: usize| 0 <= i < head && #[trigger] u@[queue@[i] as int]@.contains(y)
                implies queue@.contains(y) || seen0[y as int] by {
                if i == current {
                    let k = choose|k: int| 0 <= k < row@.len() && row@[k] == y;
                    assert(queue@.contains(row@[k]) || seen0[row@[k] as int]);
                }
            }
            lemma_count_true_set(seen@, 0);
        }
    }
    proof {
        assert forall|x: usize, y: usize| #![trigger queue@.contains(x), u@[x as int]@.contains(y)]
            queue@.contains(x) && u@[x as int]@.contains(y) implies queue@.contains(y) || seen0[y as int] by {
            let i = choose|i: int| 0 <= i < queue@.len() && queue@[i] == x;
            assert(u@[queue@[i] as int]@.contains(y));
        }
        assert forall|x: usize| #[trigger] queue@.contains(x) implies reaches(u@, start, x) by {
            let i = choose|i: int| 0 <= i < queue@.len() && queue@[i] == x;
            assert(walk(u@, walks[i]));
        }
    }
    queue
}

/// Some component holds `y`.
pub open spec fn in_some(cs: Seq<Seq<usize>>, y: usize) -> bool {
    exists|k: int| 0 <= k < cs.len() && #[trigger] cs[k].contains(y)
}

/// Each row's neighbours list it back.
pub open spec fn symmetric(u: Seq<Vec<usize>>) -> bool {
    forall|x: int, y: usize| 0 <= x < u.len() && #[trigger] u[x]@.contains(y) ==> y < u.len() && u[y as int]@.contains(x as usize)
}

/// Every neighbour in the rows is listed in `active`.
pub open spec fn rows_within(u: Seq<Vec<usize>>, active: Seq<usize>) -> bool {
    forall|x: int, y: usize| 0 <= x < u.len() && #[trigger] u[x]@.contains(y) ==> active.contains(y)
}

/// The components found so far: non-empty, without repeats, made of active
/// nodes reachable from their first node, pairwise disjoint and closed under
/// the rows.
pub open spec fn components_sound(u: Seq<Vec<usize>>, active: Seq<usize>, cs: Seq<Seq<usize>>) -> bool {
    &&& forall|k: int| 0 <= k < cs.len() ==> (#[trigger] cs[k]).len() >= 1 && cs[k].no_duplicates()
    &&& forall|k: int, x: usize| 0 <= k < cs.len() && #[trigger] cs[k].contains(x) ==> active.contains(x) && reaches(u, cs[k][0], x)
    &&& forall|k1: int, k2: int, x: usize| 0 <= k1 < cs.len() && 0 <= k2 < cs.len() && #[trigger] cs[k1].contains(x)
        && #[trigger] cs[k2].contains(x) ==> k1 == k2
    &&& forall|k: int, x: usize, y: usize| #![trigger cs[k].contains(x), u[x as int]@.contains(y)]
        0 <= k < cs.len() && cs[k].contains(x) && u[x as int]@.contains(y) ==> cs[k].contains(y)
}

/// `cs` are the connected components of the active nodes: sound, and every
/// active node lies in one.
pub open spec fn components_of(u: Seq<Vec<usize>>, active: Seq<usize>, cs: Seq<Seq<usize>>) -> bool {
    &&& components_sound(u, active, cs)
    &&& forall|x: usize| #[trigger] active.contains(x) ==> in_some(cs, x)
}

proof fn lemma_reaches_active(u: Seq<Vec<usize>>, active: Seq<usize>, p: Seq<usize>)
    requires
        walk(u, p),
        active.contains(p[0]),
        rows_within(u, active),
    ensures
        active.contains(p.last()),
    decreases p.len(),
{
    if p.len() > 1 {
        let q = p.drop_last();
        assert forall|i: int| 0 <= i < q.len() - 1 implies #[trigger] step(u, q[i], q[i + 1]) by {
            assert(step(u, p[i], p[i + 1]));
        }
        lemma_reaches_active(u, active, q);
        let i = p.len() - 2;
        assert(step(u, p[i], p[i + 1]));
        assert(u[p[i] as int]@.contains(p.last()));
    }
}

proof fn lemma_components_push(
    u: Seq<Vec<usize>>,
    active: Seq<usize>,
    cs: Seq<Seq<usize>>,
    q: Seq<usize>,
    seen0: Seq<bool>,
    start: usize,
)
    requires
        components_sound(u, active, cs),
        symmetric(u),
        rows_within(u, active),
        active.contains(start),
        seen0.len() == u.len(),
        forall|y: int| 0 <= y < u.len() ==> (#[trigger] seen0[y] <==> in_some(cs, y as usize)),
        q.len() >= 1,
        q[0] == start,
        q.no_duplicates(),
        forall|i: int| 0 <= i < q.len() ==> (#[trigger] q[i]) < u.len() && !seen0[q[i] as int],
        forall|x: usize, y: usize| #![trigger q.contains(x), u[x as int]@.contains(y)]
            q.contains(x) && u[x as int]@.contains(y) ==> q.contains(y) || seen0[y as int],
        forall|x: usize| #[trigger] q.contains(x) ==> reaches(u, start, x),
    ensures
        components_sound(u, active, cs.push(q)),
        forall|y: usize| #[trigger] in_some(cs.push(q), y) <==> (in_some(cs, y) || q.contains(y)),
{
    let c2 = cs.push(q);
    assert forall|y: usize| #[trigger] in_some(c2, y) <==> (in_some(cs, y) || q.contains(y)) by {
        if in_some(c2, y) {
            let k = choose|k: int| 0 <= k < c2.len() && #[trigger] c2[k].contains(y);
            if k < cs.len() {
                assert(cs[k].contains(y));
            }
        }
        if in_some(cs, y) {
            let k = choose|k: int| 0 <= k < cs.len() && #[trigger] cs[k].contains(y);
            assert(c2[k].contains(y));
        }
        if q.contains(y) {
            assert(c2[cs.len() as int].contains(y));
        }
    }
    assert forall|k: int| 0 <= k < c2.len() implies (#[trigger] c2[k]).len() >= 1 && c2[k].no_duplicates() by {
        if k < cs.len() {
            assert(c2[k] == cs[k]);
        }
    }
    assert forall|k: int, x: usize| 0 <= k < c2.len() && #[trigger] c2[k].contains(x) implies active.contains(x) && reaches(u, c2[k][0], x) by {
        if k < cs.len() {
            assert(c2[k] == cs[k]);
        } else {
            assert(c2[k] == q);
            assert(reaches(u, start, x));
            let p = choose|p: Seq<usize>| #[trigger] walk(u, p) && p[0] == start && p.last() == x;
            lemma_reaches_active(u, active, p);
        }
    }
    assert forall|k1: int, k2: int, x: usize| 0 <= k1 < c2.len() && 0 <= k2 < c2.len() && #[trigger] c2[k1].contains(x)
        && #[trigger] c2[k2].contains(x) implies k1 == k2 by {
        if k1 < cs.len() && k2 < cs.len() {
            assert(cs[k1].contains(x) && cs[k2].contains(x));
        } else if k1 < cs.len() || k2 < cs.len() {
            let k = if k1 < cs.len() { k1 } else { k2 };
            assert(cs[k].contains(x));
            assert(in_some(cs, x));
            assert(q.contains(x));
            let i = choose|i: int| 0 <= i < q.len() && q[i] == x;
            assert(!seen0[q[i] as int]);
            assert(active.contains(x) && reaches(u, cs[k][0], x));
        }
    }
    assert forall|k: int, x: usize, y: usize| #![trigger c2[k].contains(x), u[x as int]@.contains(y)]
        0 <= k < c2.len() && c2[k].contains(x) && u[x as int]@.contains(y) implies c2[k].contains(y) by {
        if k < cs.len() {
            assert(c2[k] == cs[k]);
            assert(cs[k].contains(x) && u[x as int]@.contains(y));
        } else {
            assert(c2[k] == q);
            if !q.contains(y) {
                let i = choose|i: int| 0 <= i < q.len() && q[i] == x;
                assert(x < u.len());
                assert(seen0[y as int]);
                let k0 = choose|k0: int| 0 <= k0 < cs.len() && #[trigger] cs[k0].contains(y);
                assert(u[y as int]@.contains(x));
                assert(cs[k0].contains(y) && u[y as int]@.contains(x));
                assert(cs[k0].contains(x));
                assert(in_some(cs, x));
                assert(!seen0[q[i] as int]);
            }
        }
    }
}

/// The connected components of the active nodes, each in breadth first
/// order from its smallest node, in order of their smallest nodes.
pub fn component_ids(u: &Vec<Vec<usize>>, active: &Vec<usize>) -> (r: Vec<Vec<usize>>)
    requires
        rows_in_range(u@),
        symmetric(u@),
        rows_within(u@, active@),
        forall|k: int| 0 <= k < active@.len() ==> #[trigger] active@[k] < u@.len(),
    ensures
        components_of(u@, active@, r@.map_values(|c: Vec<usize>| c@)),
{
    let n = u.len();
    let mut seen: Vec<bool> = Vec::new();
    let mut x: usize = 0;
    while x < n
        invariant
            x <= n,
            seen@.len() == x,
            forall|z: int| 0 <= z < x ==> !#[trigger] seen@[z],
        decreases n - x,
    {
        seen.push(false);
        x = x + 1;
    }
    let mut comps: Vec<Vec<usize>> = Vec::new();
    let ghost mut cs: Seq<Seq<usize>> = Seq::empty();
    let mut a: usize = 0;
    while a < active.len()
        invariant
            n == u@.len(),
            rows_in_range(u@),
            symmetric(u@),
            rows_within(u@, active@),
            forall|k: int| 0 <= k < active@.len() ==> #[trigger] active@[k] < n,
            a <= active@.len(),
            seen@.len() == n,
            forall|y: int| 0 <= y < n ==> (#[trigger] seen@[y] <==> in_some(cs, y as usize)),
            components_sound(u@, active@, cs),
            forall|b: int| 0 <= b < a ==> in_some(cs, #[trigger] active@[b]),
            comps@.len() == cs.len(),
            forall|k: int| 0 <= k < cs.len() ==> (#[trigger] comps@[k])@ == cs[k],
        decreases active@.len() - a,
    {
        let start = active[a];
        if !seen[start] {
            let ghost seen0 = seen@;
            let queue = bfs_component(u, &mut seen, start);
            proof {
                assert(active@.contains(start)) by {
                    assert(active@[a as int] == start);
                }
                lemma_components_push(u@, active@, cs, queue@, seen0, start);
                let c2 = cs.push(queue@);
                assert forall|y: int| 0 <= y < n implies (#[trigger] seen@[y] <==> in_some(c2, y as usize)) by {
                    assert(seen@[y] <==> (seen0[y] || queue@.contains(y as usize)));
                    assert(in_some(c2, y as usize) <==> (in_some(cs, y as usize) || queue@.contains(y as usize)));
                }
                assert forall|b: int| 0 <= b < a + 1 implies in_some(c2, #[trigger] active@[b]) by {
                    assert(in_some(c2, active@[b]) <==> (in_some(cs, active@[b]) || queue@.contains(active@[b])));
                    if b == a {
                        assert(queue@[0] == start);
                    }
                }
                cs = c2;
            }
            comps.push(queue);
        } else {
            proof {
                assert(in_some(cs, active@[a as int]));
            }
        }
        a = a + 1;
    }
    proof {
        let view = comps@.map_values(|c: Vec<usize>| c@);
        assert(view == cs);
        assert forall|y: usize| #[trigger] active@.contains(y) implies in_some(cs, y) by {
            let b = choose|b: int| 0 <= b < active@.len() && active@[b] == y;
        }
    }
    comps
}

/// How many entries are zero.
pub open spec fn count_zero(s: Seq<usize>) -> nat
    decreases s.len(),
{
    if s.len() == 0 {
        0
    } else {
        count_zero(s.drop_last()) + if s.last() == 0 { 1nat } else { 0nat }
    }
}

proof fn lemma_count_zero_set(s: Seq<usize>, i: int, v: usize)
    requires
        0 <= i < s.len(),
        s[i] == 0,
        v > 0,
    ensures
        count_zero(s.update(i, v)) + 1 == count_zero(s),
        count_zero(s) <= s.len(),
    decreases s.len(),
{
    let t = s.update(i, v);
    if i < s.len() - 1 {
        assert(t.drop_last() == s.drop_last().update(i, v));
        lemma_count_zero_set(s.drop_last(), i, v);
    } else {
        assert(t.drop_last() == s.drop_last());
        lemma_count_zero_bound(s.drop_last());
    }
}

proof fn lemma_count_zero_bound(s: Seq<usize>)
    ensures
        count_zero(s) <= s.len(),
    decreases s.len(),
{
    if s.len() > 0 {
        lemma_count_zero_bound(s.drop_last());
    }
}

/// The state of the depth first search for articulation points and bridges.
struct LowLinks {
    time: usize,
    disc: Vec<usize>,
    low: Vec<usize>,
    parent: Vec<Option<usize>>,
    points: Vec<bool>,
    bridges: Vec<(usize, usize)>,
}

/// The search state fits a graph of `n` nodes: discovery times count the
/// discovered nodes, points are marked nodes, bridges join neighbours.
spec fn low_links_ok(st: LowLinks, u: Seq<Vec<usize>>, mask: Seq<bool>) -> bool {
    &&& st.disc@.len() == u.len()
    &&& st.low@.len() == u.len()
    &&& st.parent@.len() == u.len()
    &&& st.points@.len() == u.len()
    &&& mask.len() == u.len()
    &&& st.time + count_zero(st.disc@) == u.len()
    &&& forall|x: int| 0 <= x < u.len() && #[trigger] st.points@[x] ==> mask[x]
    &&& forall|i: int| 0 <= i < st.bridges@.len() ==> (#[trigger] st.bridges@[i]).0 < u.len()
        && u[st.bridges@[i].0 as int]@.contains(st.bridges@[i].1)
}

/// Visits `x` and the undiscovered nodes below it, marking articulation
/// points and recording bridges.
fn low_link_visit(x: usize, u: &Vec<Vec<usize>>, mask: &Vec<bool>, st: &mut LowLinks)
    requires
        low_links_ok(*old(st), u@, mask@),
        x < u@.len(),
        mask@[x as int],
        old(st).disc@[x as int] == 0,
        rows_in_range(u@),
        forall|a: int, b: usize| 0 <= a < u@.len() && #[trigger] u@[a]@.contains(b) ==> mask@[b as int],
    ensures
        low_links_ok(*final(st), u@, mask@),
        count_zero(final(st).disc@) < count_zero(old(st).disc@),
    decreases count_zero(old(st).disc@),
{
    let n = u.len();
    let ghost start_zero = count_zero(st.disc@);
    proof {
        lemma_count_zero_set(st.disc@, x as int, 1);
        lemma_count_zero_set(st.disc@, x as int, (st.time + 1) as usize);
    }
    st.time = st.time + 1;
    let t = st.time;
    st.disc.set(x, t);
    st.low.set(x, t);
    let ghost entry_zero = count_zero(st.disc@);
    let mut children: usize = 0;
    let row = &u[x];
    let mut j: usize = 0;
    while j < row.len()
        invariant
            low_links_ok(*st, u@, mask@),
            x < u@.len(),
            mask@[x as int],
            row@ == u@[x as int]@,
            rows_in_range(u@),
            forall|a: int, b: usize| 0 <= a < u@.len() && #[trigger] u@[a]@.contains(b) ==> mask@[b as int],
            j <= row@.len(),
            children <= j,
            count_zero(st.disc@) <= entry_zero,
            entry_zero < start_zero,
            start_zero == count_zero(old(st).disc@),
        decreases row@.len() - j,
    {
        let v = row[j];
        proof {
            assert(u@[x as int]@.contains(v));
        }
        if st.disc[v] == 0 {
            children = children + 1;
            st.parent.set(v, Some(x));
            low_link_visit(v, u, mask, st);
            let lv = st.low[v];
            if lv < st.low[x] {
                st.low.set(x, lv);
            }
            let is_root = st.parent[x].is_none();
            if (is_root && children > 1) || (!is_root && st.low[v] >= st.disc[x]) {
                st.points.set(x, true);
            }
            if st.low[v] > st.disc[x] {
                st.bridges.push((x, v));
            }
        } else {
            let is_parent = match st.parent[x] {
                Some(p) => p == v,
                None => false,
            };
            if !is_parent {
                let dv = st.disc[v];
                if dv < st.low[x] {
                    st.low.set(x, dv);
                }
            }
        }
        j = j + 1;
    }
}

/// Articulation points and bridges of the undirected graph `u`, searched
/// depth first from each active node in turn: the marked points in
/// increasing order, and the bridges in the order found.
pub fn articulation_and_bridges(u: &Vec<Vec<usize>>, active: &Vec<usize>) -> (r: (Vec<usize>, Vec<(usize, usize)>))
    requires
        rows_in_range(u@),
        rows_within(u@, active@),
        forall|k: int| 0 <= k < active@.len() ==> #[trigger] active@[k] < u@.len(),
    ensures
        increasing(r.0@),
        forall|i: int| 0 <= i < r.0@.len() ==> active@.contains(#[trigger] r.0@[i]),
        forall|i: int| 0 <= i < r.1@.len() ==> (#[trigger] r.1@[i]).0 < u@.len()
            && u@[r.1@[i].0 as int]@.contains(r.1@[i].1),
{
    let n = u.len();
    let mut mask: Vec<bool> = Vec::new();
    let mut disc: Vec<usize> = Vec::new();
    let mut low: Vec<usize> = Vec::new();
    let mut parent: Vec<Option<usize>> = Vec::new();
    let mut points: Vec<bool> = Vec::new();
    let mut x: usize = 0;
    while x < n
        invariant
            x <= n,
            mask@.len() == x,
            disc@.len() == x,
            low@.len() == x,
            parent@.len() == x,
            points@.len() == x,
            forall|z: int| 0 <= z < x ==> #[trigger] disc@[z] == 0 && !points@[z] && !mask@[z],
            count_zero(disc@) == x,
        decreases n - x,
    {
        mask.push(false);
        proof {
            assert(disc@.push(0).drop_last() == disc@);
        }
        disc.push(0);
        low.push(0);
        parent.push(None);
        points.push(false);
        x = x + 1;
    }
    proof {
        assert forall|z: int| 0 <= z < n implies #[trigger] disc@[z] == 0 && !points@[z] by {
            assert(disc@[z] == 0 && !points@[z] && !mask@[z]);
        }
        assert(active@.take(0) == Seq::<usize>::empty());
        assert forall|z: int| 0 <= z < n implies #[trigger] mask@[z] == active@.take(0).contains(z as usize) by {
            assert(disc@[z] == 0);
        }
    }
    let mut k: usize = 0;
    while k < active.len()
        invariant
            mask@.len() == n,
            n == u@.len(),
            forall|k2: int| 0 <= k2 < active@.len() ==> #[trigger] active@[k2] < n,
            k <= active@.len(),
            forall|z: int| 0 <= z < n ==> #[trigger] mask@[z] == active@.take(k as int).contains(z as usize),
            disc@.len() == n,
            low@.len() == n,
            parent@.len() == n,
            points@.len() == n,
            forall|z: int| 0 <= z < n ==> #[trigger] disc@[z] == 0 && !points@[z],
            count_zero(disc@) == n,
        decreases active@.len() - k,
    {
        proof {
            assert forall|z: int| 0 <= z < n implies (#[trigger] mask@.update(active@[k as int] as int, true)[z])
                == active@.take(k + 1).contains(z as usize) by {
                assert(active@.take(k + 1) == active@.take(k as int).push(active@[k as int]));
                if active@.take(k as int).contains(z as usize) {
                    let t0 = active@.take(k as int);
                    let i = choose|i: int| 0 <= i < t0.len() && #[trigger] t0[i] == z as usize;
                    assert(active@.take(k + 1)[i] == z as usize);
                }
                if active@.take(k + 1).contains(z as usize) && z != active@[k as int] {
                    let t1 = active@.take(k + 1);
                    let i = choose|i: int| 0 <= i < t1.len() && #[trigger] t1[i] == z as usize;
                    assert(active@.take(k as int)[i] == z as usize);
                }
                if z == active@[k as int] {
                    assert(active@.take(k + 1)[k as int] == z as usize);
                }
            }
        }
        mask.set(active[k], true);
        k = k + 1;
    }
    proof {
        assert(active@.take(k as int) == active@);
    }
    proof {
        assert forall|z: int| 0 <= z < n && #[trigger] points@[z] implies mask@[z] by {
            assert(disc@[z] == 0);
        }
    }
    let mut st = LowLinks { time: 0, disc, low, parent, points, bridges: Vec::new() };
    let mut k: usize = 0;
    while k < active.len()
        invariant
            low_links_ok(st, u@, mask@),
            n == u@.len(),
            rows_in_range(u@),
            rows_within(u@, active@),
            forall|k2: int| 0 <= k2 < active@.len() ==> #[trigger] active@[k2] < n,
            forall|z: int| 0 <= z < n ==> #[trigger] mask@[z] == active@.contains(z as usize),
            k <= active@.len(),
        decreases active@.len() - k,
    {
        let node = active[k];
        if st.disc[node] == 0 {
            proof {
                assert(mask@[node as int]);
                assert forall|a: int, b: usize| 0 <= a < u@.len() && #[trigger] u@[a]@.contains(b) implies mask@[b as int] by {
                    assert(active@.contains(b));
                    assert(b < n);
                }
            }
            low_link_visit(node, u, &mask, &mut st);
        }
        k = k + 1;
    }
    let mut out: Vec<usize> = Vec::new();
    let mut z: usize = 0;
    while z < n
        invariant
            low_links_ok(st, u@, mask@),
            n == u@.len(),
            forall|y: int| 0 <= y < n ==> #[trigger] mask@[y] == active@.contains(y as usize),
            z <= n,
            increasing(out@),
            forall|i: int| 0 <= i < out@.len() ==> (#[trigger] out@[i]) < z && active@.contains(out@[i]),
        decreases n - z,
    {
        if st.points[z] {
            proof {
                assert(mask@[z as int]);
            }
            out.push(z);
        }
        z = z + 1;
    }
    (out, st.bridges)
}

/// How many entries are `None`.
pub open spec fn count_none(s: Seq<Option<usize>>) -> nat
    decreases s.len(),
{
    if s.len() == 0 {
        0
    } else {
        count_none(s.drop_last()) + if s.last() is None { 1nat } else { 0nat }
    }
}

proof fn lemma_count_none_set(s: Seq<Option<usize>>, i: int, v: usize)
    requires
        0 <= i < s.len(),
        s[i] is None,
    ensures
        count_none(s.update(i, Some(v))) + 1 == count_none(s),
    decreases s.len(),
{
    let t = s.update(i, Some(v));
    if i < s.len() - 1 {
        assert(t.drop_last() == s.drop_last().update(i, Some(v)));
        lemma_count_none_set(s.drop_last(), i, v);
    } else {
        assert(t.drop_last() == s.drop_last());
    }
}

/// The state of Tarjan's search for strongly connected components.
struct TarjanState {
    next: usize,
    indices: Vec<Option<usize>>,
    low: Vec<usize>,
    stack: Vec<usize>,
    on_stack: Vec<bool>,
    components: Vec<Vec<usize>>,
}

/// Every visited node is on the stack once or in one component; the
/// components are disjoint and hold marked nodes.
spec fn tarjan_ok(st: TarjanState, n: nat, mask: Seq<bool>) -> bool {
    &&& st.indices@.len() == n
    &&& st.low@.len() == n
    &&& st.on_stack@.len() == n
    &&& mask.len() == n
    &&& st.next + count_none(st.indices@) == n
    &&& st.stack@.no_duplicates()
    &&& forall|i: int| 0 <= i < st.stack@.len() ==> (#[trigger] st.stack@[i]) < n && st.indices@[st.stack@[i] as int] is Some
        && mask[st.stack@[i] as int]
    &&& forall|x: int| 0 <= x < n ==> (#[trigger] st.on_stack@[x] <==> st.stack@.contains(x as usize))
    &&& forall|k: int| 0 <= k < st.components@.len() ==> (#[trigger] st.components@[k])@.len() >= 1 && st.components@[k]@.no_duplicates()
    &&& forall|k: int, x: usize| 0 <= k < st.components@.len() && #[trigger] st.components@[k]@.contains(x) ==> x < n
        && st.indices@[x as int] is Some && !st.stack@.contains(x) && mask[x as int]
    &&& forall|k1: int, k2: int, x: usize| 0 <= k1 < st.components@.len() && 0 <= k2 < st.components@.len()
        && #[trigger] st.components@[k1]@.contains(x) && #[trigger] st.components@[k2]@.contains(x) ==> k1 == k2
    &&& numbering_ok(st.indices@, st.stack@, st.next as int)
    &&& forall|y: int| 0 <= y < n && (#[trigger] st.indices@[y]) is Some
        ==> st.stack@.contains(y as usize) || in_some_component(st.components@, y as usize)
}

/// Every number handed out is below `next`, and the stack holds nodes in
/// increasing order of their numbers.
spec fn numbering_ok(indices: Seq<Option<usize>>, stack: Seq<usize>, next: int) -> bool {
    &&& forall|y: int| 0 <= y < indices.len() && (#[trigger] indices[y]) is Some ==> indices[y]->0 < next
    &&& forall|i: int, j: int| 0 <= i < j < stack.len() ==> indices[#[trigger] stack[i] as int]->0 < indices[#[trigger] stack[j] as int]->0
}

/// Step `i` of `p` follows an arc between marked nodes.
pub open spec fn arc_step(directed: Seq<Vec<(usize, usize)>>, mask: Seq<bool>, p: Seq<int>, i: int) -> bool {
    arc(directed, mask, p[i], p[i + 1])
}

/// `p` is a non-empty walk along arcs between marked nodes.
pub open spec fn walk_ok(directed: Seq<Vec<(usize, usize)>>, mask: Seq<bool>, p: Seq<int>) -> bool {
    &&& p.len() >= 1
    &&& forall|i: int| 0 <= i < p.len() - 1 ==> #[trigger] arc_step(directed, mask, p, i)
}

/// Some walk leads from `a` to `b`.
pub open spec fn arc_reaches(directed: Seq<Vec<(usize, usize)>>, mask: Seq<bool>, a: int, b: int) -> bool {
    exists|p: Seq<int>| #[trigger] walk_ok(directed, mask, p) && p[0] == a && p.last() == b
}

/// Some member of `c` reaches every member of `c`.
pub open spec fn rooted(directed: Seq<Vec<(usize, usize)>>, mask: Seq<bool>, c: Seq<usize>) -> bool {
    exists|r: usize| #[trigger] c.contains(r) && forall|y: usize| #[trigger] c.contains(y) ==> arc_reaches(directed, mask, r as int, y as int)
}

proof fn lemma_reaches_self(directed: Seq<Vec<(usize, usize)>>, mask: Seq<bool>, a: int)
    ensures
        arc_reaches(directed, mask, a, a),
{
    let p = seq![a];
    assert(walk_ok(directed, mask, p));
}

proof fn lemma_reaches_prepend(directed: Seq<Vec<(usize, usize)>>, mask: Seq<bool>, a: int, b: int, c: int)
    requires
        arc(directed, mask, a, b),
        arc_reaches(directed, mask, b, c),
    ensures
        arc_reaches(directed, mask, a, c),
{
    let p = choose|p: Seq<int>| #[trigger] walk_ok(directed, mask, p) && p[0] == b && p.last() == c;
    let q = seq![a] + p;
    assert forall|i: int| 0 <= i < q.len() - 1 implies #[trigger] arc_step(directed, mask, q, i) by {
        if i > 0 {
            assert(arc_step(directed, mask, p, i - 1));
            assert(q[i] == p[i - 1] && q[i + 1] == p[i]);
        } else {
            assert(q[1] == p[0]);
        }
    }
    assert(walk_ok(directed, mask, q));
    assert(q.last() == p.last());
}

/// Every marked node lies in some component.
pub open spec fn components_cover(cs: Seq<Seq<usize>>, mask: Seq<bool>) -> bool {
    forall|x: usize| x < mask.len() && mask[x as int] ==> exists|k: int| 0 <= k < cs.len() && #[trigger] cs[k].contains(x)
}

/// `y` belongs to one of the components.
pub open spec fn in_some_component(cs: Seq<Vec<usize>>, y: usize) -> bool {
    exists|k: int| 0 <= k < cs.len() && #[trigger] cs[k]@.contains(y)
}

/// Tarjan's visit of `x`: numbers it, visits its unvisited marked
/// successors, and closes a component where `x` is its root.
fn tarjan_visit(x: usize, directed: &Vec<Vec<(usize, usize)>>, mask: &Vec<bool>, st: &mut TarjanState)
    requires
        tarjan_ok(*old(st), directed@.len() as nat, mask@),
        x < directed@.len(),
        mask@[x as int],
        old(st).indices@[x as int] is None,
        forall|a: int, i: int| 0 <= a < directed@.len() && 0 <= i < directed@[a]@.len() ==> (#[trigger] directed@[a]@[i]).0 < directed@.len(),
        forall|k: int| 0 <= k < old(st).components@.len() ==> rooted(directed@, mask@, #[trigger] old(st).components@[k]@),
    ensures
        forall|k: int| 0 <= k < final(st).components@.len() ==> rooted(directed@, mask@, #[trigger] final(st).components@[k]@),
        forall|i: int| old(st).stack@.len() <= i < final(st).stack@.len() ==> arc_reaches(directed@, mask@, x as int, #[trigger] final(st).stack@[i] as int),
        forall|k: int, y: usize| old(st).components@.len() <= k < final(st).components@.len() && #[trigger] final(st).components@[k]@.contains(y)
            ==> arc_reaches(directed@, mask@, x as int, y as int),
        tarjan_ok(*final(st), directed@.len() as nat, mask@),
        count_none(final(st).indices@) < count_none(old(st).indices@),
        final(st).stack@.len() >= old(st).stack@.len(),
        final(st).stack@.take(old(st).stack@.len() as int) == old(st).stack@,
        final(st).components@.len() >= old(st).components@.len(),
        forall|k: int| 0 <= k < old(st).components@.len() ==> #[trigger] final(st).components@[k] == old(st).components@[k],
        final(st).next > old(st).next,
        final(st).indices@[x as int] == Some(old(st).next),
        forall|y: int| 0 <= y < directed@.len() && (#[trigger] old(st).indices@[y]) is Some
            ==> final(st).indices@[y] == old(st).indices@[y] && final(st).low@[y] == old(st).low@[y],
        final(st).low@[x as int] <= old(st).next,
        final(st).low@[x as int] == old(st).next || exists|q: int| 0 <= q < old(st).stack@.len()
            && final(st).low@[x as int] == (#[trigger] old(st).indices@[old(st).stack@[q] as int])->0,
        final(st).low@[x as int] == old(st).next ==> final(st).stack@ == old(st).stack@,
    decreases count_none(old(st).indices@),
{
    let n = directed.len();
    let ghost start_none = count_none(st.indices@);
    let ghost base = st.stack@;
    let ghost base_comps = st.components@;
    proof {
        lemma_count_none_set(st.indices@, x as int, st.next);
    }
    let index = st.next;
    st.next = st.next + 1;
    st.indices.set(x, Some(index));
    st.low.set(x, index);
    proof {
        assert(!st.stack@.contains(x)) by {
            if st.stack@.contains(x) {
                let i = choose|i: int| 0 <= i < st.stack@.len() && st.stack@[i] == x;
            }
        }
        assert forall|k: int, y: usize| 0 <= k < st.components@.len() && #[trigger] st.components@[k]@.contains(y) implies y != x by {
        }
    }
    st.stack.push(x);
    st.on_stack.set(x, true);
    proof {
        assert forall|y: int| 0 <= y < n implies (#[trigger] st.on_stack@[y] <==> st.stack@.contains(y as usize)) by {
            if y == x {
                assert(st.stack@[base.len() as int] == x);
            } else if st.stack@.contains(y as usize) {
                let i = choose|i: int| 0 <= i < st.stack@.len() && st.stack@[i] == y as usize;
                assert(base[i] == y as usize);
            } else if base.contains(y as usize) {
                let i = choose|i: int| 0 <= i < base.len() && base[i] == y as usize;
                assert(st.stack@[i] == y as usize);
            }
        }
        assert forall|a: int, b: int| 0 <= a < b < st.stack@.len() implies st.stack@[a] != st.stack@[b] by {
            if b < base.len() {
                assert(base[a] != base[b]);
            } else {
                assert(base.contains(base[a]));
            }
        }
        assert forall|k: int, y: usize| 0 <= k < st.components@.len() && #[trigger] st.components@[k]@.contains(y)
            implies !st.stack@.contains(y) by {
            if st.stack@.contains(y) {
                let i = choose|i: int| 0 <= i < st.stack@.len() && st.stack@[i] == y;
                if i < base.len() {
                    assert(base.contains(y));
                }
            }
        }
        assert forall|i: int, j: int| 0 <= i < j < st.stack@.len() implies
            st.indices@[#[trigger] st.stack@[i] as int]->0 < st.indices@[#[trigger] st.stack@[j] as int]->0 by {
            assert(st.stack@[i] == base[i]);
            assert(base[i] != x);
            if j < base.len() {
                assert(st.stack@[j] == base[j]);
                assert(base[j] != x);
            }
        }
        assert forall|y: int| 0 <= y < n && (#[trigger] st.indices@[y]) is Some
            implies st.stack@.contains(y as usize) || in_some_component(st.components@, y as usize) by {
            if y == x {
                assert(st.stack@[base.len() as int] == x);
            } else if base.contains(y as usize) {
                let i = choose|i: int| 0 <= i < base.len() && base[i] == y as usize;
                assert(st.stack@[i] == y as usize);
            }
        }
    }
    let ghost entry_none = count_none(st.indices@);
    proof {
        lemma_reaches_self(directed@, mask@, x as int);
        assert forall|i: int| base.len() <= i < st.stack@.len() implies arc_reaches(directed@, mask@, x as int, #[trigger] st.stack@[i] as int) by {
            assert(st.stack@[i] == x);
        }
        assert forall|i: int| 0 <= i < base.len() implies (#[trigger] old(st).indices@[base[i] as int]) is Some by {
            assert(old(st).stack@[i] == base[i]);
        }
    }
    let row = &directed[x];
    let mut j: usize = 0;
    while j < row.len()
        invariant
            n == directed@.len(),
            tarjan_ok(*st, n as nat, mask@),
            forall|a: int, i: int| 0 <= a < directed@.len() && 0 <= i < directed@[a]@.len() ==> (#[trigger] directed@[a]@[i]).0 < directed@.len(),
            x < n,
            row@ == directed@[x as int]@,
            j <= row@.len(),
            count_none(st.indices@) <= entry_none,
            entry_none < start_none,
            start_none == count_none(old(st).indices@),
            st.stack@.len() > base.len(),
            st.stack@.take(base.len() as int) == base,
            st.stack@[base.len() as int] == x,
            st.components@.len() >= base_comps.len(),
            forall|k: int| 0 <= k < base_comps.len() ==> #[trigger] st.components@[k] == base_comps[k],
            index == old(st).next,
            base == old(st).stack@,
            old(st).indices@[x as int] is None,
            old(st).indices@.len() == n,
            forall|i: int| 0 <= i < base.len() ==> (#[trigger] old(st).indices@[base[i] as int]) is Some,
            st.indices@[x as int] == Some(index),
            st.next > index,
            forall|y: int| 0 <= y < n && (#[trigger] old(st).indices@[y]) is Some
                ==> st.indices@[y] == old(st).indices@[y] && st.low@[y] == old(st).low@[y],
            st.low@[x as int] <= index,
            st.low@[x as int] == index || exists|q: int| 0 <= q < base.len()
                && st.low@[x as int] == (#[trigger] old(st).indices@[base[q] as int])->0,
            mask@.len() == n,
            mask@[x as int],
            forall|k: int| 0 <= k < st.components@.len() ==> rooted(directed@, mask@, #[trigger] st.components@[k]@),
            forall|i: int| base.len() <= i < st.stack@.len() ==> arc_reaches(directed@, mask@, x as int, #[trigger] st.stack@[i] as int),
            forall|k: int, y: usize| base_comps.len() <= k < st.components@.len() && #[trigger] st.components@[k]@.contains(y)
                ==> arc_reaches(directed@, mask@, x as int, y as int),
        decreases row@.len() - j,
    {
        let next = row[j].0;
        if mask[next] {
            if st.indices[next].is_none() {
                let ghost before = st.stack@;
                let ghost comps0 = st.components@;
                let ghost idx0 = st.indices@;
                let ghost low0 = st.low@;
                let ghost next0 = st.next;
                tarjan_visit(next, directed, mask, st);
                proof {
                    assert(arc(directed@, mask@, x as int, next as int)) by {
                        assert(row@[j as int].0 == next);
                    }
                    assert forall|i: int| base.len() <= i < st.stack@.len() implies arc_reaches(directed@, mask@, x as int, #[trigger] st.stack@[i] as int) by {
                        if i < before.len() {
                            assert(st.stack@[i] == before[i]) by {
                                assert(st.stack@.take(before.len() as int)[i] == before[i]);
                            }
                        } else {
                            lemma_reaches_prepend(directed@, mask@, x as int, next as int, st.stack@[i] as int);
                        }
                    }
                    assert forall|k: int, y: usize| base_comps.len() <= k < st.components@.len() && #[trigger] st.components@[k]@.contains(y)
                        implies arc_reaches(directed@, mask@, x as int, y as int) by {
                        if k < comps0.len() {
                            assert(st.components@[k] == comps0[k]);
                        } else {
                            lemma_reaches_prepend(directed@, mask@, x as int, next as int, y as int);
                        }
                    }
                    assert forall|y: int| 0 <= y < n && (#[trigger] old(st).indices@[y]) is Some
                        implies st.indices@[y] == old(st).indices@[y] && st.low@[y] == old(st).low@[y] by {
                        assert(idx0[y] is Some);
                    }
                    assert(idx0[x as int] is Some);
                    let lnv = st.low@[next as int];
                    if lnv < st.low@[x as int] {
                        assert(lnv != next0);
                        let q = choose|q: int| 0 <= q < before.len() && lnv == (#[trigger] idx0[before[q] as int])->0;
                        if q >= base.len() {
                            assert(before[base.len() as int] == x);
                            if q > base.len() {
                                assert(idx0[before[base.len() as int] as int]->0 < idx0[before[q] as int]->0);
                            }
                            assert(false);
                        }
                        assert(before[q] == base[q]) by {
                            assert(before.take(base.len() as int)[q] == base[q]);
                        }
                        assert(old(st).indices@[base[q] as int] is Some);
                    }
                }
                proof {
                    assert(st.stack@.take(base.len() as int) == base) by {
                        assert(st.stack@.take(before.len() as int) == before);
                        assert forall|i: int| 0 <= i < base.len() implies st.stack@[i] == base[i] by {
                            assert(st.stack@[i] == before[i]);
                            assert(before[i] == before.take(base.len() as int)[i]);
                        }
                    }
                    assert(st.stack@[base.len() as int] == x) by {
                        assert(st.stack@[base.len() as int] == before[base.len() as int]);
                    }
                    assert forall|k: int| 0 <= k < base_comps.len() implies #[trigger] st.components@[k] == base_comps[k] by {
                        assert(st.components@[k] == comps0[k]);
                    }
                }
                let ln = st.low[next];
                if ln < st.low[x] {
                    st.low.set(x, ln);
                }
            } else if st.on_stack[next] {
                let ix = match st.indices[next] {
                    Some(i) => i,
                    None => 0,
                };
                if ix < st.low[x] {
                    proof {
                        let q = choose|q: int| 0 <= q < st.stack@.len() && st.stack@[q] == next;
                        if q >= base.len() {
                            if q > base.len() {
                                assert(st.indices@[st.stack@[base.len() as int] as int]->0 < st.indices@[st.stack@[q] as int]->0);
                            }
                            assert(false);
                        }
                        assert(st.stack@[q] == base[q]) by {
                            assert(st.stack@.take(base.len() as int)[q] == base[q]);
                        }
                        assert(old(st).indices@[base[q] as int] is Some);
                    }
                    st.low.set(x, ix);
                }
            }
        }
        j = j + 1;
    }
    if st.low[x] == index {
        let ghost idx1 = st.indices@;
        let ghost low1 = st.low@;
        let ghost next1 = st.next;
        let mut component: Vec<usize> = Vec::new();
        let mut done = false;
        while !done
            invariant
                st.indices@ == idx1,
                st.low@ == low1,
                st.next == next1,
                mask@[x as int],
                forall|k: int| 0 <= k < st.components@.len() ==> rooted(directed@, mask@, #[trigger] st.components@[k]@),
                forall|i: int| base.len() <= i < st.stack@.len() ==> arc_reaches(directed@, mask@, x as int, #[trigger] st.stack@[i] as int),
                forall|k: int, y: usize| base_comps.len() <= k < st.components@.len() && #[trigger] st.components@[k]@.contains(y)
                    ==> arc_reaches(directed@, mask@, x as int, y as int),
                forall|y: usize| #[trigger] component@.contains(y) ==> arc_reaches(directed@, mask@, x as int, y as int),
                done ==> component@.contains(x),
                numbering_ok(st.indices@, st.stack@, st.next as int),
                forall|y: int| 0 <= y < n && (#[trigger] st.indices@[y]) is Some
                    ==> st.stack@.contains(y as usize) || component@.contains(y as usize) || in_some_component(st.components@, y as usize),
                n == directed@.len(),
                mask@.len() == n,
                st.indices@.len() == n,
                st.low@.len() == n,
                st.on_stack@.len() == n,
                st.next + count_none(st.indices@) == n,
                st.stack@.no_duplicates(),
                forall|i: int| 0 <= i < st.stack@.len() ==> (#[trigger] st.stack@[i]) < n && st.indices@[st.stack@[i] as int] is Some
                    && mask@[st.stack@[i] as int],
                forall|y: int| 0 <= y < n ==> (#[trigger] st.on_stack@[y] <==> st.stack@.contains(y as usize)),
                forall|k: int| 0 <= k < st.components@.len() ==> (#[trigger] st.components@[k])@.len() >= 1 && st.components@[k]@.no_duplicates(),
                forall|k: int, y: usize| 0 <= k < st.components@.len() && #[trigger] st.components@[k]@.contains(y) ==> y < n
                    && st.indices@[y as int] is Some && !st.stack@.contains(y) && !component@.contains(y) && mask@[y as int],
                forall|k1: int, k2: int, y: usize| 0 <= k1 < st.components@.len() && 0 <= k2 < st.components@.len()
                    && #[trigger] st.components@[k1]@.contains(y) && #[trigger] st.components@[k2]@.contains(y) ==> k1 == k2,
                component@.no_duplicates(),
                forall|i: int| 0 <= i < component@.len() ==> (#[trigger] component@[i]) < n && st.indices@[component@[i] as int] is Some
                    && !st.stack@.contains(component@[i]) && mask@[component@[i] as int],
                !done ==> st.stack@.len() > base.len() && st.stack@[base.len() as int] == x,
                st.stack@.len() >= base.len(),
                st.stack@.take(base.len() as int) == base,
                done ==> st.stack@.len() == base.len() && component@.len() >= 1,
                st.components@.len() >= base_comps.len(),
                forall|k: int| 0 <= k < base_comps.len() ==> #[trigger] st.components@[k] == base_comps[k],
                count_none(st.indices@) < start_none,
                start_none == count_none(old(st).indices@),
            decreases st.stack@.len(),
        {
            let ghost s0 = st.stack@;
            let member = st.stack.pop().unwrap();
            proof {
                assert(st.stack@ == s0.drop_last());
                assert(!st.stack@.contains(member)) by {
                    if st.stack@.contains(member) {
                        let i = choose|i: int| 0 <= i < st.stack@.len() && st.stack@[i] == member;
                        assert(s0[i] == s0[s0.len() - 1]);
                    }
                }
                assert(!component@.contains(member));
            }
            st.on_stack.set(member, false);
            let ghost c0 = component@;
            component.push(member);
            proof {
                assert(arc_reaches(directed@, mask@, x as int, member as int)) by {
                    assert(s0[s0.len() - 1] == member);
                }
                assert forall|y: usize| #[trigger] component@.contains(y) implies arc_reaches(directed@, mask@, x as int, y as int) by {
                    let q = choose|q: int| 0 <= q < component@.len() && component@[q] == y;
                    if q < c0.len() {
                        assert(c0[q] == y);
                        assert(c0.contains(y));
                    }
                }
                assert forall|i: int| base.len() <= i < st.stack@.len() implies arc_reaches(directed@, mask@, x as int, #[trigger] st.stack@[i] as int) by {
                    assert(st.stack@[i] == s0[i]);
                }
                assert(component@[component@.len() - 1] == member);
                assert forall|y: int| 0 <= y < n implies (#[trigger] st.on_stack@[y] <==> st.stack@.contains(y as usize)) by {
                    if st.stack@.contains(y as usize) {
                        let i = choose|i: int| 0 <= i < st.stack@.len() && st.stack@[i] == y as usize;
                        assert(s0[i] == y as usize);
                    }
                    if y != member && s0.contains(y as usize) {
                        let i = choose|i: int| 0 <= i < s0.len() && s0[i] == y as usize;
                        assert(i < s0.len() - 1);
                        assert(st.stack@[i] == y as usize);
                    }
                }
                assert forall|a: int, b: int| 0 <= a < b < component@.len() implies component@[a] != component@[b] by {
                    if b < c0.len() {
                        assert(c0[a] != c0[b]);
                    } else {
                        assert(c0.contains(c0[a]));
                    }
                }
                assert forall|i: int| 0 <= i < component@.len() implies (#[trigger] component@[i]) < n && st.indices@[component@[i] as int] is Some
                    && !st.stack@.contains(component@[i]) && mask@[component@[i] as int] by {
                    if i < c0.len() {
                        assert(component@[i] == c0[i]);
                        if st.stack@.contains(c0[i]) {
                            let q = choose|q: int| 0 <= q < st.stack@.len() && st.stack@[q] == c0[i];
                            assert(s0[q] == c0[i]);
                        }
                    } else {
                        assert(s0[s0.len() - 1] == member);
                    }
                }
                assert forall|k: int, y: usize| 0 <= k < st.components@.len() && #[trigger] st.components@[k]@.contains(y)
                    implies !st.stack@.contains(y) && !component@.contains(y) by {
                    if st.stack@.contains(y) {
                        let q = choose|q: int| 0 <= q < st.stack@.len() && st.stack@[q] == y;
                        assert(s0[q] == y);
                    }
                    if component@.contains(y) {
                        let q = choose|q: int| 0 <= q < component@.len() && component@[q] == y;
                        if q < c0.len() {
                            assert(c0[q] == y);
                        } else {
                            assert(s0.contains(y)) by {
                                assert(s0[s0.len() - 1] == y);
                            }
                        }
                    }
                }
                assert(st.stack@.take(base.len() as int) == base) by {
                    assert forall|i: int| 0 <= i < base.len() implies st.stack@[i] == base[i] by {
                        assert(s0.take(base.len() as int)[i] == base[i]);
                    }
                }
                assert forall|i: int, j: int| 0 <= i < j < st.stack@.len() implies
                    st.indices@[#[trigger] st.stack@[i] as int]->0 < st.indices@[#[trigger] st.stack@[j] as int]->0 by {
                    assert(st.stack@[i] == s0[i] && st.stack@[j] == s0[j]);
                }
                assert forall|y: int| 0 <= y < n && (#[trigger] st.indices@[y]) is Some implies
                    st.stack@.contains(y as usize) || component@.contains(y as usize) || in_some_component(st.components@, y as usize) by {
                    if s0.contains(y as usize) {
                        let i = choose|i: int| 0 <= i < s0.len() && s0[i] == y as usize;
                        if i < s0.len() - 1 {
                            assert(st.stack@[i] == y as usize);
                        } else {
                            assert(component@[component@.len() - 1] == y as usize);
                        }
                    } else if c0.contains(y as usize) {
                        let i = choose|i: int| 0 <= i < c0.len() && c0[i] == y as usize;
                        assert(component@[i] == y as usize);
                    }
                }
            }
            if member == x {
                done = true;
                proof {
                    assert(s0.len() - 1 == base.len()) by {
                        if s0.len() - 1 > base.len() {
                            assert(s0[base.len() as int] == x);
                        }
                    }
                }
            }
        }
        let ghost before = st.components@;
        let ghost comp = component@;
        st.components.push(component);
        proof {
            let c = st.components@;
            let last = c.len() - 1;
            assert(st.stack@ =~= base) by {
                assert forall|i: int| 0 <= i < base.len() implies st.stack@[i] == base[i] by {
                    assert(st.stack@.take(base.len() as int)[i] == base[i]);
                }
            }
            assert(c[last]@ == comp);
            assert(rooted(directed@, mask@, c[last]@)) by {
                assert(comp.contains(x));
            }
            assert forall|k: int| 0 <= k < c.len() implies rooted(directed@, mask@, #[trigger] c[k]@) by {
                if k < before.len() {
                    assert(c[k] == before[k]);
                }
            }
            assert forall|k: int, y: usize| base_comps.len() <= k < c.len() && #[trigger] c[k]@.contains(y)
                implies arc_reaches(directed@, mask@, x as int, y as int) by {
                if k < before.len() {
                    assert(c[k] == before[k]);
                }
            }
            assert forall|y: int| 0 <= y < n && (#[trigger] st.indices@[y]) is Some implies
                st.stack@.contains(y as usize) || in_some_component(st.components@, y as usize) by {
                if comp.contains(y as usize) {
                    assert(c[last]@ == comp);
                    assert(c[last]@.contains(y as usize));
                } else if in_some_component(before, y as usize) {
                    let k = choose|k: int| 0 <= k < before.len() && #[trigger] before[k]@.contains(y as usize);
                    assert(c[k] == before[k]);
                    assert(c[k]@.contains(y as usize));
                }
            }
            assert forall|k: int| 0 <= k < c.len() implies (#[trigger] c[k])@.len() >= 1 && c[k]@.no_duplicates() by {
                if k < before.len() {
                    assert(c[k] == before[k]);
                }
            }
            assert forall|k: int, y: usize| 0 <= k < c.len() && #[trigger] c[k]@.contains(y) implies y < n
                && st.indices@[y as int] is Some && !st.stack@.contains(y) && mask@[y as int] by {
                if k < before.len() {
                    assert(c[k] == before[k]);
                } else {
                    let q = choose|q: int| 0 <= q < c[k]@.len() && c[k]@[q] == y;
                }
            }
            assert forall|k1: int, k2: int, y: usize| 0 <= k1 < c.len() && 0 <= k2 < c.len()
                && #[trigger] c[k1]@.contains(y) && #[trigger] c[k2]@.contains(y) implies k1 == k2 by {
                if k1 < before.len() && k2 < before.len() {
                    assert(c[k1] == before[k1] && c[k2] == before[k2]);
                } else if k1 < before.len() {
                    assert(c[k1] == before[k1]);
                    assert(before[k1]@.contains(y));
                } else if k2 < before.len() {
                    assert(c[k2] == before[k2]);
                    assert(before[k2]@.contains(y));
                }
            }
            assert forall|k: int| 0 <= k < base_comps.len() implies #[trigger] st.components@[k] == base_comps[k] by {
                assert(st.components@[k] == before[k]);
            }
        }
    } else {
        proof {
            assert(st.stack@.take(base.len() as int) == base);
        }
    }
}

/// The components are non-empty, without repeats, disjoint, and made of
/// marked nodes.
pub open spec fn components_disjoint(cs: Seq<Seq<usize>>, mask: Seq<bool>) -> bool {
    &&& forall|k: int| 0 <= k < cs.len() ==> (#[trigger] cs[k]).len() >= 1 && cs[k].no_duplicates()
    &&& forall|k: int, x: usize| 0 <= k < cs.len() && #[trigger] cs[k].contains(x) ==> x < mask.len() && mask[x as int]
    &&& forall|k1: int, k2: int, x: usize| 0 <= k1 < cs.len() && 0 <= k2 < cs.len() && #[trigger] cs[k1].contains(x)
        && #[trigger] cs[k2].contains(x) ==> k1 == k2
}

/// Tarjan's strongly connected components of the marked nodes, started from
/// each active node in turn.
pub fn tarjan_components(directed: &Vec<Vec<(usize, usize)>>, mask: &Vec<bool>, active: &Vec<usize>) -> (r: Vec<Vec<usize>>)
    requires
        mask@.len() == directed@.len(),
        forall|a: int, i: int| 0 <= a < directed@.len() && 0 <= i < directed@[a]@.len() ==> (#[trigger] directed@[a]@[i]).0 < directed@.len(),
        forall|k: int| 0 <= k < active@.len() ==> #[trigger] active@[k] < directed@.len() && mask@[active@[k] as int],
    ensures
        components_disjoint(r@.map_values(|c: Vec<usize>| c@), mask@),
        forall|k: int| 0 <= k < active@.len() ==> in_some_component(r@, #[trigger] active@[k]),
        forall|c: int| 0 <= c < r@.len() ==> rooted(directed@, mask@, #[trigger] r@[c]@),
{
    let n = directed.len();
    let mut indices: Vec<Option<usize>> = Vec::new();
    let mut low: Vec<usize> = Vec::new();
    let mut on_stack: Vec<bool> = Vec::new();
    let mut x: usize = 0;
    while x < n
        invariant
            x <= n,
            indices@.len() == x,
            low@.len() == x,
            on_stack@.len() == x,
            forall|z: int| 0 <= z < x ==> #[trigger] indices@[z] is None && !on_stack@[z],
            count_none(indices@) == x,
        decreases n - x,
    {
        proof {
            assert(indices@.push(None).drop_last() == indices@);
        }
        indices.push(None);
        low.push(0);
        on_stack.push(false);
        x = x + 1;
    }
    let mut st = TarjanState { next: 0, indices, low, stack: Vec::new(), on_stack, components: Vec::new() };
    proof {
        assert forall|z: int| 0 <= z < n implies (#[trigger] st.on_stack@[z] <==> st.stack@.contains(z as usize)) by {
            assert(st.indices@[z] is None);
        }
        assert forall|y: int| 0 <= y < n && (#[trigger] st.indices@[y]) is Some
            implies st.stack@.contains(y as usize) || in_some_component(st.components@, y as usize) by {
            assert(st.indices@[y] is None);
        }
        assert forall|y: int| 0 <= y < st.indices@.len() && (#[trigger] st.indices@[y]) is Some implies st.indices@[y]->0 < st.next by {
            assert(st.indices@[y] is None);
        }
    }
    let mut k: usize = 0;
    while k < active.len()
        invariant
            n == directed@.len(),
            tarjan_ok(st, n as nat, mask@),
            forall|a: int, i: int| 0 <= a < directed@.len() && 0 <= i < directed@[a]@.len() ==> (#[trigger] directed@[a]@[i]).0 < directed@.len(),
            forall|k2: int| 0 <= k2 < active@.len() ==> #[trigger] active@[k2] < n && mask@[active@[k2] as int],
            k <= active@.len(),
            st.stack@.len() == 0,
            forall|k2: int| 0 <= k2 < k ==> (#[trigger] st.indices@[active@[k2] as int]) is Some,
            forall|c: int| 0 <= c < st.components@.len() ==> rooted(directed@, mask@, #[trigger] st.components@[c]@),
        decreases active@.len() - k,
    {
        let node = active[k];
        if st.indices[node].is_none() {
            let ghost idx0 = st.indices@;
            tarjan_visit(node, directed, mask, &mut st);
            proof {
                assert forall|k2: int| 0 <= k2 < k implies (#[trigger] st.indices@[active@[k2] as int]) is Some by {
                    assert(idx0[active@[k2] as int] is Some);
                }
            }
        }
        k = k + 1;
    }
    proof {
        assert forall|k2: int| 0 <= k2 < active@.len() implies in_some_component(st.components@, #[trigger] active@[k2]) by {
            assert(st.indices@[active@[k2] as int] is Some);
        }
    }
    proof {
        let cs = st.components@.map_values(|c: Vec<usize>| c@);
        assert forall|k1: int| 0 <= k1 < cs.len() implies (#[trigger] cs[k1]).len() >= 1 && cs[k1].no_duplicates() by {
            assert(cs[k1] == st.components@[k1]@);
        }
        assert forall|k1: int, y: usize| 0 <= k1 < cs.len() && #[trigger] cs[k1].contains(y) implies y < mask@.len() && mask@[y as int] by {
            assert(cs[k1] == st.components@[k1]@);
        }
        assert forall|k1: int, k2: int, y: usize| 0 <= k1 < cs.len() && 0 <= k2 < cs.len() && #[trigger] cs[k1].contains(y)
            && #[trigger] cs[k2].contains(y) implies k1 == k2 by {
            assert(cs[k1] == st.components@[k1]@);
            assert(cs[k2] == st.components@[k2]@);
        }
    }
    st.components
}

} // verus!
