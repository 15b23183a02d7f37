//! The distance-2 adjacency: every DOF within two hops of another, in either
//! direction of the pattern, as sorted duplicate-free lists.
use crate::csr::{adjacency_in_range, lists_view};
use crate::hashed::{insert_at, new_index_set, set_items, set_to_vec};
use vstd::prelude::*;

verus! {

/// `b` is a neighbour of `a`, or a neighbour of one of `a`'s neighbours.
pub open spec fn reaches(adj: Seq<Seq<usize>>, a: usize, b: usize) -> bool {
    &&& (a as int) < adj.len()
    &&& adj[a as int].contains(b) || exists|j: usize|
        #![trigger adj[j as int].contains(b), adj[a as int].contains(j)]
        adj[a as int].contains(j) && (j as int) < adj.len() && adj[j as int].contains(b)
}

/// `a` and `b` are distinct and one reaches the other within two hops.
pub open spec fn distance2(adj: Seq<Seq<usize>>, a: usize, b: usize) -> bool {
    a != b && (reaches(adj, a, b) || reaches(adj, b, a))
}

pub open spec fn strictly_increasing(s: Seq<usize>) -> bool {
    forall|i: int, j: int| 0 <= i < j < s.len() ==> s[i] < s[j]
}

/// `a` holds `b` in its set and `b` holds `a` in its.
pub open spec fn linked(sets: Seq<ahash::AHashSet<usize>>, a: usize, b: usize) -> bool {
    set_items(sets[a as int]).contains(b) && set_items(sets[b as int]).contains(a)
}

proof fn lemma_increasing_at_least(s: Seq<usize>, k: int)
    requires
        strictly_increasing(s),
        0 <= k < s.len(),
    ensures
        s[k] >= k,
    decreases k,
{
    if k > 0 {
        lemma_increasing_at_least(s, k - 1);
    }
}

/// A strictly increasing list of values below `n` has at most `n` entries.
pub proof fn lemma_increasing_len(s: Seq<usize>, n: int)
    requires
        0 <= n,
        strictly_increasing(s),
        forall|k: int| 0 <= k < s.len() ==> (#[trigger] s[k] as int) < n,
    ensures
        s.len() <= n,
{
    if s.len() > 0 {
        lemma_increasing_at_least(s, s.len() - 1);
        assert((s[s.len() - 1] as int) < n);
    }
}

/// Adds the undirected edge `a`–`b` to the accumulating sets.
fn link(sets: &mut Vec<ahash::AHashSet<usize>>, a: usize, b: usize)
    requires
        (a as int) < old(sets)@.len(),
        (b as int) < old(sets)@.len(),
    ensures
        final(sets)@.len() == old(sets)@.len(),
        forall|c: int, x: usize|
            0 <= c < old(sets)@.len() ==> (#[trigger] set_items(final(sets)@[c]).contains(x) <==> (
            set_items(old(sets)@[c]).contains(x) || (c == a && x == b) || (c == b && x == a))),
{
    insert_at(sets, a, b);
    insert_at(sets, b, a);
}

/// The elements of a duplicate-free list, in increasing order.
pub fn sorted_distinct(v: Vec<usize>) -> (r: Vec<usize>)
    requires
        v@.no_duplicates(),
    ensures
        strictly_increasing(r@),
        forall|x: usize| r@.contains(x) <==> v@.contains(x),
{
    let mut out: Vec<usize> = Vec::new();
    for k in 0..v.len()
        invariant
            v@.no_duplicates(),
            strictly_increasing(out@),
            forall|x: usize| out@.contains(x) <==> exists|m: int| 0 <= m < k && v@[m] == x,
    {
        let x = v[k];
        let mut pos: usize = 0;
        while pos < out.len() && out[pos] < x
            invariant
                pos <= out@.len(),
                forall|m: int| 0 <= m < pos ==> out@[m] < x,
            decreases out@.len() - pos,
        {
            pos = pos + 1;
        }
        assert(!out@.contains(x)) by {
            if out@.contains(x) {
                let m = choose|m: int| 0 <= m < k && v@[m] == x;
                assert(v@[m] == v@[k as int]);
            }
        }
        assert forall|m: int| pos <= m < out@.len() implies x < out@[m] by {
            assert(out@[pos as int] >= x);
            if out@[m] == x {
                assert(out@.contains(x));
            }
        }
        let ghost before = out@;
        out.insert(pos, x);
        assert forall|y: usize| out@.contains(y) <==> (before.contains(y) || y == x) by {
            if out@.contains(y) {
                let m = choose|m: int| 0 <= m < out@.len() && out@[m] == y;
                if m < pos {
                    assert(before[m] == y);
                } else if m > pos {
                    assert(before[m - 1] == y);
                }
            }
            if before.contains(y) {
                let m = choose|m: int| 0 <= m < before.len() && before[m] == y;
                if m < pos {
                    assert(out@[m] == y);
                } else {
                    assert(out@[m + 1] == y);
                }
            }
            if y == x {
                assert(out@[pos as int] == x);
            }
        }
        assert forall|y: usize|
            out@.contains(y) <==> exists|m: int| 0 <= m < k + 1 && v@[m] == y by {
            if y == x {
                assert(v@[k as int] == y);
            } else if out@.contains(y) {
                assert(before.contains(y));
                let m = choose|m: int| 0 <= m < k && v@[m] == y;
                assert(0 <= m < k + 1 && v@[m] == y);
            }
            if exists|m: int| 0 <= m < k + 1 && v@[m] == y {
                let m = choose|m: int| 0 <= m < k + 1 && v@[m] == y;
                if m < k {
                    assert(before.contains(y));
                }
            }
        }
    }
    assert forall|x: usize| out@.contains(x) <==> v@.contains(x) by {
        if v@.contains(x) {
            let m = choose|m: int| 0 <= m < v@.len() && v@[m] == x;
            assert(exists|m: int| 0 <= m < v@.len() && v@[m] == x);
        }
    }
    out
}

/// `x` is the neighbour `j` itself, or a neighbour of `j`.
pub open spec fn step_reaches(adj: Seq<Seq<usize>>, j: usize, x: usize) -> bool {
    j == x || ((j as int) < adj.len() && adj[j as int].contains(x))
}

/// `x` is reached from `a` through one of `a`'s first `p` listed neighbours.
pub open spec fn reaches_before(adj: Seq<Seq<usize>>, a: usize, p: int, x: usize) -> bool {
    exists|q: int| 0 <= q < p && #[trigger] step_reaches(adj, adj[a as int][q], x)
}

proof fn lemma_reaches_before_all(adj: Seq<Seq<usize>>, a: usize, x: usize)
    requires
        (a as int) < adj.len(),
        reaches(adj, a, x),
    ensures
        reaches_before(adj, a, adj[a as int].len() as int, x),
{
    if adj[a as int].contains(x) {
        let q = choose|q: int| 0 <= q < adj[a as int].len() && adj[a as int][q] == x;
        assert(step_reaches(adj, adj[a as int][q], x));
    } else {
        let j = choose|j: usize|
            adj[a as int].contains(j) && (j as int) < adj.len() && adj[j as int].contains(x);
        let q = choose|q: int| 0 <= q < adj[a as int].len() && adj[a as int][q] == j;
        assert(step_reaches(adj, adj[a as int][q], x));
    }
}

/// The distance-2 adjacency of a 1-hop adjacency: list `a` holds, in
/// increasing order and once each, every DOF `b != a` such that `b` is within
/// two hops of `a` or `a` is within two hops of `b`.
pub fn distance2_adjacency(adjacency: &Vec<Vec<usize>>) -> (r: Vec<Vec<usize>>)
    requires
        adjacency_in_range(lists_view(adjacency@)),
    ensures
        r@.len() == adjacency@.len(),
        forall|a: int| 0 <= a < r@.len() ==> strictly_increasing(#[trigger] r@[a]@),
        forall|a: usize, b: usize|
            (a as int) < r@.len() ==> (#[trigger] r@[a as int]@.contains(b) <==> distance2(
                lists_view(adjacency@),
                a,
                b,
            )),
        forall|a: usize, b: usize|
            (a as int) < r@.len() && (b as int) < r@.len() ==> (#[trigger] r@[a as int]@.contains(b)
                <==> #[trigger] r@[b as int]@.contains(a)),
{
    let n = adjacency.len();
    let ghost adj = lists_view(adjacency@);
    let mut sets: Vec<ahash::AHashSet<usize>> = Vec::new();
    for i in 0..n
        invariant
            sets@.len() == i,
            forall|c: int, x: usize| 0 <= c < i ==> !(#[trigger] set_items(sets@[c]).contains(x)),
    {
        sets.push(new_index_set());
    }
    for i in 0..n
        invariant
            n == adjacency@.len(),
            adj == lists_view(adjacency@),
            adjacency_in_range(adj),
            sets@.len() == n,
            forall|c: int, x: usize|
                0 <= c < n && #[trigger] set_items(sets@[c]).contains(x) ==> distance2(
                    adj,
                    c as usize,
                    x,
                ),
            forall|a: usize, x: usize|
                a < i && x != a && #[trigger] reaches(adj, a, x) ==> linked(sets@, a, x),
    {
        let row = &adjacency[i];
        assert(row@ == adj[i as int]);
        let mut p: usize = 0;
        while p < row.len()
            invariant
                p <= row@.len(),
                n == adjacency@.len(),
                adj == lists_view(adjacency@),
                adjacency_in_range(adj),
                row@ == adj[i as int],
                i < n,
                sets@.len() == n,
                forall|c: int, x: usize|
                    0 <= c < n && #[trigger] set_items(sets@[c]).contains(x) ==> distance2(
                        adj,
                        c as usize,
                        x,
                    ),
                forall|a: usize, x: usize|
                    a < i && x != a && #[trigger] reaches(adj, a, x) ==> linked(sets@, a, x),
                forall|x: usize|
                    x != i && #[trigger] reaches_before(adj, i, p as int, x) ==> linked(sets@, i, x),
            decreases row@.len() - p,
        {
            let j = row[p];
            assert(adj[i as int].contains(j));
            assert(j < n);
            let ghost before = sets@;
            if i != j {
                link(&mut sets, i, j);
            }
            assert forall|x: usize|
                x != i && #[trigger] reaches_before(adj, i, p as int, x) implies linked(sets@, i, x) by {
                assert(linked(before, i, x));
            }
            let next = &adjacency[j];
            assert(next@ == adj[j as int]);
            let mut q: usize = 0;
            while q < next.len()
                invariant
                    q <= next@.len(),
                    p < row@.len(),
                    n == adjacency@.len(),
                    adj == lists_view(adjacency@),
                    adjacency_in_range(adj),
                    row@ == adj[i as int],
                    next@ == adj[j as int],
                    adj[i as int].contains(j),
                    j == adj[i as int][p as int],
                    i < n,
                    j < n,
                    sets@.len() == n,
                    forall|c: int, x: usize|
                        0 <= c < n && #[trigger] set_items(sets@[c]).contains(x) ==> distance2(
                            adj,
                            c as usize,
                            x,
                        ),
                    forall|a: usize, x: usize|
                        a < i && x != a && #[trigger] reaches(adj, a, x) ==> linked(sets@, a, x),
                    forall|x: usize|
                        x != i && #[trigger] reaches_before(adj, i, p as int, x) ==> linked(
                            sets@,
                            i,
                            x,
                        ),
                    i != j ==> linked(sets@, i, j),
                    forall|m: int| 0 <= m < q && next@[m] != i ==> linked(sets@, i, #[trigger] next@[m]),
                decreases next@.len() - q,
            {
                let k = next[q];
                assert(adj[j as int].contains(k));
                let ghost before = sets@;
                if k != i {
                    assert(reaches(adj, i, k));
                    link(&mut sets, i, k);
                }
                assert forall|x: usize|
                    x != i && #[trigger] reaches_before(adj, i, p as int, x) implies linked(
                        sets@,
                        i,
                        x,
                    ) by {
                    assert(linked(before, i, x));
                }
                assert forall|a: usize, x: usize|
                    a < i && x != a && #[trigger] reaches(adj, a, x) implies linked(sets@, a, x) by {
                    assert(linked(before, a, x));
                }
                assert forall|m: int| 0 <= m < q + 1 && next@[m] != i implies linked(
                    sets@,
                    i,
                    #[trigger] next@[m],
                ) by {
                    if m < q {
                        assert(linked(before, i, next@[m]));
                    }
                }
                if i != j {
                    assert(linked(before, i, j));
                }
                q = q + 1;
            }
            assert forall|x: usize|
                x != i && #[trigger] reaches_before(adj, i, p + 1, x) implies linked(sets@, i, x) by {
                let q = choose|q: int| 0 <= q < p + 1 && #[trigger] step_reaches(adj, adj[i as int][q], x);
                if q == p && x == j {
                    assert(linked(sets@, i, j));
                } else if q == p {
                    assert(adj[j as int].contains(x));
                    let m = choose|m: int| 0 <= m < next@.len() && next@[m] == x;
                    assert(next@[m] != i);
                } else if q < p {
                    assert(reaches_before(adj, i, p as int, x));
                }
            }
            p = p + 1;
        }
        assert forall|a: usize, x: usize|
            a < i + 1 && x != a && #[trigger] reaches(adj, a, x) implies linked(sets@, a, x) by {
            if a == i {
                lemma_reaches_before_all(adj, a, x);
            }
        }
    }
    let mut out: Vec<Vec<usize>> = Vec::new();
    for a in 0..n
        invariant
            n == adjacency@.len(),
            sets@.len() == n,
            out@.len() == a,
            forall|c: int| 0 <= c < a ==> strictly_increasing(#[trigger] out@[c]@),
            forall|c: int, x: usize|
                0 <= c < a ==> (#[trigger] out@[c]@.contains(x) <==> set_items(sets@[c]).contains(x)),
    {
        let listed = set_to_vec(&sets[a]);
        out.push(sorted_distinct(listed));
    }
    assert forall|a: usize, b: usize|
        (a as int) < n implies (#[trigger] out@[a as int]@.contains(b) <==> distance2(adj, a, b)) by {
        if distance2(adj, a, b) {
            if reaches(adj, a, b) {
            } else {
                assert(linked(sets@, b, a));
            }
        }
    }
    out
}

} // verus!
