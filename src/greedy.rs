//! Greedy colouring in ascending DOF order: each DOF takes the smallest colour
//! that no lower-indexed neighbour holds.
use crate::csr::lists_view;
use crate::hashed::{clear_map, map_entries, map_get, map_has, map_insert, new_count_map};
use vstd::prelude::*;

verus! {

/// Some neighbour of `i` below it holds colour `c`.
pub open spec fn held_below(nbr: spec_fn(usize, usize) -> bool, colors: Seq<usize>, i: int, c: usize) -> bool {
    exists|v: usize| (v as int) < i && #[trigger] nbr(i as usize, v) && colors[v as int] == c
}

/// DOF `i` holds the smallest colour absent from its lower-indexed neighbours
/// under `nbr`: none of them shares its colour, and every smaller colour is
/// held by one of them.
pub open spec fn greedy_at(nbr: spec_fn(usize, usize) -> bool, colors: Seq<usize>, i: int) -> bool {
    &&& forall|v: usize|
        (v as int) < i && #[trigger] nbr(i as usize, v) ==> colors[v as int] != colors[i]
    &&& forall|c: usize| c < colors[i] ==> #[trigger] held_below(nbr, colors, i, c)
}

/// `colors` is the greedy colouring of DOFs `0..n` under `nbr`.
pub open spec fn is_greedy(nbr: spec_fn(usize, usize) -> bool, colors: Seq<usize>, n: nat) -> bool {
    &&& colors.len() == n
    &&& forall|i: int| 0 <= i < n ==> #[trigger] greedy_at(nbr, colors, i)
}

/// The neighbour relation of adjacency lists.
pub open spec fn listed(adj: Seq<Seq<usize>>) -> spec_fn(usize, usize) -> bool {
    |a: usize, b: usize| (a as int) < adj.len() && adj[a as int].contains(b)
}

/// Two greedy colourings of the same DOFs under the same neighbour relation
/// are equal: the colouring depends on its inputs alone.
pub proof fn lemma_greedy_unique(
    nbr: spec_fn(usize, usize) -> bool,
    c1: Seq<usize>,
    c2: Seq<usize>,
    n: nat,
)
    requires
        is_greedy(nbr, c1, n),
        is_greedy(nbr, c2, n),
    ensures
        c1 == c2,
{
    lemma_greedy_prefix_equal(nbr, c1, c2, n, n);
    assert(c1 =~= c2);
}

proof fn lemma_greedy_prefix_equal(
    nbr: spec_fn(usize, usize) -> bool,
    c1: Seq<usize>,
    c2: Seq<usize>,
    n: nat,
    k: nat,
)
    requires
        is_greedy(nbr, c1, n),
        is_greedy(nbr, c2, n),
        k <= n,
    ensures
        forall|i: int| 0 <= i < k ==> c1[i] == c2[i],
    decreases k,
{
    if k > 0 {
        let i = k - 1;
        lemma_greedy_prefix_equal(nbr, c1, c2, n, (k - 1) as nat);
        assert(greedy_at(nbr, c1, i));
        assert(greedy_at(nbr, c2, i));
        if c1[i] < c2[i] {
            assert(held_below(nbr, c2, i, c1[i]));
            let v = choose|v: usize| (v as int) < i && #[trigger] nbr(i as usize, v) && c2[v as int] == c1[i];
            assert(c1[v as int] == c1[i]);
        } else if c2[i] < c1[i] {
            assert(held_below(nbr, c1, i, c2[i]));
            let v = choose|v: usize| (v as int) < i && #[trigger] nbr(i as usize, v) && c1[v as int] == c2[i];
            assert(c2[v as int] == c2[i]);
        }
    }
}

/// Under a symmetric neighbour relation a greedy colouring is proper: no two
/// distinct neighbours share a colour.
pub proof fn lemma_greedy_proper(nbr: spec_fn(usize, usize) -> bool, colors: Seq<usize>, n: nat)
    requires
        is_greedy(nbr, colors, n),
        forall|a: usize, b: usize| (a as int) < n && (b as int) < n && #[trigger] nbr(a, b) ==> nbr(b, a),
    ensures
        forall|a: usize, b: usize|
            (a as int) < n && (b as int) < n && a != b && #[trigger] nbr(a, b) ==> colors[a as int]
                != colors[b as int],
{
    assert forall|a: usize, b: usize|
        (a as int) < n && (b as int) < n && a != b && #[trigger] nbr(a, b) implies colors[a as int]
        != colors[b as int] by {
        if b < a {
            assert(greedy_at(nbr, colors, a as int));
            assert(nbr((a as int) as usize, b));
        } else {
            assert(nbr(b, a));
            assert(greedy_at(nbr, colors, b as int));
            assert(nbr((b as int) as usize, a));
        }
    }
}

/// Some DOF holds colour `c`.
pub open spec fn color_used(colors: Seq<usize>, c: usize) -> bool {
    exists|v: int| 0 <= v < colors.len() && colors[v] == c
}

/// The colours of a greedy colouring leave no gaps: every colour up to one in
/// use is in use.
pub proof fn lemma_greedy_contiguous(nbr: spec_fn(usize, usize) -> bool, colors: Seq<usize>, n: nat)
    requires
        is_greedy(nbr, colors, n),
    ensures
        forall|i: int, c: usize|
            #![trigger colors[i], color_used(colors, c)]
            0 <= i < n && c <= colors[i] ==> color_used(colors, c),
{
    assert forall|i: int, c: usize| 0 <= i < n && c <= #[trigger] colors[i] implies #[trigger] color_used(
        colors,
        c,
    ) by {
        if c < colors[i] {
            assert(greedy_at(nbr, colors, i));
            assert(held_below(nbr, colors, i, c));
            let v = choose|v: usize| (v as int) < i && #[trigger] nbr(i as usize, v) && colors[v as int] == c;
            assert(0 <= v < n && colors[v as int] == c);
        } else {
            assert(colors[i] == c);
        }
    }
}

/// Greedy colourings agree on neighbour relations that agree on `0..n`.
pub proof fn lemma_greedy_same_relation(
    nbr1: spec_fn(usize, usize) -> bool,
    nbr2: spec_fn(usize, usize) -> bool,
    colors: Seq<usize>,
    n: nat,
)
    requires
        is_greedy(nbr1, colors, n),
        forall|a: usize, b: usize|
            #![trigger nbr1(a, b)]
            #![trigger nbr2(a, b)]
            (a as int) < n ==> (nbr1(a, b) <==> nbr2(a, b)),
    ensures
        is_greedy(nbr2, colors, n),
{
    assert forall|i: int| 0 <= i < n implies #[trigger] greedy_at(nbr2, colors, i) by {
        assert(greedy_at(nbr1, colors, i));
        assert forall|v: usize| (v as int) < i && #[trigger] nbr2(i as usize, v) implies colors[v as int]
            != colors[i] by {
            assert(nbr1(i as usize, v));
        }
        assert forall|c: usize| c < colors[i] implies #[trigger] held_below(nbr2, colors, i, c) by {
            assert(held_below(nbr1, colors, i, c));
            let v = choose|v: usize| (v as int) < i && #[trigger] nbr1(i as usize, v) && colors[v as int] == c;
            assert(nbr2(i as usize, v));
        }
    }
}

/// A finite set of indices holding every index below `c` has at least `c` elements.
proof fn lemma_prefix_len(s: Set<usize>, c: nat)
    requires
        s.finite(),
        c <= usize::MAX + 1,
        forall|x: usize| (x as nat) < c ==> s.contains(x),
    ensures
        c <= s.len(),
    decreases c,
{
    if c > 0 {
        let y = (c - 1) as usize;
        assert(s.contains(y));
        lemma_prefix_len(s.remove(y), (c - 1) as nat);
    }
}

/// Colours DOFs `0..n` in ascending order, each with the smallest colour that
/// none of its already coloured (lower-indexed) neighbours holds.
pub fn greedy_color(adjacency: &Vec<Vec<usize>>) -> (r: Vec<usize>)
    ensures
        is_greedy(listed(lists_view(adjacency@)), r@, adjacency@.len()),
        forall|i: int| 0 <= i < r@.len() ==> #[trigger] r@[i] <= adjacency@[i]@.len(),
{
    let ghost adj = lists_view(adjacency@);
    let ghost nbr = listed(adj);
    let n = adjacency.len();
    let mut colors: Vec<usize> = Vec::new();
    let mut used = new_count_map();
    let mut i: usize = 0;
    while i < n
        invariant
            n == adjacency@.len(),
            adj == lists_view(adjacency@),
            nbr == listed(adj),
            i <= n,
            colors@.len() == i,
            forall|k: int| 0 <= k < i ==> #[trigger] greedy_at(nbr, colors@, k),
            forall|k: int| 0 <= k < i ==> #[trigger] colors@[k] <= adjacency@[k]@.len(),
        decreases n - i,
    {
        clear_map(&mut used);
        let row = &adjacency[i];
        assert(row@ == adj[i as int]);
        let mut p: usize = 0;
        while p < row.len()
            invariant
                colors@.len() == i,
                p <= row@.len(),
                map_entries(used).dom().finite(),
                map_entries(used).dom().len() <= p,
                forall|c: usize| #[trigger]
                    map_entries(used).dom().contains(c) ==> map_entries(used)[c] <= p,
                forall|c: usize| #[trigger]
                    map_entries(used).dom().contains(c) <==> exists|m: int|
                        0 <= m < p && row@[m] < i && colors@[row@[m] as int] == c,
            decreases row@.len() - p,
        {
            let nb = row[p];
            let ghost before = map_entries(used);
            if nb < colors.len() {
                let c = colors[nb];
                let count = match map_get(&used, c) {
                    Some(k) => k + 1,
                    None => 1,
                };
                map_insert(&mut used, c, count);
                assert(map_entries(used).dom() == before.dom().insert(c));
            }
            assert forall|c: usize| #[trigger]
                map_entries(used).dom().contains(c) <==> exists|m: int|
                    0 <= m < p + 1 && row@[m] < i && colors@[row@[m] as int] == c by {
                if exists|m: int| 0 <= m < p + 1 && row@[m] < i && colors@[row@[m] as int] == c {
                    let m = choose|m: int| 0 <= m < p + 1 && row@[m] < i && colors@[row@[m] as int] == c;
                    if m < p {
                        assert(before.dom().contains(c));
                    }
                }
            }
            p = p + 1;
        }
        let ghost dom = map_entries(used).dom();
        let row_len = row.len();
        let mut c: usize = 0;
        while map_has(&used, c)
            invariant
                dom == map_entries(used).dom(),
                dom.finite(),
                dom.len() <= row_len,
                forall|x: usize| x < c ==> dom.contains(x),
            decreases dom.len() - c,
        {
            proof {
                lemma_prefix_len(dom, (c + 1) as nat);
            }
            c = c + 1;
        }
        proof {
            lemma_prefix_len(dom, c as nat);
        }
        let ghost before = colors@;
        colors.push(c);
        assert forall|k: int| 0 <= k < i + 1 implies #[trigger] greedy_at(nbr, colors@, k) by {
            if k < i {
                assert(greedy_at(nbr, before, k));
                assert forall|c2: usize| c2 < colors@[k] implies #[trigger] held_below(nbr, colors@, k, c2) by {
                    assert(held_below(nbr, before, k, c2));
                    let v = choose|v: usize|
                        (v as int) < k && #[trigger] nbr(k as usize, v) && before[v as int] == c2;
                    assert(colors@[v as int] == c2);
                }
            } else {
                assert forall|v: usize|
                    (v as int) < k && #[trigger] nbr(k as usize, v) implies colors@[v as int]
                    != colors@[k] by {
                    let m = choose|m: int| 0 <= m < row@.len() && row@[m] == v;
                    assert(dom.contains(colors@[v as int]));
                }
                assert forall|c2: usize| c2 < colors@[k] implies #[trigger] held_below(nbr, colors@, k, c2) by {
                    assert(dom.contains(c2));
                    let m = choose|m: int|
                        0 <= m < row@.len() && row@[m] < i && before[row@[m] as int] == c2;
                    let v = row@[m];
                    assert(adj[i as int].contains(v));
                    assert(nbr(k as usize, v));
                }
            }
        }
        i = i + 1;
    }
    colors
}

} // verus!
