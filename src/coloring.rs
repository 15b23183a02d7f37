//! The entry point: pattern in, colouring and seed vectors out.
use crate::csr::{
    build_adjacency, csr_adjacency, csr_problem, lemma_csr_adjacency_in_range,
    lists_view, ColoringError,
};
use crate::distance2::{distance2, distance2_adjacency, lemma_increasing_len};
use crate::greedy::{
    color_used, greedy_color, is_greedy, lemma_greedy_contiguous, lemma_greedy_proper,
    lemma_greedy_same_relation, lemma_greedy_unique, listed,
};
use crate::seeds::{seeds_from_colors, seeds_of, seeds_view};
use vstd::prelude::*;

verus! {

/// The distance-2 neighbour relation of a 1-hop adjacency.
pub open spec fn d2_relation(adj: Seq<Seq<usize>>) -> spec_fn(usize, usize) -> bool {
    |a: usize, b: usize| distance2(adj, a, b)
}

/// `colors` is the greedy distance-2 colouring of `adj` and `seeds` its seed vectors.
pub open spec fn coloring_of(adj: Seq<Seq<usize>>, colors: Seq<usize>, seeds: Seq<Seq<u8>>) -> bool {
    &&& is_greedy(d2_relation(adj), colors, adj.len())
    &&& seeds_of(colors, seeds)
}

/// No two distance-2 neighbours share a colour.
pub proof fn lemma_coloring_proper(adj: Seq<Seq<usize>>, colors: Seq<usize>, seeds: Seq<Seq<u8>>)
    requires
        coloring_of(adj, colors, seeds),
    ensures
        forall|a: usize, b: usize|
            (a as int) < adj.len() && (b as int) < adj.len() && #[trigger] distance2(adj, a, b)
                ==> colors[a as int] != colors[b as int],
{
    let nbr = d2_relation(adj);
    assert forall|a: usize, b: usize|
        (a as int) < adj.len() && (b as int) < adj.len() && #[trigger] nbr(a, b) implies nbr(b, a) by {}
    lemma_greedy_proper(nbr, colors, adj.len());
    assert forall|a: usize, b: usize|
        (a as int) < adj.len() && (b as int) < adj.len() && #[trigger] distance2(adj, a, b)
        implies colors[a as int] != colors[b as int] by {
        assert(nbr(a, b));
    }
}

/// The colours in use are exactly `0..=max`: every colour up to one in use is in use.
pub proof fn lemma_coloring_contiguous(adj: Seq<Seq<usize>>, colors: Seq<usize>, seeds: Seq<Seq<u8>>)
    requires
        coloring_of(adj, colors, seeds),
    ensures
        forall|i: int, c: usize|
            #![trigger colors[i], color_used(colors, c)]
            0 <= i < colors.len() && c <= colors[i] ==> color_used(colors, c),
{
    lemma_greedy_contiguous(d2_relation(adj), colors, adj.len());
}

/// The colouring and the seeds are determined by the adjacency alone.
pub proof fn lemma_coloring_deterministic(
    adj: Seq<Seq<usize>>,
    colors1: Seq<usize>,
    seeds1: Seq<Seq<u8>>,
    colors2: Seq<usize>,
    seeds2: Seq<Seq<u8>>,
)
    requires
        coloring_of(adj, colors1, seeds1),
        coloring_of(adj, colors2, seeds2),
    ensures
        colors1 == colors2,
        seeds1 == seeds2,
{
    lemma_greedy_unique(d2_relation(adj), colors1, colors2, adj.len());
    if colors1.len() > 0 {
        let i = choose|i: int| 0 <= i < colors1.len() && #[trigger] colors1[i] as int + 1 == seeds1.len();
        let k = choose|k: int| 0 <= k < colors2.len() && #[trigger] colors2[k] as int + 1 == seeds2.len();
        assert(colors1[k] < seeds1.len());
        assert(colors2[i] < seeds2.len());
    }
    assert forall|c: int| 0 <= c < seeds1.len() implies #[trigger] seeds1[c] == seeds2[c] by {
        assert(seeds1[c] =~= seeds2[c]);
    }
    assert(seeds1 =~= seeds2);
}

/// Checks the pattern, colours its distance-2 graph greedily in ascending DOF
/// order, and returns the colour of each DOF with one 0/1 seed vector per colour.
pub fn distance2_color_and_seeds(row_ptr: &Vec<i64>, col_idx: &Vec<i64>, n_dofs: usize) -> (r: Result<
    (Vec<usize>, Vec<Vec<u8>>),
    ColoringError,
>)
    ensures
        match csr_problem(row_ptr@, col_idx@, n_dofs as nat) {
            Some(p) => r == Err::<(Vec<usize>, Vec<Vec<u8>>), ColoringError>(
                ColoringError::InvalidArgument(p),
            ),
            None => r is Ok && coloring_of(
                csr_adjacency(row_ptr@, col_idx@, n_dofs as nat),
                r->Ok_0.0@,
                seeds_view(r->Ok_0.1@),
            ),
        },
        r is Ok ==> forall|a: usize, b: usize|
            a < n_dofs && b < n_dofs && #[trigger] distance2(
                csr_adjacency(row_ptr@, col_idx@, n_dofs as nat),
                a,
                b,
            ) ==> r->Ok_0.0@[a as int] != r->Ok_0.0@[b as int],
{
    let adjacency = match build_adjacency(row_ptr, col_idx, n_dofs) {
        Ok(a) => a,
        Err(e) => {
            return Err(e);
        },
    };
    let ghost adj = csr_adjacency(row_ptr@, col_idx@, n_dofs as nat);
    proof {
        lemma_csr_adjacency_in_range(row_ptr@, col_idx@, n_dofs as nat);
    }
    let adjacency2 = distance2_adjacency(&adjacency);
    let colors = greedy_color(&adjacency2);
    let ghost n = adjacency@.len();
    proof {
        let listed2 = listed(lists_view(adjacency2@));
        assert forall|a: usize, b: usize| (a as int) < n implies (#[trigger] listed2(a, b)
            <==> #[trigger] d2_relation(adj)(a, b)) by {
            assert(lists_view(adjacency2@)[a as int] == adjacency2@[a as int]@);
        }
        lemma_greedy_same_relation(listed2, d2_relation(adj), colors@, n);
        assert(lists_view(adjacency@).len() == adjacency@.len());
        assert forall|i: int| 0 <= i < colors@.len() implies #[trigger] colors@[i] < usize::MAX by {
            let row = adjacency2@[i]@;
            assert forall|k: int| 0 <= k < row.len() implies (#[trigger] row[k] as int) < n by {
                assert(row.contains(row[k]));
                assert(adjacency2@[i as int]@.contains(row[k]));
            }
            lemma_increasing_len(row, n as int);
        }
    }
    let seeds = seeds_from_colors(&colors);
    proof {
        lemma_coloring_proper(adj, colors@, seeds_view(seeds@));
    }
    Ok((colors, seeds))
}

} // verus!
