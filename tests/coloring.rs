use tatva_coloring::{
    build_adjacency, check_csr, distance2_adjacency, distance2_color_and_seeds, greedy_color,
    seeds_from_colors, sorted_distinct, ArgumentProblem, ColoringError,
};

fn tridiagonal(n: usize) -> (Vec<i64>, Vec<i64>) {
    let mut row_ptr = vec![0i64];
    let mut col_idx = Vec::new();
    for i in 0..n as i64 {
        for j in (i - 1)..=(i + 1) {
            if j >= 0 && j < n as i64 {
                col_idx.push(j);
            }
        }
        row_ptr.push(col_idx.len() as i64);
    }
    (row_ptr, col_idx)
}

fn is_distance2(adj: &[Vec<usize>], a: usize, b: usize) -> bool {
    let reaches = |x: usize, y: usize| {
        adj[x].contains(&y) || adj[x].iter().any(|&j| adj[j].contains(&y))
    };
    a != b && (reaches(a, b) || reaches(b, a))
}

#[test]
fn empty_input_gives_no_colors_and_no_seeds() {
    let (colors, seeds) = distance2_color_and_seeds(&vec![0], &vec![], 0).unwrap();
    assert!(colors.is_empty());
    assert!(seeds.is_empty());
}

#[test]
fn diagonal_pattern_uses_one_color() {
    let (colors, seeds) = distance2_color_and_seeds(&vec![0, 1, 2, 3], &vec![0, 1, 2], 3).unwrap();
    assert_eq!(colors, vec![0, 0, 0]);
    assert_eq!(seeds, vec![vec![1, 1, 1]]);
}

#[test]
fn short_row_ptr_is_invalid() {
    let r = distance2_color_and_seeds(&vec![0, 1, 2], &vec![0, 1, 2], 3);
    assert_eq!(r, Err(ColoringError::InvalidArgument(ArgumentProblem::RowPtrLength)));
}

#[test]
fn long_row_ptr_is_invalid() {
    let r = distance2_color_and_seeds(&vec![0, 0, 0], &vec![], 1);
    assert_eq!(r, Err(ColoringError::InvalidArgument(ArgumentProblem::RowPtrLength)));
}

#[test]
fn decreasing_offsets_are_invalid() {
    let r = distance2_color_and_seeds(&vec![0, 2, 1], &vec![0, 1], 2);
    assert_eq!(r, Err(ColoringError::InvalidArgument(ArgumentProblem::RowOffsets)));
}

#[test]
fn offsets_past_col_idx_are_invalid() {
    let r = check_csr(&vec![0, 1, 3], &vec![0, 1], 2);
    assert_eq!(r, Err(ColoringError::InvalidArgument(ArgumentProblem::RowOffsets)));
}

#[test]
fn negative_offset_is_invalid() {
    let r = check_csr(&vec![-1, 1], &vec![0], 1);
    assert_eq!(r, Err(ColoringError::InvalidArgument(ArgumentProblem::RowOffsets)));
}

#[test]
fn column_out_of_range_is_invalid() {
    let r = distance2_color_and_seeds(&vec![0, 1, 2], &vec![0, 2], 2);
    assert_eq!(r, Err(ColoringError::InvalidArgument(ArgumentProblem::ColumnIndex)));
}

#[test]
fn negative_column_is_invalid() {
    let r = distance2_color_and_seeds(&vec![0, 1], &vec![-1], 1);
    assert_eq!(r, Err(ColoringError::InvalidArgument(ArgumentProblem::ColumnIndex)));
}

#[test]
fn asymmetric_pattern_is_symmetrized() {
    let adjacency = build_adjacency(&vec![0, 1, 1], &vec![1], 2).unwrap();
    assert_eq!(adjacency, vec![vec![1], vec![]]);
    assert_eq!(distance2_adjacency(&adjacency), vec![vec![1], vec![0]]);
    let (colors, seeds) = distance2_color_and_seeds(&vec![0, 1, 1], &vec![1], 2).unwrap();
    assert_ne!(colors[0], colors[1]);
    assert_eq!(colors, vec![0, 1]);
    assert_eq!(seeds, vec![vec![1, 0], vec![0, 1]]);
}

#[test]
fn adjacency_keeps_row_order_and_duplicates() {
    let adjacency = build_adjacency(&vec![0, 3, 4, 4], &vec![2, 0, 2, 1], 3).unwrap();
    assert_eq!(adjacency, vec![vec![2, 0, 2], vec![1], vec![]]);
}

#[test]
fn distance2_lists_are_sorted_and_deduplicated() {
    let adjacency = vec![vec![1, 1, 0], vec![2], vec![]];
    let adj2 = distance2_adjacency(&adjacency);
    assert_eq!(adj2, vec![vec![1, 2], vec![0, 2], vec![0, 1]]);
}

#[test]
fn distance2_reaches_two_hops_only() {
    // a path 0 - 1 - 2 - 3 stored in one direction
    let adjacency = vec![vec![1], vec![2], vec![3], vec![]];
    let adj2 = distance2_adjacency(&adjacency);
    assert_eq!(adj2, vec![vec![1, 2], vec![0, 2, 3], vec![0, 1, 3], vec![1, 2]]);
}

#[test]
fn tridiagonal_coloring() {
    let (row_ptr, col_idx) = tridiagonal(5);
    let (colors, seeds) = distance2_color_and_seeds(&row_ptr, &col_idx, 5).unwrap();
    assert_eq!(colors, vec![0, 1, 2, 0, 1]);
    assert_eq!(
        seeds,
        vec![vec![1, 0, 0, 1, 0], vec![0, 1, 0, 0, 1], vec![0, 0, 1, 0, 0]]
    );
}

#[test]
fn greedy_takes_smallest_free_color() {
    let adjacency = vec![vec![1, 2], vec![0], vec![0], vec![0, 1, 2]];
    assert_eq!(greedy_color(&adjacency), vec![0, 1, 1, 2]);
}

#[test]
fn greedy_ignores_higher_and_self_neighbours() {
    let adjacency = vec![vec![0, 1], vec![1]];
    assert_eq!(greedy_color(&adjacency), vec![0, 0]);
}

#[test]
fn seeds_for_gapped_colors_include_empty_vector() {
    let seeds = seeds_from_colors(&vec![1, 1]);
    assert_eq!(seeds, vec![vec![0, 0], vec![1, 1]]);
}

#[test]
fn seeds_of_empty_coloring() {
    assert!(seeds_from_colors(&vec![]).is_empty());
}

#[test]
fn sorted_distinct_orders_values() {
    assert_eq!(sorted_distinct(vec![5, 1, 3, 0]), vec![0, 1, 3, 5]);
}

fn scattered_pattern() -> (Vec<i64>, Vec<i64>, usize) {
    let n = 12usize;
    let mut row_ptr = vec![0i64];
    let mut col_idx = Vec::new();
    for i in 0..n {
        col_idx.push(((i * 7 + 3) % n) as i64);
        if i % 3 == 0 {
            col_idx.push(((i * 5 + 1) % n) as i64);
        }
        row_ptr.push(col_idx.len() as i64);
    }
    (row_ptr, col_idx, n)
}

#[test]
fn coloring_is_proper_on_distance2_pairs() {
    let (row_ptr, col_idx, n) = scattered_pattern();
    let adjacency = build_adjacency(&row_ptr, &col_idx, n).unwrap();
    let (colors, _) = distance2_color_and_seeds(&row_ptr, &col_idx, n).unwrap();
    for a in 0..n {
        for b in 0..n {
            if is_distance2(&adjacency, a, b) {
                assert_ne!(colors[a], colors[b]);
            }
        }
    }
}

#[test]
fn colors_are_contiguous() {
    let (row_ptr, col_idx, n) = scattered_pattern();
    let (colors, seeds) = distance2_color_and_seeds(&row_ptr, &col_idx, n).unwrap();
    let max = *colors.iter().max().unwrap();
    for c in 0..=max {
        assert!(colors.contains(&c));
    }
    assert_eq!(seeds.len(), max + 1);
}

#[test]
fn seeds_partition_the_dofs() {
    let (row_ptr, col_idx, n) = scattered_pattern();
    let (colors, seeds) = distance2_color_and_seeds(&row_ptr, &col_idx, n).unwrap();
    for idx in 0..n {
        let ones: Vec<usize> = (0..seeds.len()).filter(|&c| seeds[c][idx] == 1).collect();
        assert_eq!(ones, vec![colors[idx]]);
        for seed in &seeds {
            assert!(seed[idx] == 0 || seed[idx] == 1);
        }
    }
}

#[test]
fn repeated_calls_agree() {
    let (row_ptr, col_idx, n) = scattered_pattern();
    let first = distance2_color_and_seeds(&row_ptr, &col_idx, n).unwrap();
    let second = distance2_color_and_seeds(&row_ptr, &col_idx, n).unwrap();
    assert_eq!(first, second);
}
