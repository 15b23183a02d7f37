//! Seed vectors: one 0/1 vector per colour, marking the DOFs of that colour.
use vstd::prelude::*;

verus! {

/// The contents of a list of seed vectors.
pub open spec fn seeds_view(v: Seq<Vec<u8>>) -> Seq<Seq<u8>> {
    v.map_values(|s: Vec<u8>| s@)
}

/// The entry of the seed for colour `c` at a DOF of colour `held`.
pub open spec fn seed_entry(held: usize, c: int) -> u8 {
    if held as int == c {
        1
    } else {
        0
    }
}

/// `seeds` holds one vector per colour `0..=max` of `colors` (none when there
/// are no DOFs), each as long as `colors`, with a 1 exactly where the DOF
/// holds that colour.
pub open spec fn seeds_of(colors: Seq<usize>, seeds: Seq<Seq<u8>>) -> bool {
    &&& colors.len() == 0 ==> seeds.len() == 0
    &&& colors.len() > 0 ==> {
        &&& forall|i: int| 0 <= i < colors.len() ==> (#[trigger] colors[i] as int) < seeds.len()
        &&& exists|i: int| 0 <= i < colors.len() && #[trigger] colors[i] as int + 1 == seeds.len()
    }
    &&& forall|c: int| 0 <= c < seeds.len() ==> (#[trigger] seeds[c]).len() == colors.len()
    &&& forall|c: int, i: int|
        0 <= c < seeds.len() && 0 <= i < colors.len() ==> #[trigger] seeds[c][i] == seed_entry(
            colors[i],
            c,
        )
}

/// One seed vector per colour from 0 to the largest colour in use.
pub fn seeds_from_colors(colors: &Vec<usize>) -> (r: Vec<Vec<u8>>)
    requires
        forall|i: int| 0 <= i < colors@.len() ==> #[trigger] colors@[i] < usize::MAX,
    ensures
        seeds_of(colors@, seeds_view(r@)),
{
    let n = colors.len();
    if n == 0 {
        return Vec::new();
    }
    let mut max_color = colors[0];
    let ghost mut at: int = 0;
    let mut i: usize = 1;
    while i < n
        invariant
            n == colors@.len(),
            1 <= i <= n,
            0 <= at < n,
            colors@[at] == max_color,
            forall|k: int| 0 <= k < i ==> #[trigger] colors@[k] <= max_color,
        decreases n - i,
    {
        if colors[i] > max_color {
            max_color = colors[i];
            proof {
                at = i as int;
            }
        }
        i = i + 1;
    }
    let n_colors = max_color + 1;
    let mut seeds: Vec<Vec<u8>> = Vec::new();
    let mut color: usize = 0;
    while color < n_colors
        invariant
            n == colors@.len(),
            seeds@.len() == color,
            color <= n_colors,
            forall|c: int| 0 <= c < color ==> (#[trigger] seeds@[c])@.len() == n,
            forall|c: int, k: int|
                0 <= c < color && 0 <= k < n ==> #[trigger] seeds@[c]@[k] == seed_entry(colors@[k], c),
        decreases n_colors - color,
    {
        let mut seed: Vec<u8> = Vec::new();
        let mut idx: usize = 0;
        while idx < n
            invariant
                n == colors@.len(),
                seed@.len() == idx,
                idx <= n,
                forall|k: int| 0 <= k < idx ==> #[trigger] seed@[k] == seed_entry(colors@[k], color as int),
            decreases n - idx,
        {
            if colors[idx] == color {
                seed.push(1);
            } else {
                seed.push(0);
            }
            idx = idx + 1;
        }
        seeds.push(seed);
        color = color + 1;
    }
    assert(colors@[at] as int + 1 == seeds_view(seeds@).len());
    seeds
}

} // verus!
