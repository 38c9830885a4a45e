use slime_finder::chunk::is_slime_chunk;
use slime_finder::offsets::generate_in_despawn_range_offsets;
use slime_finder::search::{best_candidate, count_slime_chunks, rank_candidates, search, slime_chunks_around};
use slime_finder::spiral::generate_spiral;

#[test]
fn search_matches_brute_force() {
    let seed = 12345;
    let spiral = generate_spiral(10, 10);
    let offsets = generate_in_despawn_range_offsets(7);
    let ranked = search(seed, &spiral, &offsets);
    assert_eq!(ranked.len(), 100);
    for w in ranked.windows(2) {
        assert!(w[0].1 >= w[1].1);
    }

    let mut brute_best = 0usize;
    let mut brute = Vec::new();
    for x in -4..=5 {
        for z in -4..=5 {
            let mut count = 0usize;
            for &(ox, oz) in &offsets {
                if is_slime_chunk(seed, x + ox, z + oz) {
                    count += 1;
                }
            }
            brute_best = brute_best.max(count);
            brute.push(((x, z), count));
        }
    }
    let best = best_candidate(&ranked).unwrap();
    assert_eq!(best.1, brute_best);
    assert!(brute.contains(&best));
    let mut a = ranked.clone();
    a.sort();
    brute.sort();
    assert_eq!(a, brute);

    let found = slime_chunks_around(seed, best.0, &offsets);
    assert_eq!(found.len(), best.1);
    for &(x, z) in &found {
        assert!(is_slime_chunk(seed, x, z));
    }
}

#[test]
fn count_matches_known_chunks() {
    let offsets = vec![(0, 0), (1, 0), (2, 1), (2, 0)];
    // (4,-3), (5,-3), (6,-2) are slime chunks of seed 12345, (6,-3) is not.
    assert_eq!(count_slime_chunks(12345, (4, -3), &offsets), 3);
    assert_eq!(slime_chunks_around(12345, (4, -3), &offsets), vec![(4, -3), (5, -3), (6, -2)]);
}

#[test]
fn rank_orders_by_count_descending() {
    let ranked = rank_candidates(vec![((0, 0), 3), ((1, 0), 9), ((2, 0), 1), ((3, 0), 9)]);
    let counts: Vec<usize> = ranked.iter().map(|c| c.1).collect();
    assert_eq!(counts, vec![9, 9, 3, 1]);
    assert_eq!(ranked.len(), 4);
}

#[test]
fn best_candidate_of_empty_is_none() {
    assert_eq!(best_candidate(&vec![]), None);
}

#[test]
fn best_candidate_takes_last_of_equal_maxima() {
    let v = vec![((0, 0), 2), ((1, 1), 5), ((2, 2), 5), ((3, 3), 4)];
    assert_eq!(best_candidate(&v), Some(((2, 2), 5)));
}
