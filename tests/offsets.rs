use slime_finder::offsets::generate_in_despawn_range_offsets;
use std::collections::HashSet;

fn brute_force(radius: i32) -> HashSet<(i32, i32)> {
    let mut set = HashSet::new();
    for (cx, cz) in [(0, 0), (0, -1), (-1, 0), (-1, -1)] {
        for x in -100..100 {
            for z in -100..100 {
                let (a, b) = (x - cx, z - cz);
                if (cx - radius..=cx + radius).contains(&x)
                    && (cz - radius..=cz + radius).contains(&z)
                    && a * a + b * b < radius * radius
                {
                    set.insert((x, z));
                }
            }
        }
    }
    set
}

#[test]
fn offsets_match_brute_force() {
    for radius in [-3, 0, 1, 2, 7, 12] {
        let offsets = generate_in_despawn_range_offsets(radius);
        let set: HashSet<(i32, i32)> = offsets.iter().copied().collect();
        assert_eq!(set.len(), offsets.len());
        assert_eq!(set, brute_force(radius));
    }
}

#[test]
fn offsets_radius_one_are_the_four_centers() {
    let set: HashSet<(i32, i32)> = generate_in_despawn_range_offsets(1).into_iter().collect();
    let expected: HashSet<(i32, i32)> = [(0, 0), (0, -1), (-1, 0), (-1, -1)].into_iter().collect();
    assert_eq!(set, expected);
}

#[test]
fn offsets_symmetry() {
    let set: HashSet<(i32, i32)> = generate_in_despawn_range_offsets(7).into_iter().collect();
    let reflected: HashSet<(i32, i32)> = set.iter().map(|&(x, z)| (-1 - x, -1 - z)).collect();
    assert_eq!(set, reflected);
    let negated: HashSet<(i32, i32)> = set.iter().map(|&(x, z)| (-x, -z)).collect();
    assert_ne!(set, negated);
    assert!(set.contains(&(-7, 0)));
    assert!(!set.contains(&(7, 0)));
}
