use slime_finder::spiral::generate_spiral;
use std::collections::HashSet;

fn check_cover(w: i32, h: i32) {
    let points = generate_spiral(w, h);
    let set: HashSet<(i32, i32)> = points.iter().copied().collect();
    assert_eq!(set.len(), points.len(), "duplicates for {} {}", w, h);
    let mut expected = HashSet::new();
    for x in (-w / 2 + 1)..=(w / 2) {
        for z in (-h / 2 + 1)..=(h / 2) {
            expected.insert((x, z));
        }
    }
    assert_eq!(set, expected, "cover for {} {}", w, h);
}

#[test]
fn spiral_covers_box_exactly() {
    for w in 0..12 {
        for h in 0..12 {
            check_cover(w, h);
        }
    }
    check_cover(10, 10);
    check_cover(51, 20);
}

#[test]
fn spiral_starts_at_origin_and_goes_outward() {
    let points = generate_spiral(4, 4);
    assert_eq!(
        points,
        vec![
            (0, 0),
            (1, 0),
            (1, 1),
            (0, 1),
            (-1, 1),
            (-1, 0),
            (-1, -1),
            (0, -1),
            (1, -1),
            (2, -1),
            (2, 0),
            (2, 1),
            (2, 2),
            (1, 2),
            (0, 2),
            (-1, 2),
        ]
    );
}

#[test]
fn spiral_of_negative_width_is_empty() {
    assert!(generate_spiral(-4, -4).is_empty());
    assert!(generate_spiral(0, 0).is_empty());
    assert!(generate_spiral(-3, 5).is_empty());
}
