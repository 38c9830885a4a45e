use slime_finder::chunk::is_slime_chunk;

#[test]
fn test_is_slime_chunk() {
    assert!(is_slime_chunk(12345, 4, -3));
    assert!(is_slime_chunk(12345, 5, -3));
    assert!(is_slime_chunk(12345, 6, -2));
    assert!(!is_slime_chunk(12345, 6, -3));

    // further value, overflow test
    assert!(is_slime_chunk(12345, 3828, -3238));
    assert!(is_slime_chunk(12345, 15190, -14816));
    assert!(!is_slime_chunk(12345, 15190, -14817));

    assert!(is_slime_chunk(8011883210394390920, -2, 1));
    assert!(is_slime_chunk(8011883210394390920, -1, 0));
    assert!(!is_slime_chunk(8011883210394390920, 0, 0));
}

#[test]
fn slime_chunk_is_deterministic() {
    for x in -20..20 {
        for z in -20..20 {
            let a = is_slime_chunk(12345, x, z);
            let b = is_slime_chunk(12345, x, z);
            assert_eq!(a, b);
        }
    }
}

#[test]
fn slime_chunk_extreme_coordinates_do_not_panic() {
    let _ = is_slime_chunk(i64::MAX, i32::MAX, i32::MIN);
    let _ = is_slime_chunk(i64::MIN, i32::MIN, i32::MAX);
}

#[test]
fn slime_chunk_density_is_about_one_in_ten() {
    let mut count = 0;
    for x in 0..100 {
        for z in 0..100 {
            if is_slime_chunk(12345, x, z) {
                count += 1;
            }
        }
    }
    assert!(count > 700 && count < 1300, "count {}", count);
}
