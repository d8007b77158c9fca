use fibonacci_seq::fibonacci::{generate, generate_fibonacci_vector};

#[test]
fn test_fibonacci_generation() {
    let result = generate_fibonacci_vector(10);
    let expected = vec![0, 1, 1, 2, 3, 5, 8, 13, 21, 34];
    assert_eq!(result, expected);
}

#[test]
fn test_empty_sequence() {
    let result = generate_fibonacci_vector(0);
    assert_eq!(result.len(), 0);
}

#[test]
fn test_single_number() {
    let result = generate_fibonacci_vector(1);
    assert_eq!(result, vec![0]);
}

#[test]
fn listing_has_requested_length() {
    for n in 0..=120u32 {
        assert_eq!(generate(n).len(), n as usize);
        assert_eq!(generate_fibonacci_vector(n).len(), n as usize);
    }
}

#[test]
fn listing_of_zero_is_empty() {
    assert_eq!(generate(0), Vec::<(u32, u64)>::new());
}

#[test]
fn listing_of_one_is_first_term() {
    assert_eq!(generate(1), vec![(0, 0)]);
}

#[test]
fn listing_of_ten() {
    assert_eq!(
        generate(10),
        vec![(0, 0), (1, 1), (2, 1), (3, 2), (4, 3), (5, 5), (6, 8), (7, 13), (8, 21), (9, 34)]
    );
}

#[test]
fn consecutive_terms_sum_to_next() {
    let terms = generate(94);
    for i in 0..92 {
        assert_eq!(terms[i].1 + terms[i + 1].1, terms[i + 2].1);
    }
}

#[test]
fn largest_term_that_fits() {
    let terms = generate(94);
    assert_eq!(terms[93], (93, 12200160415121876738));
}

#[test]
fn terms_past_u64_wrap_around() {
    let terms = generate(100);
    for i in 0..98 {
        assert_eq!(terms[i].1.wrapping_add(terms[i + 1].1), terms[i + 2].1);
    }
    // F(94) = 19740274219868223167, reduced modulo 2^64.
    assert_eq!(terms[94].1, 1293530146158671551);
}

#[test]
fn generating_twice_gives_same_listing() {
    assert_eq!(generate(60), generate(60));
    assert_eq!(generate_fibonacci_vector(60), generate_fibonacci_vector(60));
}

#[test]
fn both_paths_agree() {
    let values: Vec<u64> = generate(40).into_iter().map(|p| p.1).collect();
    assert_eq!(values, generate_fibonacci_vector(40));
}
