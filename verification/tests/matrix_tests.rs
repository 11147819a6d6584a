use personal_ranker::matrix::sampled_pairs;

#[test]
fn full_matrix_contains_every_unordered_pair_once() {
    let pairs = sampled_pairs(5, 100);
    assert_eq!(pairs.len(), 10);
    assert!(pairs.iter().all(|pair| pair.left < pair.right));
}

#[test]
fn sampled_matrix_unions_each_objects_random_opponents() {
    let pairs = sampled_pairs(10, 50);
    assert!(pairs.len() > 10 * 9 / 4);
    assert!(pairs.len() <= 10 * 9 / 2);
}
