use quill::lcs;

fn eq_u32(a: &u32, b: &u32) -> bool {
    a == b
}

#[test]
fn earliest_of_equal_runs_wins() {
    let a = vec!['x', 'y', 'x', 'y'];
    let b = vec!['x', 'y'];
    assert_eq!(lcs(&a, &b, |p: &char, q: &char| p == q), (0, 0, 2));
}

#[test]
fn matcher_is_deterministic() {
    let a: Vec<u32> = vec![4, 1, 2, 9, 1, 2, 3];
    let b: Vec<u32> = vec![1, 2, 3, 1, 2];
    let first = lcs(&a, &b, eq_u32);
    let second = lcs(&a, &b, eq_u32);
    assert_eq!(first, second);
    assert_eq!(first, (4, 0, 3));
}

#[test]
fn longest_run_found_anywhere() {
    let a: Vec<u32> = vec![1, 2, 3, 4, 5];
    let b: Vec<u32> = vec![9, 3, 4, 5, 8];
    assert_eq!(lcs(&a, &b, eq_u32), (2, 1, 3));
}

#[test]
fn tie_on_first_side_goes_to_earliest_second_side() {
    let a: Vec<u32> = vec![7, 1];
    let b: Vec<u32> = vec![1, 5, 1];
    assert_eq!(lcs(&a, &b, eq_u32), (1, 0, 1));
}

#[test]
fn empty_sides_give_zero_run() {
    let a: Vec<u32> = vec![];
    let b: Vec<u32> = vec![1, 2];
    assert_eq!(lcs(&a, &b, eq_u32), (0, 0, 0));
    assert_eq!(lcs(&b, &a, eq_u32), (0, 0, 0));
}

#[test]
fn no_match_gives_zero_run() {
    let a: Vec<u32> = vec![1, 2, 3];
    let b: Vec<u32> = vec![4, 5];
    assert_eq!(lcs(&a, &b, eq_u32), (0, 0, 0));
}

#[test]
fn custom_predicate_across_types() {
    let a: Vec<u32> = vec![10, 20, 30];
    let b: Vec<&str> = vec!["20", "30", "40"];
    let r = lcs(&a, &b, |x: &u32, y: &&str| x.to_string() == *y);
    assert_eq!(r, (1, 0, 2));
}

#[test]
fn whole_sequences_equal() {
    let a: Vec<u32> = vec![3, 3, 3];
    assert_eq!(lcs(&a, &a, eq_u32), (0, 0, 3));
}
