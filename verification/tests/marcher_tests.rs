use ray_marching::marcher::choose_paths;

#[test]
fn choose_paths_takes_all_when_not_positive() {
    assert_eq!(choose_paths(4, -1), vec![0, 1, 2, 3]);
    assert_eq!(choose_paths(3, 0), vec![0, 1, 2]);
    assert_eq!(choose_paths(0, -1), Vec::<usize>::new());
}

#[test]
fn choose_paths_picks_distinct_indices() {
    for _ in 0..20 {
        let r = choose_paths(10, 3);
        assert_eq!(r.len(), 3);
        for (i, a) in r.iter().enumerate() {
            assert!(*a < 10);
            for b in &r[i + 1..] {
                assert_ne!(a, b);
            }
        }
    }
}

#[test]
fn choose_paths_takes_all_when_too_few() {
    let mut r = choose_paths(3, 10);
    r.sort();
    assert_eq!(r, vec![0, 1, 2]);
}
