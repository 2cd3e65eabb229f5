use image_filter::analyzer::{
    compare_sets, exposure_check, group_assignment, group_duplicates, laplacian_sums,
};

#[test]
fn laplacian_of_a_single_interior_pixel() {
    // 3x3 image, centre 10, neighbours 1, 2, 3, 4
    let g = vec![0, 1, 0, 3, 10, 4, 0, 2, 0];
    assert_eq!(laplacian_sums(&g, 3, 3), Some((1, 30)));
}

#[test]
fn laplacian_takes_absolute_values() {
    let g = vec![0, 9, 0, 9, 0, 9, 0, 9, 0];
    assert_eq!(laplacian_sums(&g, 3, 3), Some((1, 36)));
}

#[test]
fn laplacian_of_a_flat_image_is_zero() {
    let g = vec![77u8; 20];
    assert_eq!(laplacian_sums(&g, 5, 4), Some((6, 0)));
}

#[test]
fn laplacian_needs_three_by_three() {
    assert_eq!(laplacian_sums(&[1, 2, 3, 4], 2, 2), None);
    assert_eq!(laplacian_sums(&[1, 2, 3], 3, 1), None);
}

#[test]
fn exposure_thresholds_are_strict() {
    // 20 pixels: 3 bright = 15% (not over), 4 bright = 20% (over)
    let mut g = vec![128u8; 20];
    for p in g.iter_mut().take(3) {
        *p = 255;
    }
    assert_eq!(exposure_check(&g, 5, 4), (false, false));
    g[3] = 251;
    assert_eq!(exposure_check(&g, 5, 4), (true, false));
    let mut d = vec![128u8; 10];
    for p in d.iter_mut().take(3) {
        *p = 4;
    }
    assert_eq!(exposure_check(&d, 10, 1), (false, false));
    d[3] = 0;
    assert_eq!(exposure_check(&d, 10, 1), (false, true));
    assert_eq!(exposure_check(&[250, 5], 2, 1), (false, false));
}

#[test]
fn compare_sets_use_adjacent_size_buckets() {
    let sizes = vec![0, 16383, 16384, 40000, 32768, 100000];
    let sets = compare_sets(&sizes);
    assert_eq!(sets[0], vec![1, 2]);
    assert_eq!(sets[1], vec![2]);
    assert_eq!(sets[2], vec![3, 4]);
    assert_eq!(sets[3], vec![4]);
    assert_eq!(sets[4], Vec::<usize>::new());
    assert_eq!(sets[5], Vec::<usize>::new());
}

#[test]
fn grouping_is_greedy_and_disjoint() {
    let sets = vec![vec![1, 2, 3], vec![2, 3], vec![3], vec![]];
    let sim = vec![vec![true, false, true], vec![true, true], vec![true], vec![]];
    let groups = group_duplicates(&sets, &sim);
    assert_eq!(groups, vec![vec![0, 1, 3]]);
    let a = group_assignment(5, &groups);
    assert_eq!(a, vec![Some(0), Some(0), None, Some(0), None]);
}

#[test]
fn taken_files_are_not_regrouped() {
    let sets = vec![vec![1], vec![2], vec![]];
    let sim = vec![vec![true], vec![true], vec![]];
    let groups = group_duplicates(&sets, &sim);
    assert_eq!(groups, vec![vec![0, 1]]);
    let sets2 = vec![vec![1, 2], vec![2], vec![3], vec![]];
    let sim2 = vec![vec![false, false], vec![true], vec![true], vec![]];
    assert_eq!(group_duplicates(&sets2, &sim2), vec![vec![1, 2]]);
}

#[test]
fn no_similar_pairs_give_no_groups() {
    let sets = vec![vec![1], vec![]];
    let sim = vec![vec![false], vec![]];
    assert!(group_duplicates(&sets, &sim).is_empty());
    assert_eq!(group_assignment(2, &Vec::new()), vec![None, None]);
}
