use events_analyser::spectra::counts_by_bin;

#[test]
fn counts_regrouped_by_bin() {
    let histograms = vec![vec![1u32, 2, 3], vec![4, 5, 6]];
    assert_eq!(counts_by_bin(&histograms, 3), vec![vec![1, 4], vec![2, 5], vec![3, 6]]);
}

#[test]
fn counts_by_bin_takes_the_first_bins_only() {
    let histograms = vec![vec![1u32, 2, 3], vec![4, 5]];
    assert_eq!(counts_by_bin(&histograms, 2), vec![vec![1, 4], vec![2, 5]]);
}

#[test]
fn counts_by_bin_of_no_histograms() {
    let histograms: Vec<Vec<u32>> = vec![];
    assert_eq!(counts_by_bin(&histograms, 2), vec![Vec::<u32>::new(), Vec::new()]);
    assert!(counts_by_bin(&histograms, 0).is_empty());
}
