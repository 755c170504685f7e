use bustools_cli::butterfly::CUHistogram;

#[test]
fn histogram_counts_reads_and_molecules() {
    let mut h = CUHistogram::new();
    assert_eq!(h.get_nreads(), 0);
    assert_eq!(h.get_numis(), 0);
    for n in [12usize, 2, 2, 4] {
        h.add_molecule(n);
    }
    assert_eq!(h.get_numis(), 4);
    assert_eq!(h.get_nreads(), 20);
    let mut e = h.to_entries();
    e.sort();
    assert_eq!(e, vec![(2, 2), (4, 1), (12, 1)]);
}

#[test]
fn testing() {
    // histogram {1: 2, 3: 3}
    let mut h = CUHistogram::new();
    for n in [1usize, 1, 3, 3, 3] {
        h.add_molecule(n);
    }
    assert_eq!(h.get_nreads(), 11);
    assert_eq!(h.get_numis(), 5);
}
