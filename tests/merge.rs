use bustools_cli::merge::{merge_sources, select_min_sources};
use bustools_cli::overlap::overlap_records;
use bustools_cli::record::Record;

fn rec(cb: u64, umi: u64, ec: u32, count: u32) -> Record {
    Record { cb, umi, ec, count, flag: 0 }
}

#[test]
fn busmerger_test_merge() {
    let r1 = rec(0, 21, 0, 2);
    let r2 = rec(1, 2, 0, 12);
    let r3 = rec(1, 3, 0, 2);
    let r4 = rec(3, 0, 0, 2);
    let r5 = rec(3, 0, 1, 2);
    let v1 = vec![r1, r2, r3, r4, r5];
    let s2 = rec(1, 2, 1, 12);
    let s3 = rec(2, 3, 1, 2);
    let s4 = rec(3, 0, 1, 2);
    let v2 = vec![s2, s3, s4];
    let (out1, out2) = overlap_records(&v1, &v2);
    assert_eq!(out1, vec![r2, r4, r5]);
    assert_eq!(out2, vec![s2, s4]);
}

#[test]
fn overlap_keeps_only_shared_keys() {
    let a = vec![rec(0, 1, 0, 1), rec(1, 2, 0, 1), rec(3, 0, 0, 1)];
    let b = vec![rec(1, 2, 5, 7), rec(2, 3, 0, 1), rec(3, 0, 9, 9)];
    let (oa, ob) = overlap_records(&a, &b);
    assert_eq!(oa, vec![rec(1, 2, 0, 1), rec(3, 0, 0, 1)]);
    assert_eq!(ob, vec![rec(1, 2, 5, 7), rec(3, 0, 9, 9)]);
}

#[test]
fn select_min_picks_smallest_head_and_its_sources() {
    let heads = vec![Some((2, 1)), None, Some((1, 5)), Some((1, 5)), Some((1, 6))];
    let (k, idx) = select_min_sources(&heads).unwrap();
    assert_eq!(k, (1, 5));
    assert_eq!(idx, vec![2, 3]);
    let none: Vec<Option<(u64, u64)>> = vec![None, None];
    assert!(select_min_sources(&none).is_none());
    assert!(select_min_sources(&Vec::new()).is_none());
}

#[test]
fn merge_groups_cover_union_of_keys_once() {
    let s0 = vec![rec(0, 0, 0, 1), rec(0, 0, 1, 1), rec(2, 0, 0, 1)];
    let s1 = vec![rec(0, 0, 3, 1), rec(1, 1, 0, 1)];
    let s2 = vec![rec(2, 0, 5, 1), rec(4, 4, 4, 4)];
    let groups = merge_sources(&vec![s0, s1, s2]);
    let keys: Vec<(u64, u64)> = groups.iter().map(|g| (g.cb, g.umi)).collect();
    assert_eq!(keys, vec![(0, 0), (1, 1), (2, 0), (4, 4)]);
    let first: Vec<usize> = groups[0].parts.iter().map(|p| p.source).collect();
    assert_eq!(first, vec![0, 1]);
    assert_eq!(groups[0].parts[0].records, vec![rec(0, 0, 0, 1), rec(0, 0, 1, 1)]);
    let third: Vec<usize> = groups[2].parts.iter().map(|p| p.source).collect();
    assert_eq!(third, vec![0, 2]);
    assert_eq!(groups[3].parts.len(), 1);
    assert_eq!(groups[3].parts[0].source, 2);
}

#[test]
fn merge_of_no_sources_is_empty() {
    let groups = merge_sources(&Vec::new());
    assert!(groups.is_empty());
    let groups = merge_sources(&vec![Vec::new(), Vec::new()]);
    assert!(groups.is_empty());
}
