use bustools_cli::record::Record;
use bustools_cli::run::{build_run, merge_chunks};
use bustools_cli::sort::{merge_sorted_sources, sort_chunked};

fn rec(cb: u64, umi: u64, ec: u32, count: u32) -> Record {
    Record { cb, umi, ec, count, flag: 0 }
}

#[test]
fn test_merge_sorted_aggregated() {
    // the two lists that two runs hold of one coarse key
    let input = vec![
        vec![rec(0, 1, 0, 1), rec(0, 0, 1, 1)],
        vec![rec(0, 0, 0, 1), rec(0, 1, 0, 1)],
    ];
    let merged_records = merge_chunks(&input);
    assert_eq!(merged_records, vec![rec(0, 0, 0, 1), rec(0, 0, 1, 1), rec(0, 1, 0, 2)]);
}

#[test]
fn test_sort_in_memory() {
    let r1 = rec(0, 1, 0, 12);
    let r2 = rec(0, 1, 1, 2);
    let r3 = rec(0, 2, 0, 12);
    let r4 = rec(1, 1, 1, 2);
    let r5 = rec(1, 2, 1, 2);
    let r6 = rec(2, 1, 1, 2);
    let unsorted_records = vec![r6, r4, r1, r2, r5, r3];
    let v = build_run(&unsorted_records);
    assert_eq!(v, vec![r1, r2, r3, r4, r5, r6]);
}

#[test]
fn test_sort_on_disk() {
    // chunksize 2 splits records of one coarse key over chunks on purpose
    let r1 = rec(0, 1, 0, 12);
    let r2 = rec(0, 1, 1, 2);
    let r3 = rec(0, 2, 0, 12);
    let r4 = rec(1, 1, 1, 2);
    let r5 = rec(1, 2, 1, 2);
    let r6 = rec(2, 1, 1, 2);
    let r7 = rec(2, 1, 0, 2);
    let unsorted_records = vec![r6, r4, r1, r7, r5, r3, r2];
    let out = sort_chunked(&unsorted_records, 2);
    assert_eq!(out.len(), 7);
    assert_eq!(out, vec![r1, r2, r3, r4, r5, r7, r6]);
}

#[test]
fn test_simple() {
    let v = vec![rec(1, 0, 0, 1), rec(0, 0, 0, 1), rec(0, 1, 0, 1)];
    let sorted_set = build_run(&v);
    assert_eq!(sorted_set.len(), 3);
    let umis: Vec<u64> = sorted_set.iter().map(|r| r.umi).collect();
    assert_eq!(umis, vec![0, 1, 0]);
}

#[test]
fn test_ec_sorted() {
    let v = vec![rec(0, 0, 100, 1), rec(0, 0, 10, 1), rec(0, 0, 1, 1)];
    let sorted_set = build_run(&v);
    assert_eq!(sorted_set.len(), 3);
    let ecs: Vec<u32> = sorted_set.iter().map(|r| r.ec).collect();
    assert_eq!(ecs, vec![1, 10, 100]);
}

#[test]
fn sort_test_merge() {
    let v = vec![rec(0, 0, 0, 1), rec(0, 0, 0, 1), rec(0, 0, 0, 1)];
    let sorted_set = build_run(&v);
    assert_eq!(sorted_set.len(), 1);
    let counts: Vec<u32> = sorted_set.iter().map(|r| r.count).collect();
    assert_eq!(counts, vec![3]);
}

#[test]
fn test_concat() {
    let r1 = rec(0, 1, 0, 12);
    let r2 = rec(0, 1, 1, 2);
    let r3 = rec(0, 1, 1, 1); // aggregated with r2
    let r4 = rec(1, 0, 0, 1); // aggregated with s1
    let r5 = rec(2, 0, 0, 1); // not aggregated with s2: other ec
    let s1 = rec(1, 0, 0, 2);
    let s2 = rec(2, 0, 1, 2);
    let files = vec![vec![r1, r2, r3, r4, r5], vec![s1, s2]];
    let out = merge_sorted_sources(&files);
    let exp = vec![r1, rec(0, 1, 1, 3), rec(1, 0, 0, 3), r5, s2];
    assert_eq!(exp, out);
}

#[test]
fn run_builder_is_idempotent() {
    let v = vec![rec(3, 1, 2, 4), rec(0, 5, 1, 1), rec(3, 1, 2, 6), rec(0, 5, 0, 2)];
    let once = build_run(&v);
    let twice = build_run(&once);
    assert_eq!(once, twice);
    assert_eq!(once, vec![rec(0, 5, 0, 2), rec(0, 5, 1, 1), rec(3, 1, 2, 10)]);
}

#[test]
fn chunked_sort_matches_whole_for_every_chunk_size() {
    let mut v = Vec::new();
    for i in 0..40u64 {
        v.push(rec((i * 7) % 5, (i * 3) % 4, (i % 3) as u32, 1 + (i % 2) as u32));
    }
    let whole = build_run(&v);
    for chunk in 1..12usize {
        assert_eq!(sort_chunked(&v, chunk), whole);
    }
    assert_eq!(sort_chunked(&v, 1000), whole);
}

#[test]
fn chunked_sort_scenario_with_duplicates() {
    // keys (2,1),(0,1),(0,2),(1,1) and a duplicate of (0,1) with chunk size 2
    let v = vec![rec(2, 1, 0, 1), rec(0, 1, 0, 2), rec(0, 2, 0, 1), rec(1, 1, 0, 1), rec(0, 1, 0, 3)];
    let out = sort_chunked(&v, 2);
    assert_eq!(out, build_run(&v));
    assert_eq!(out, vec![rec(0, 1, 0, 5), rec(0, 2, 0, 1), rec(1, 1, 0, 1), rec(2, 1, 0, 1)]);
}

#[test]
fn chunked_sort_output_is_strictly_ascending() {
    let mut v = Vec::new();
    for i in 0..100u64 {
        v.push(Record { cb: (i * 13) % 7, umi: (i * 5) % 3, ec: (i % 4) as u32, count: 1, flag: (i % 2) as u32 });
    }
    let out = sort_chunked(&v, 9);
    for w in out.windows(2) {
        let a = (w[0].cb, w[0].umi, w[0].ec, w[0].flag);
        let b = (w[1].cb, w[1].umi, w[1].ec, w[1].flag);
        assert!(a < b);
    }
    let total: u32 = out.iter().map(|r| r.count).sum();
    assert_eq!(total, 100);
}

#[test]
fn empty_input_sorts_to_empty() {
    let v: Vec<Record> = Vec::new();
    assert_eq!(build_run(&v), Vec::<Record>::new());
    assert_eq!(sort_chunked(&v, 3), Vec::<Record>::new());
}

#[test]
fn create_dummy() {}

/// A small deterministic generator standing in for random draws.
fn next_draw(state: &mut u64) -> u64 {
    *state = state.wrapping_mul(6364136223846793005).wrapping_add(1442695040888963407);
    (*state >> 33) % 10000
}

#[test]
fn test_random_file_sort() {
    let n_records = 10_000;
    let chunksize = 1_000;
    let mut state: u64 = 3;
    let mut v = Vec::new();
    for _ in 0..n_records {
        let cb = next_draw(&mut state);
        let umi = next_draw(&mut state);
        v.push(Record { cb, umi, ec: 0, count: 1, flag: 0 });
    }
    let sorted = sort_chunked(&v, chunksize);
    // grouped by (cb, umi) in ascending order, the groups hold every record
    for w in sorted.windows(2) {
        assert!((w[0].cb, w[0].umi) <= (w[1].cb, w[1].umi));
    }
    let n: usize = sorted.len();
    assert_eq!(n, n_records)
}
