use bustools_cli::barcode::{decode_barcodes, my_hamming};
use bustools_cli::correct::{
    build_correct_map, build_whitelist_tree, correct_records, correct_single_cb, fix_record, CorrectionResult,
};
use bustools_cli::record::Record;

#[test]
fn test_correct() {
    let whitelist = vec!["AAAA".to_string(), "BBBB".to_string()];
    let bk = build_whitelist_tree(&whitelist);

    // perfect match
    assert_eq!(correct_single_cb("AAAA".to_string(), &bk), CorrectionResult::SingleHit("AAAA".to_string()));
    // one mismatch
    assert_eq!(correct_single_cb("AAAB".to_string(), &bk), CorrectionResult::SingleHit("AAAA".to_string()));
    // too far away
    assert_eq!(correct_single_cb("BBAA".to_string(), &bk), CorrectionResult::NoHit);

    let whitelist = vec!["AAAA".to_string(), "AABB".to_string()];
    let bk = build_whitelist_tree(&whitelist);
    // two hits, not clear which one
    assert_eq!(
        correct_single_cb("AABA".to_string(), &bk),
        CorrectionResult::Ambiguous(vec!["AAAA".to_string(), "AABB".to_string()])
    );

    // a perfect match wins
    let whitelist = vec!["AAAA".to_string(), "AAAB".to_string()];
    let bk = build_whitelist_tree(&whitelist);
    assert_eq!(correct_single_cb("AAAA".to_string(), &bk), CorrectionResult::SingleHit("AAAA".to_string()));
}

#[test]
fn hamming_counts_differing_positions() {
    assert_eq!(my_hamming(&"ACGT".to_string(), &"ACGT".to_string()), 0);
    assert_eq!(my_hamming(&"ACGT".to_string(), &"TCGA".to_string()), 2);
    assert_eq!(my_hamming(&"".to_string(), &"".to_string()), 0);
}

#[test]
fn exact_whitelisted_barcode_is_kept() {
    let wl = vec!["ACGT".to_string(), "ACGA".to_string(), "ACGC".to_string()];
    let bk = build_whitelist_tree(&wl);
    for w in &wl {
        assert_eq!(correct_single_cb(w.clone(), &bk), CorrectionResult::SingleHit(w.clone()));
    }
}

#[test]
fn barcode_two_away_from_everything_has_no_hit() {
    let wl = vec!["AAAA".to_string(), "CCCC".to_string()];
    let bk = build_whitelist_tree(&wl);
    assert_eq!(correct_single_cb("AACC".to_string(), &bk), CorrectionResult::NoHit);
    let empty = build_whitelist_tree(&Vec::new());
    assert_eq!(correct_single_cb("AACC".to_string(), &empty), CorrectionResult::NoHit);
}

#[test]
fn correct_map_uses_integer_encoding() {
    // A=0 C=1 G=2 T=3, first base most significant
    let wl = vec!["AAAA".to_string(), "ACGT".to_string(), "TTTT".to_string(), "TTTG".to_string()];
    let cbs = vec![
        "AAAA".to_string(), // whitelisted: 0 -> 0
        "AAAC".to_string(), // one away from AAAA: 1 -> 0
        "ACGA".to_string(), // one away from ACGT: 24 -> 27
        "TTTC".to_string(), // one away from TTTT and TTTG: ambiguous, left out
        "GGGG".to_string(), // far from all: left out
    ];
    let m = build_correct_map(&cbs, &wl);
    assert_eq!(m.len(), 3);
    assert_eq!(m.get(&0), Some(&0));
    assert_eq!(m.get(&1), Some(&0));
    assert_eq!(m.get(&24), Some(&27));
    assert_eq!(m.get(&253), None);
    assert_eq!(m.get(&170), None);
}

#[test]
fn decoding_spells_barcodes_with_padding() {
    let s = decode_barcodes(&vec![0, 5, 27, 255], 4);
    assert_eq!(s, vec!["AAAA".to_string(), "AACC".to_string(), "ACGT".to_string(), "TTTT".to_string()]);
    let long = decode_barcodes(&vec![256], 2);
    assert_eq!(long, vec!["CAAAA".to_string()]);
}

#[test]
fn fix_record_replaces_or_drops() {
    let mut m = std::collections::HashMap::new();
    m.insert(1u64, 0u64);
    let r = Record { cb: 1, umi: 7, ec: 3, count: 2, flag: 1 };
    assert_eq!(fix_record(r, &m), Some(Record { cb: 0, umi: 7, ec: 3, count: 2, flag: 1 }));
    let r = Record { cb: 9, umi: 7, ec: 3, count: 2, flag: 1 };
    assert_eq!(fix_record(r, &m), None);
}

#[test]
fn correct_records_replaces_and_drops_in_order() {
    let mut m = std::collections::HashMap::new();
    m.insert(1u64, 0u64);
    m.insert(5u64, 5u64);
    let recs = vec![
        Record { cb: 1, umi: 2, ec: 0, count: 3, flag: 0 },
        Record { cb: 9, umi: 2, ec: 0, count: 3, flag: 0 },
        Record { cb: 5, umi: 4, ec: 1, count: 1, flag: 0 },
    ];
    assert_eq!(
        correct_records(&recs, &m),
        vec![Record { cb: 0, umi: 2, ec: 0, count: 3, flag: 0 }, Record { cb: 5, umi: 4, ec: 1, count: 1, flag: 0 }]
    );
}
