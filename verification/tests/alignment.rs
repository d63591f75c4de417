use edlib_rs::{
    edlibAlignRs, edlibAlignmentToCigarRs, EdlibAlignConfigRs, EdlibAlignModeRs, EdlibAlignTaskRs,
    EdlibCigarFormatRs, EdlibEqualityPairRs, EDLIB_RS_STATUS_OK,
};

#[test]
fn test_distance_nw() {
    let query = "ACCTCTG";
    let target = "ACTCTGAAA";
    let align_res = edlibAlignRs(
        query.as_bytes(),
        target.as_bytes(),
        &EdlibAlignConfigRs::default(),
    );
    assert_eq!(align_res.status, EDLIB_RS_STATUS_OK);
    assert_eq!(align_res.getDistance(), 4);
}

#[test]
fn test_distance_shw() {
    let query = "ACCTCTG";
    let target = "ACTCTGAAA";
    let mut config = EdlibAlignConfigRs::default();
    config.mode = EdlibAlignModeRs::EDLIB_MODE_SHW;
    let align_res = edlibAlignRs(query.as_bytes(), target.as_bytes(), &config);
    assert_eq!(align_res.status, EDLIB_RS_STATUS_OK);
    assert_eq!(align_res.editDistance, 1);
}

#[test]
fn test_distance_hw() {
    let query = "ACCTCTG";
    let target = "TTTTTTTTTTTTTTTTTTTTTACTCTGAAA";
    let mut config = EdlibAlignConfigRs::default();
    config.mode = EdlibAlignModeRs::EDLIB_MODE_HW;
    let align_res = edlibAlignRs(query.as_bytes(), target.as_bytes(), &config);
    assert_eq!(align_res.status, EDLIB_RS_STATUS_OK);
    assert_eq!(align_res.editDistance, 1);
}

#[test]
fn test_distance_hw_with_pair() {
    let query = "ACCTCTG";
    let target = "TTTTTTTTTTTTTTTTTTTTTNCTCTXAAA";
    let mut equalitypairs = Vec::<EdlibEqualityPairRs>::new();
    let pair = EdlibEqualityPairRs {
        first: b'A',
        second: b'N',
    };
    equalitypairs.push(pair);
    let pair = EdlibEqualityPairRs {
        first: b'G',
        second: b'X',
    };
    equalitypairs.push(pair);
    let mut config = EdlibAlignConfigRs::default();
    config.mode = EdlibAlignModeRs::EDLIB_MODE_HW;
    config.additionalequalities = &equalitypairs;
    let align_res = edlibAlignRs(query.as_bytes(), target.as_bytes(), &config);
    assert_eq!(align_res.status, EDLIB_RS_STATUS_OK);
    assert_eq!(align_res.editDistance, 1);
}

#[test]
fn test_path_hw() {
    let query = "missing";
    let target = "mississipi";
    let mut config = EdlibAlignConfigRs::default();
    config.mode = EdlibAlignModeRs::EDLIB_MODE_HW;
    config.task = EdlibAlignTaskRs::EDLIB_TASK_PATH;
    let align_res = edlibAlignRs(query.as_bytes(), target.as_bytes(), &config);
    assert_eq!(align_res.status, EDLIB_RS_STATUS_OK);
    assert_eq!(align_res.editDistance, 2);
    assert!(align_res.startLocations.is_some());
    assert!(align_res.endLocations.is_some());
    assert!(align_res.getAlignment().is_some());

    let cigar = edlibAlignmentToCigarRs(
        align_res.alignment.as_ref().unwrap(),
        &EdlibCigarFormatRs::EDLIB_CIGAR_STANDARD,
    )
    .unwrap();
    println!(" cigar : {:?}", cigar);
    assert_eq!(cigar, "5M2I");

    let cigarx = edlibAlignmentToCigarRs(
        align_res.getAlignment().unwrap(),
        &EdlibCigarFormatRs::EDLIB_CIGAR_EXTENDED,
    )
    .unwrap();
    println!(" cigar : {:?}", cigarx);
    assert_eq!(cigarx, "5=2I");
}

#[test]
fn test_distance_nw_with_max_k() {
    let query = "ACCTCTG";
    let target = "ACTCTGAAA";
    let mut config = EdlibAlignConfigRs::default();
    config.k = 3;
    let align_res = edlibAlignRs(query.as_bytes(), target.as_bytes(), &config);
    assert_eq!(align_res.status, EDLIB_RS_STATUS_OK);
    // real distance is 4 as we asked for max dist = 3 we should get -1
    assert_eq!(align_res.getDistance(), -1);
}

#[test]
fn test_self_alignment_distance_zero() {
    // aligning any sequence against itself in global mode costs nothing
    for s in ["", "A", "GATTACA", "the quick brown fox"] {
        let res = edlibAlignRs(s.as_bytes(), s.as_bytes(), &EdlibAlignConfigRs::default());
        assert_eq!(res.status, EDLIB_RS_STATUS_OK);
        assert_eq!(res.getDistance(), 0);
    }
}

#[test]
fn test_global_distance_symmetric() {
    let pairs = [
        ("ACCTCTG", "ACTCTGAAA"),
        ("missing", "mississipi"),
        ("", "abc"),
        ("kitten", "sitting"),
    ];
    for (a, b) in pairs {
        let d1 = edlibAlignRs(a.as_bytes(), b.as_bytes(), &EdlibAlignConfigRs::default())
            .getDistance();
        let d2 = edlibAlignRs(b.as_bytes(), a.as_bytes(), &EdlibAlignConfigRs::default())
            .getDistance();
        assert_eq!(d1, d2);
    }
}

#[test]
fn test_bound_monotonic() {
    // once a finite distance is reported under k1, every larger bound
    // reports the same value
    let query = "ACCTCTG";
    let target = "ACTCTGAAA";
    let mut config = EdlibAlignConfigRs::default();
    config.k = 4;
    let d1 = edlibAlignRs(query.as_bytes(), target.as_bytes(), &config).getDistance();
    assert_eq!(d1, 4);
    for k in [5, 6, 100, 1000] {
        config.k = k;
        let d2 = edlibAlignRs(query.as_bytes(), target.as_bytes(), &config).getDistance();
        assert_eq!(d2, d1);
    }
}

#[test]
fn test_empty_query_and_target() {
    // empty query: global distance is the target length
    let res = edlibAlignRs(b"", b"ACGT", &EdlibAlignConfigRs::default());
    assert_eq!(res.getDistance(), 4);
    // empty target: global distance is the query length
    let res = edlibAlignRs(b"ACGT", b"", &EdlibAlignConfigRs::default());
    assert_eq!(res.getDistance(), 4);
    assert_eq!(res.getEndLocations().unwrap(), &vec![-1]);
    // both empty
    let res = edlibAlignRs(b"", b"", &EdlibAlignConfigRs::default());
    assert_eq!(res.getDistance(), 0);
    // empty query, prefix: distance 0, ending before any target symbol
    let mut config = EdlibAlignConfigRs::default();
    config.mode = EdlibAlignModeRs::EDLIB_MODE_SHW;
    let res = edlibAlignRs(b"", b"ACG", &config);
    assert_eq!(res.getDistance(), 0);
    assert_eq!(res.getEndLocations().unwrap(), &vec![-1]);
    // empty query, infix: distance 0 at every end position
    let mut config = EdlibAlignConfigRs::default();
    config.mode = EdlibAlignModeRs::EDLIB_MODE_HW;
    let res = edlibAlignRs(b"", b"ACG", &config);
    assert_eq!(res.getDistance(), 0);
    assert_eq!(res.getEndLocations().unwrap(), &vec![-1, 0, 1, 2]);
    // empty target, prefix: distance is the query length
    let mut config = EdlibAlignConfigRs::default();
    config.mode = EdlibAlignModeRs::EDLIB_MODE_SHW;
    let res = edlibAlignRs(b"AC", b"", &config);
    assert_eq!(res.getDistance(), 2);
}

#[test]
fn test_locations_hw() {
    let query = "ACCTCTG";
    let target = "TTTTTTTTTTTTTTTTTTTTTACTCTGAAA";
    let mut config = EdlibAlignConfigRs::default();
    config.mode = EdlibAlignModeRs::EDLIB_MODE_HW;
    config.task = EdlibAlignTaskRs::EDLIB_TASK_LOC;
    let res = edlibAlignRs(query.as_bytes(), target.as_bytes(), &config);
    assert_eq!(res.editDistance, 1);
    let ends = res.getEndLocations().unwrap();
    let starts = res.getStartLocations().unwrap();
    assert_eq!(ends.len(), starts.len());
    assert_eq!(res.numLocations, ends.len());
    // "ACTCTG" occupies target[21..27], one edit away from the query
    let pos = ends.iter().position(|&e| e == 26).unwrap();
    assert_eq!(starts[pos], 21);
    // locations are strictly ascending and pairwise consistent
    for w in ends.windows(2) {
        assert!(w[0] < w[1]);
    }
    for i in 0..ends.len() {
        assert!(starts[i] <= ends[i] + 1);
    }
}

#[test]
fn test_locations_nw_and_shw() {
    let mut config = EdlibAlignConfigRs::default();
    config.task = EdlibAlignTaskRs::EDLIB_TASK_LOC;
    let res = edlibAlignRs(b"ACCTCTG", b"ACTCTGAAA", &config);
    assert_eq!(res.getEndLocations().unwrap(), &vec![8]);
    assert_eq!(res.getStartLocations().unwrap(), &vec![0]);

    config.mode = EdlibAlignModeRs::EDLIB_MODE_SHW;
    let res = edlibAlignRs(b"ACCTCTG", b"ACTCTGAAA", &config);
    assert_eq!(res.editDistance, 1);
    let ends = res.getEndLocations().unwrap();
    assert!(ends.contains(&5));
    for s in res.getStartLocations().unwrap() {
        assert_eq!(*s, 0);
    }
}

#[test]
fn test_path_consumes_query_and_span() {
    // the path consumes the whole query and exactly the reported target span
    let query = b"missing";
    let target = b"mississipi";
    let mut config = EdlibAlignConfigRs::default();
    config.mode = EdlibAlignModeRs::EDLIB_MODE_HW;
    config.task = EdlibAlignTaskRs::EDLIB_TASK_PATH;
    let res = edlibAlignRs(query, target, &config);
    let ops = res.getAlignment().unwrap();
    let start = res.getStartLocations().unwrap()[0];
    let end = res.getEndLocations().unwrap()[0];
    let span = &target[start as usize..(end + 1) as usize];
    let mut qi = 0usize;
    let mut ti = 0usize;
    let mut cost = 0i32;
    for &op in ops {
        match op {
            0 => {
                assert_eq!(query[qi], span[ti]);
                qi += 1;
                ti += 1;
            }
            1 => {
                qi += 1;
                cost += 1;
            }
            2 => {
                ti += 1;
                cost += 1;
            }
            3 => {
                assert_ne!(query[qi], span[ti]);
                qi += 1;
                ti += 1;
                cost += 1;
            }
            _ => panic!("invalid operation byte"),
        }
    }
    assert_eq!(qi, query.len());
    assert_eq!(ti, span.len());
    assert_eq!(cost, res.editDistance);
    // every operation but insertion-to-query consumes one query symbol
    let consumed = ops.iter().filter(|&&op| op != 2).count();
    assert_eq!(consumed, query.len());
}

#[test]
fn test_alphabet_length() {
    let res = edlibAlignRs(b"AB", b"BC", &EdlibAlignConfigRs::default());
    assert_eq!(res.alphabetLength, 3);
    let pairs = vec![EdlibEqualityPairRs {
        first: b'A',
        second: b'B',
    }];
    let mut config = EdlibAlignConfigRs::default();
    config.additionalequalities = &pairs;
    let res = edlibAlignRs(b"AB", b"BC", &config);
    assert_eq!(res.alphabetLength, 2);
    let res = edlibAlignRs(b"", b"", &EdlibAlignConfigRs::default());
    assert_eq!(res.alphabetLength, 0);
}

#[test]
fn test_equality_pairs_transitive() {
    // A=B and B=C declared: then A and C must also match
    let pairs = vec![
        EdlibEqualityPairRs {
            first: b'A',
            second: b'B',
        },
        EdlibEqualityPairRs {
            first: b'B',
            second: b'C',
        },
    ];
    let mut config = EdlibAlignConfigRs::default();
    config.additionalequalities = &pairs;
    let res = edlibAlignRs(b"AAA", b"CCC", &config);
    assert_eq!(res.getDistance(), 0);
}

#[test]
fn test_config_new_and_default() {
    let config = EdlibAlignConfigRs::default();
    assert_eq!(config.k, -1);
    assert!(matches!(config.mode, EdlibAlignModeRs::EDLIB_MODE_NW));
    assert!(matches!(config.task, EdlibAlignTaskRs::EDLIB_TASK_DISTANCE));
    assert!(config.additionalequalities.is_empty());
    let config = EdlibAlignConfigRs::new(
        7,
        EdlibAlignModeRs::EDLIB_MODE_HW,
        EdlibAlignTaskRs::EDLIB_TASK_PATH,
        &[],
    );
    assert_eq!(config.k, 7);
    assert!(matches!(config.mode, EdlibAlignModeRs::EDLIB_MODE_HW));
    assert!(matches!(config.task, EdlibAlignTaskRs::EDLIB_TASK_PATH));
}

#[test]
fn test_distance_only_has_no_starts_or_path() {
    let res = edlibAlignRs(b"AC", b"AG", &EdlibAlignConfigRs::default());
    assert!(res.getEndLocations().is_some());
    assert!(res.getStartLocations().is_none());
    assert!(res.getAlignment().is_none());
    // exceeding the bound withholds the locations entirely
    let mut config = EdlibAlignConfigRs::default();
    config.k = 0;
    let res = edlibAlignRs(b"AC", b"AG", &config);
    assert_eq!(res.getDistance(), -1);
    assert!(res.getEndLocations().is_none());
    assert!(res.getStartLocations().is_none());
    assert!(res.getAlignment().is_none());
}

#[test]
fn test_unrelated_pair_does_not_merge() {
    // a declared pair leaves every unmentioned byte in a class of its own
    let pairs = vec![EdlibEqualityPairRs {
        first: b'C',
        second: b'D',
    }];
    let mut config = EdlibAlignConfigRs::default();
    config.additionalequalities = &pairs;
    let res = edlibAlignRs(b"A", b"B", &config);
    assert_eq!(res.getDistance(), 1);
    let res = edlibAlignRs(b"C", b"D", &config);
    assert_eq!(res.getDistance(), 0);
}
