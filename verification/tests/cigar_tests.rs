use edlib_rs::{edlibAlignmentToCigarRs, EdlibCigarErrorRs, EdlibCigarFormatRs};
use edlib_rs::edlibCigarToAlignmentRs;

#[test]
fn test_cigar_standard_merges_match_and_mismatch() {
    // 0 match, 3 mismatch, 1 insertion to target, 2 insertion to query
    let ops = [0u8, 0, 3, 1, 2, 2];
    let s = edlibAlignmentToCigarRs(&ops, &EdlibCigarFormatRs::EDLIB_CIGAR_STANDARD).unwrap();
    assert_eq!(s, "3M1I2D");
    let x = edlibAlignmentToCigarRs(&ops, &EdlibCigarFormatRs::EDLIB_CIGAR_EXTENDED).unwrap();
    assert_eq!(x, "2=1X1I2D");
}

#[test]
fn test_cigar_single_run() {
    let ops = [0u8; 12];
    let s = edlibAlignmentToCigarRs(&ops, &EdlibCigarFormatRs::EDLIB_CIGAR_STANDARD).unwrap();
    assert_eq!(s, "12M");
    let x = edlibAlignmentToCigarRs(&ops, &EdlibCigarFormatRs::EDLIB_CIGAR_EXTENDED).unwrap();
    assert_eq!(x, "12=");
}

#[test]
fn test_cigar_empty_alignment_fails() {
    let res = edlibAlignmentToCigarRs(&[], &EdlibCigarFormatRs::EDLIB_CIGAR_STANDARD);
    assert_eq!(res, Err(EdlibCigarErrorRs::EmptyAlignment));
}

#[test]
fn test_cigar_invalid_operation_fails() {
    let res = edlibAlignmentToCigarRs(&[0, 1, 7], &EdlibCigarFormatRs::EDLIB_CIGAR_EXTENDED);
    assert_eq!(res, Err(EdlibCigarErrorRs::InvalidOperation));
}

#[test]
fn test_cigar_large_count_decimal() {
    let mut ops = vec![1u8; 120];
    ops.push(2);
    let s = edlibAlignmentToCigarRs(&ops, &EdlibCigarFormatRs::EDLIB_CIGAR_STANDARD).unwrap();
    assert_eq!(s, "120I1D");
}

#[test]
fn test_cigar_decode_reencode_identity() {
    // decoding a CIGAR string and re-encoding reproduces it exactly
    for (s, fmt) in [
        ("5M2I", EdlibCigarFormatRs::EDLIB_CIGAR_STANDARD),
        ("5=2I", EdlibCigarFormatRs::EDLIB_CIGAR_EXTENDED),
        ("3M1I2D", EdlibCigarFormatRs::EDLIB_CIGAR_STANDARD),
        ("2=1X1I2D", EdlibCigarFormatRs::EDLIB_CIGAR_EXTENDED),
        ("120I1D", EdlibCigarFormatRs::EDLIB_CIGAR_STANDARD),
        ("1M", EdlibCigarFormatRs::EDLIB_CIGAR_STANDARD),
    ] {
        let chars: Vec<char> = s.chars().collect();
        let ops = edlibCigarToAlignmentRs(&chars, &fmt).unwrap();
        let back = edlibAlignmentToCigarRs(&ops, &fmt).unwrap();
        assert_eq!(back, s);
    }
}

#[test]
fn test_cigar_decode_roundtrip_from_encoder() {
    // the decoder accepts whatever the encoder produces, and gives back
    // an equivalent path (identical in the extended notation)
    let ops = vec![0u8, 3, 3, 1, 1, 2, 0, 0];
    let fmt = EdlibCigarFormatRs::EDLIB_CIGAR_EXTENDED;
    let s = edlibAlignmentToCigarRs(&ops, &fmt).unwrap();
    let chars: Vec<char> = s.chars().collect();
    let decoded = edlibCigarToAlignmentRs(&chars, &fmt).unwrap();
    assert_eq!(decoded, ops);
}

#[test]
fn test_cigar_decode_rejects_bad_input() {
    let fmt = EdlibCigarFormatRs::EDLIB_CIGAR_STANDARD;
    let empty: Vec<char> = Vec::new();
    assert_eq!(
        edlibCigarToAlignmentRs(&empty, &fmt),
        Err(EdlibCigarErrorRs::EmptyAlignment)
    );
    for bad in ["M", "0M", "0", "5", "5M3M", "5=", "2M03I", "5X2I"] {
        let chars: Vec<char> = bad.chars().collect();
        assert_eq!(
            edlibCigarToAlignmentRs(&chars, &fmt),
            Err(EdlibCigarErrorRs::InvalidOperation),
            "input {:?} should be rejected",
            bad
        );
    }
}
