use sage_index::database::{Peptide, TargetDecoy};
use sage_index::digest::{unique_candidates, Digest, MAX_PEPTIDE_LEN, MIN_PEPTIDE_LEN};

fn digest(sequence: &str, reversed: bool) -> Digest {
    Digest { sequence: sequence.as_bytes().to_vec(), reversed }
}

fn keys(v: &[Digest]) -> Vec<(String, bool)> {
    let mut k: Vec<(String, bool)> =
        v.iter().map(|d| (String::from_utf8(d.sequence.clone()).unwrap(), d.reversed)).collect();
    k.sort();
    k
}

#[test]
fn length_filter_bounds() {
    let long = "A".repeat(MAX_PEPTIDE_LEN);
    let too_long = "A".repeat(MAX_PEPTIDE_LEN + 1);
    let out = unique_candidates(vec![
        digest("PEPTIK", false),
        digest("PEPTIDK", false),
        digest(&long, false),
        digest(&too_long, false),
        digest("", true),
    ]);
    assert_eq!(MIN_PEPTIDE_LEN, 7);
    assert_eq!(keys(&out), vec![(long.clone(), false), ("PEPTIDK".to_string(), false)]);
}

#[test]
fn repeated_digests_collapse() {
    let out = unique_candidates(vec![
        digest("LESLIEKR", false),
        digest("PEPTIDEK", false),
        digest("LESLIEKR", false),
        digest("LESLIEKR", true),
        digest("PEPTIDEK", false),
        digest("LESLIEKR", false),
    ]);
    assert_eq!(
        keys(&out),
        vec![
            ("LESLIEKR".to_string(), false),
            ("LESLIEKR".to_string(), true),
            ("PEPTIDEK".to_string(), false),
        ]
    );
}

#[test]
fn no_digests_no_candidates() {
    assert!(unique_candidates(Vec::new()).is_empty());
}

#[test]
fn decoy_follows_reversal_flag() {
    let p = || Peptide { sequence: "PEPTIDEK".to_string(), neutral: 10, ions: Vec::new() };
    assert!(matches!(TargetDecoy::classify(p(), true), TargetDecoy::Decoy(_)));
    assert!(matches!(TargetDecoy::classify(p(), false), TargetDecoy::Target(_)));
}
