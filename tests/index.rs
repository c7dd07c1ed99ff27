use sage_index::database::{
    IndexedDatabase, Ion, Kind, Peptide, PeptideIx, TargetDecoy, Theoretical, FRAGMENT_BUCKET_SIZE,
};
use sage_index::search::binary_search_slice;

/// Order key of an `f32` mass: integer order is the order of `f32::total_cmp`.
fn key(x: f32) -> i32 {
    let b = x.to_bits() as i32;
    b ^ ((((b >> 31) as u32) >> 1) as i32)
}

fn peptide(sequence: &str, neutral: i32, ions: Vec<Ion>, decoy: bool) -> TargetDecoy {
    let p = Peptide { sequence: sequence.to_string(), neutral, ions };
    if decoy {
        TargetDecoy::Decoy(p)
    } else {
        TargetDecoy::Target(p)
    }
}

struct Lcg(u64);

impl Lcg {
    fn next(&mut self, bound: u64) -> u64 {
        self.0 = self.0.wrapping_mul(6364136223846793005).wrapping_add(1442695040888963407);
        (self.0 >> 33) % bound
    }
}

/// A database of `count` peptides, each with ions over three charges and both
/// kinds, some of them outside `[100, 2000]`.
fn synthetic(count: usize) -> (IndexedDatabase, usize) {
    let mut rng = Lcg(7);
    let mut peptides = Vec::new();
    let mut in_bounds = 0;
    for i in 0..count {
        let neutral = 500 + rng.next(3000) as i32;
        let mut ions = Vec::new();
        for charge in 1..4u8 {
            for kind in [Kind::B, Kind::Y] {
                let mz = 50 + rng.next(2100) as i32;
                if (100..=2000).contains(&mz) {
                    in_bounds += 1;
                }
                ions.push(Ion { mz, kind, charge });
            }
        }
        peptides.push(peptide(&format!("PEP{}", i), neutral, ions, i % 2 == 1));
    }
    (IndexedDatabase::new(peptides, 100, 2000), in_bounds)
}

fn brute_force(db: &IndexedDatabase, plo: i32, phi: i32, flo: i32, fhi: i32) -> Vec<Theoretical> {
    db.fragments
        .iter()
        .copied()
        .filter(|f| f.precursor_mz >= plo && f.precursor_mz <= phi && f.fragment_mz >= flo && f.fragment_mz <= fhi)
        .collect()
}

#[test]
fn binary_search_covers_duplicate_cluster() {
    let keys: Vec<i32> = vec![1, 2, 2, 2, 2, 3, 4, 5];
    assert_eq!(binary_search_slice(&keys, 2, 2), (0, 4));
    let keys: Vec<i32> = vec![1, 1, 2, 2, 2, 3];
    assert_eq!(binary_search_slice(&keys, 2, 3), (1, 5));
    let keys: Vec<i32> = vec![7, 7, 7, 7];
    let (l, r) = binary_search_slice(&keys, 7, 7);
    assert_eq!((l, r), (0, 3));
}

#[test]
fn binary_search_empty_slice() {
    let keys: Vec<i32> = Vec::new();
    assert_eq!(binary_search_slice(&keys, 1, 5), (0, 0));
}

#[test]
fn binary_search_clamps_out_of_range_bounds() {
    let keys: Vec<i32> = vec![10, 20, 30];
    assert_eq!(binary_search_slice(&keys, 0, 5), (0, 0));
    assert_eq!(binary_search_slice(&keys, 40, 50), (2, 2));
    assert_eq!(binary_search_slice(&keys, 15, 25), (0, 2));
    assert_eq!(binary_search_slice(&keys, 20, 30), (0, 2));
}

#[test]
fn binary_search_on_float_keys() {
    let masses = [100.5f32, 200.25, 200.25, 300.0, 450.75];
    let keys: Vec<i32> = masses.iter().map(|m| key(*m)).collect();
    let (l, r) = binary_search_slice(&keys, key(200.0), key(300.0));
    assert_eq!((l, r), (0, 3));
    for (i, m) in masses.iter().enumerate() {
        if *m >= 200.0 && *m <= 300.0 {
            assert!(l <= i && i <= r);
        }
    }
}

#[test]
fn empty_database() {
    let db = IndexedDatabase::new(Vec::new(), 100, 2000);
    assert_eq!(db.size(), 0);
    assert_eq!(db.peptide_count(), 0);
    assert!(db.bucket_minimums().is_empty());
    let q = db.query(0, i32::MAX);
    assert!(q.page_search(0, i32::MAX).is_empty());
}

#[test]
fn single_peptide_end_to_end() {
    let neutral = key(1000.5);
    let b1 = key(173.09);
    let y1 = key(147.11);
    let ions = vec![
        Ion { mz: b1, kind: Kind::B, charge: 1 },
        Ion { mz: key(300.2), kind: Kind::B, charge: 1 },
        Ion { mz: y1, kind: Kind::Y, charge: 1 },
        Ion { mz: key(2500.0), kind: Kind::Y, charge: 1 },
        Ion { mz: key(87.05), kind: Kind::B, charge: 2 },
        Ion { mz: key(150.6), kind: Kind::Y, charge: 2 },
    ];
    let db = IndexedDatabase::new(vec![peptide("PEPTIDEK", neutral, ions, false)], key(100.0), key(2000.0));
    assert_eq!(db.peptide_count(), 1);
    assert!(matches!(db.index(PeptideIx(0)), TargetDecoy::Target(_)));
    assert_eq!(db.size(), 4);
    assert_eq!(db.bucket_minimums(), &vec![y1]);
    let q = db.query(key(1000.0), key(1001.0));
    let found = q.page_search(key(173.0), key(173.2));
    assert_eq!(
        found,
        vec![Theoretical { peptide_index: PeptideIx(0), precursor_mz: neutral, fragment_mz: b1, kind: Kind::B, charge: 1 }]
    );
    let found = q.page_search(y1, y1);
    assert_eq!(found.len(), 1);
    assert_eq!(found[0].kind, Kind::Y);
    let miss = db.query(key(900.0), key(950.0));
    assert!(miss.page_search(key(173.0), key(173.2)).is_empty());
}

#[test]
fn peptides_sorted_by_mass() {
    let peptides = vec![
        peptide("CCC", 30, vec![Ion { mz: 150, kind: Kind::B, charge: 1 }], false),
        peptide("AAA", 10, vec![Ion { mz: 150, kind: Kind::Y, charge: 1 }], true),
        peptide("BBB", 20, vec![Ion { mz: 150, kind: Kind::B, charge: 3 }], false),
    ];
    let db = IndexedDatabase::new(peptides, 100, 2000);
    let masses: Vec<i32> = (0..3u32).map(|i| db.index(PeptideIx(i)).neutral()).collect();
    assert_eq!(masses, vec![10, 20, 30]);
    assert_eq!(db.index(PeptideIx(0)).peptide().sequence, "AAA");
    for f in &db.fragments {
        assert_eq!(db.index(f.peptide_index).neutral(), f.precursor_mz);
    }
    assert_eq!(db.fragments.iter().map(|f| f.precursor_mz).collect::<Vec<_>>(), vec![10, 20, 30]);
}

#[test]
fn sort_invariant_and_bucket_minimums() {
    let (db, in_bounds) = synthetic(5000);
    assert_eq!(db.size(), in_bounds);
    assert!(db.size() > 3 * FRAGMENT_BUCKET_SIZE);
    for i in 1..db.peptide_count() {
        assert!(db.index(PeptideIx(i as u32 - 1)).neutral() <= db.index(PeptideIx(i as u32)).neutral());
    }
    for chunk in db.fragments.chunks(FRAGMENT_BUCKET_SIZE) {
        for w in chunk.windows(2) {
            assert!(w[0].precursor_mz <= w[1].precursor_mz);
        }
    }
    let mut by_fragment: Vec<i32> = db.fragments.iter().map(|f| f.fragment_mz).collect();
    by_fragment.sort();
    let expected: Vec<i32> = by_fragment.chunks(FRAGMENT_BUCKET_SIZE).map(|c| c[0]).collect();
    assert_eq!(db.bucket_minimums(), &expected);
    for (b, chunk) in db.fragments.chunks(FRAGMENT_BUCKET_SIZE).enumerate() {
        assert_eq!(chunk.iter().map(|f| f.fragment_mz).min(), Some(expected[b]));
    }
}

#[test]
fn fragments_within_bounds() {
    let (db, _) = synthetic(2000);
    assert!(db.fragments.iter().all(|f| f.fragment_mz >= 100 && f.fragment_mz <= 2000));
    assert_eq!(db.fragment_min_mz, 100);
    assert_eq!(db.fragment_max_mz, 2000);
}

#[test]
fn query_matches_brute_force() {
    let (db, _) = synthetic(5000);
    let windows = [(1000, 1100, 500, 520), (500, 3500, 100, 2000), (2000, 2005, 1990, 2000), (0, 499, 100, 2000), (1500, 1400, 100, 2000), (700, 900, 100, 105)];
    for (plo, phi, flo, fhi) in windows {
        let q = db.query(plo, phi);
        let found = q.page_search(flo, fhi);
        assert_eq!(found, brute_force(&db, plo, phi, flo, fhi));
        assert!(found.iter().all(|f| f.precursor_mz >= plo && f.precursor_mz <= phi && f.fragment_mz >= flo && f.fragment_mz <= fhi));
    }
}

#[test]
fn repeated_queries_agree() {
    let (db, _) = synthetic(3000);
    let q = db.query(1200, 1300);
    let first = q.page_search(800, 900);
    let second = q.page_search(800, 900);
    assert!(!first.is_empty());
    assert_eq!(first, second);
    assert_eq!(db.query(1200, 1300).page_search(800, 900), first);
}
