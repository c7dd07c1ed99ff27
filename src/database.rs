//! The indexed fragment database: construction and the two-stage range query.
use rayon::prelude::ParallelSliceMut;
use rayon::iter::ParallelIterator;
use vstd::prelude::*;
use crate::search::{SortKey, is_left_index, is_right_index, search_range, binary_search_slice};

verus! {

/// Number of fragment records in one bucket of the index.
pub const FRAGMENT_BUCKET_SIZE: usize = 8196;

/// Position of a peptide in the database's mass-sorted peptide collection.
#[derive(Clone, Copy, PartialEq, Eq, Structural, Hash, PartialOrd, Ord, Debug)]
pub struct PeptideIx(pub u32);

/// Ion series of a fragment: N-terminal (`B`) or C-terminal (`Y`).
#[derive(Clone, Copy, PartialEq, Eq, Structural, Debug)]
pub enum Kind {
    B,
    Y,
}

/// One theoretical ion of a peptide, as the fragmentation model gives it.
#[derive(Clone, Copy, PartialEq, Eq, Structural, Debug)]
pub struct Ion {
    pub mz: i32,
    pub kind: Kind,
    pub charge: u8,
}

/// A modified peptide: its residues, its neutral mass key, and its theoretical
/// ions over every charge and ion kind of the fragmentation policy.
pub struct Peptide {
    pub sequence: String,
    pub neutral: i32,
    pub ions: Vec<Ion>,
}

/// A peptide from the forward sequence (`Target`) or a reversed one (`Decoy`).
pub enum TargetDecoy {
    Target(Peptide),
    Decoy(Peptide),
}

impl TargetDecoy {
    pub open spec fn spec_peptide(&self) -> &Peptide {
        match self {
            TargetDecoy::Target(p) => p,
            TargetDecoy::Decoy(p) => p,
        }
    }

    /// Labels a peptide by the digest it came from: a decoy when the digest
    /// came from a reversed sequence, a target otherwise.
    pub fn classify(peptide: Peptide, reversed: bool) -> (r: TargetDecoy)
        ensures
            r == (if reversed {
                TargetDecoy::Decoy(peptide)
            } else {
                TargetDecoy::Target(peptide)
            }),
    {
        if reversed {
            TargetDecoy::Decoy(peptide)
        } else {
            TargetDecoy::Target(peptide)
        }
    }

    pub fn peptide(&self) -> (r: &Peptide)
        ensures
            r == self.spec_peptide(),
    {
        match self {
            TargetDecoy::Target(p) => p,
            TargetDecoy::Decoy(p) => p,
        }
    }

    /// The neutral mass key of the peptide.
    pub fn neutral(&self) -> (r: i32)
        ensures
            r == self.spec_peptide().neutral,
    {
        self.peptide().neutral
    }
}

/// A theoretical fragment ion of one peptide of the database.
#[derive(Clone, Copy, PartialEq, Eq, Structural, Debug)]
pub struct Theoretical {
    pub peptide_index: PeptideIx,
    pub precursor_mz: i32,
    pub fragment_mz: i32,
    pub kind: Kind,
    pub charge: u8,
}

/// Fragments are searched within a bucket by their precursor mass key.
impl SortKey for Theoretical {
    open spec fn key_spec(&self) -> i32 {
        self.precursor_mz
    }

    fn sort_key(&self) -> (r: i32) {
        self.precursor_mz
    }
}

/// Position `i` of the fragment collection lies in bucket `b`.
pub open spec fn in_bucket(i: int, b: int) -> bool {
    b * (FRAGMENT_BUCKET_SIZE as int) <= i < b * (FRAGMENT_BUCKET_SIZE as int) + (
    FRAGMENT_BUCKET_SIZE as int)
}

/// The records of bucket `b` of `s`.
pub open spec fn bucket(s: Seq<Theoretical>, b: int) -> Seq<Theoretical> {
    let start = b * (FRAGMENT_BUCKET_SIZE as int);
    let end = start + FRAGMENT_BUCKET_SIZE as int;
    s.subrange(start, if end < s.len() { end } else { s.len() as int })
}

/// Where bucket `b` starts in a collection of `n` records, or `n` past its end.
pub open spec fn bucket_start(b: int, n: int) -> int {
    if b * (FRAGMENT_BUCKET_SIZE as int) < n {
        b * (FRAGMENT_BUCKET_SIZE as int)
    } else {
        n
    }
}

/// Some record of bucket `b` of `f` has the fragment m/z `x`.
pub open spec fn min_attained(f: Seq<Theoretical>, x: i32, b: int) -> bool {
    exists|i: int| #[trigger] in_bucket(i, b) && 0 <= i < f.len() && f[i].fragment_mz == x
}

/// The peptides are in non-decreasing order of neutral mass.
pub open spec fn sorted_by_mass(p: Seq<TargetDecoy>) -> bool {
    forall|i: int, j: int|
        0 <= i <= j < p.len() ==> #[trigger] p[i].spec_peptide().neutral
            <= #[trigger] p[j].spec_peptide().neutral
}

/// The record that ion `ion` of peptide `k` of `p` gives.
pub open spec fn record_of(p: Seq<TargetDecoy>, k: int, ion: Ion) -> Theoretical {
    Theoretical {
        peptide_index: PeptideIx(k as u32),
        precursor_mz: p[k].spec_peptide().neutral,
        fragment_mz: ion.mz,
        kind: ion.kind,
        charge: ion.charge,
    }
}

/// The records of peptide `k` of `p`, one for each of `ions` whose m/z lies in
/// `[lo, hi]`, in the order of `ions`.
pub open spec fn ion_records(p: Seq<TargetDecoy>, k: int, ions: Seq<Ion>, lo: i32, hi: i32) -> Seq<
    Theoretical,
>
    decreases ions.len(),
{
    if ions.len() == 0 {
        Seq::empty()
    } else {
        let rest = ion_records(p, k, ions.drop_last(), lo, hi);
        let ion = ions.last();
        if lo <= ion.mz <= hi {
            rest.push(record_of(p, k, ion))
        } else {
            rest
        }
    }
}

/// The records of the first `count` peptides of `p`, peptide by peptide.
pub open spec fn records_upto(p: Seq<TargetDecoy>, count: int, lo: i32, hi: i32) -> Seq<
    Theoretical,
>
    decreases count,
{
    if count <= 0 {
        Seq::empty()
    } else {
        records_upto(p, count - 1, lo, hi) + ion_records(
            p,
            count - 1,
            p[count - 1].spec_peptide().ions@,
            lo,
            hi,
        )
    }
}

/// A record names a peptide of `p`, carries that peptide's mass, and has its
/// fragment m/z within `[lo, hi]`.
pub open spec fn record_fits(f: Theoretical, p: Seq<TargetDecoy>, lo: i32, hi: i32) -> bool {
    &&& (f.peptide_index.0 as int) < p.len()
    &&& f.precursor_mz == p[f.peptide_index.0 as int].spec_peptide().neutral
    &&& lo <= f.fragment_mz <= hi
}

proof fn lemma_moved<T>(a: Seq<T>, b: Seq<T>, x: T)
    requires
        a.to_multiset() == b.to_multiset(),
        a.contains(x),
    ensures
        b.contains(x),
{
    vstd::seq_lib::to_multiset_contains(a, x);
    vstd::seq_lib::to_multiset_contains(b, x);
}

/// Relies on std's `slice::sort_by_key`: the peptides are reordered, ascending by
/// neutral mass key.
#[verifier::external_body]
fn sort_by_mass(v: &mut Vec<TargetDecoy>)
    ensures
        final(v)@.to_multiset() == old(v)@.to_multiset(),
        sorted_by_mass(final(v)@),
{
    v.sort_by_key(|p| p.neutral());
}

/// Relies on std's `slice::sort_by_key`: the records are reordered, ascending by
/// fragment m/z key.
#[verifier::external_body]
fn sort_by_fragment(v: &mut Vec<Theoretical>)
    ensures
        final(v)@.to_multiset() == old(v)@.to_multiset(),
        forall|i: int, j: int|
            0 <= i <= j < final(v)@.len() ==> #[trigger] final(v)@[i].fragment_mz
                <= #[trigger] final(v)@[j].fragment_mz,
{
    v.sort_by_key(|f| f.fragment_mz);
}

/// Relies on rayon's `par_chunks_mut`: the records are cut into consecutive
/// windows of `FRAGMENT_BUCKET_SIZE` (the last one may be shorter), and each
/// window is reordered on its own, ascending by precursor mass key, by std's
/// `slice::sort_by_key`.
#[verifier::external_body]
fn sort_buckets(v: &mut Vec<Theoretical>)
    ensures
        final(v)@.len() == old(v)@.len(),
        final(v)@.to_multiset() == old(v)@.to_multiset(),
        forall|b: int|
            0 <= b && b * (FRAGMENT_BUCKET_SIZE as int) < old(v)@.len() ==> (#[trigger] bucket(
                final(v)@,
                b,
            )).to_multiset() == bucket(old(v)@, b).to_multiset(),
        forall|b: int, i: int, j: int|
            #![trigger in_bucket(i, b), in_bucket(j, b)]
            in_bucket(i, b) && in_bucket(j, b) && 0 <= i <= j < final(v)@.len()
                ==> final(v)@[i].precursor_mz <= final(v)@[j].precursor_mz,
{
    v.par_chunks_mut(FRAGMENT_BUCKET_SIZE).for_each(|chunk| chunk.sort_by_key(|f| f.precursor_mz));
}

/// The index: peptides sorted by neutral mass, and their fragment records cut
/// into buckets of `FRAGMENT_BUCKET_SIZE`, the buckets in ascending order of
/// fragment m/z, each bucket sorted by precursor mass, with the least fragment
/// m/z of each bucket.
pub struct IndexedDatabase {
    pub peptides: Vec<TargetDecoy>,
    pub fragments: Vec<Theoretical>,
    pub min_value: Vec<i32>,
    pub fragment_min_mz: i32,
    pub fragment_max_mz: i32,
}

proof fn lemma_new_well_formed(db: &IndexedDatabase, generated: Seq<Theoretical>, sorted: Seq<Theoretical>)
    requires
        sorted_by_mass(db.peptides@),
        forall|i: int|
            0 <= i < generated.len() ==> record_fits(
                #[trigger] generated[i],
                db.peptides@,
                db.fragment_min_mz,
                db.fragment_max_mz,
            ),
        sorted.to_multiset() == generated.to_multiset(),
        db.fragments@.to_multiset() == sorted.to_multiset(),
        db.fragments@.len() == sorted.len(),
        forall|i: int, j: int|
            0 <= i <= j < sorted.len() ==> #[trigger] sorted[i].fragment_mz
                <= #[trigger] sorted[j].fragment_mz,
        forall|b: int|
            0 <= b && b * (FRAGMENT_BUCKET_SIZE as int) < sorted.len() ==> (#[trigger] bucket(
                db.fragments@,
                b,
            )).to_multiset() == bucket(sorted, b).to_multiset(),
        forall|b: int, i: int, j: int|
            #![trigger in_bucket(i, b), in_bucket(j, b)]
            in_bucket(i, b) && in_bucket(j, b) && 0 <= i <= j < db.fragments@.len()
                ==> db.fragments@[i].precursor_mz <= db.fragments@[j].precursor_mz,
        db.min_value@.len() * (FRAGMENT_BUCKET_SIZE as int) >= sorted.len(),
        db.min_value@.len() == 0 || (db.min_value@.len() - 1) * (FRAGMENT_BUCKET_SIZE as int)
            < sorted.len(),
        forall|b: int|
            0 <= b < db.min_value@.len() ==> b * (FRAGMENT_BUCKET_SIZE as int) < sorted.len()
                && #[trigger] db.min_value@[b] == sorted[b * (FRAGMENT_BUCKET_SIZE as int)].fragment_mz,
    ensures
        db.well_formed(),
{
    let f = db.fragments@;
    let m = db.min_value@;
    let n = f.len();
    let nb = m.len();
    let sz = FRAGMENT_BUCKET_SIZE as int;
    assert forall|i: int| 0 <= i < n implies record_fits(
        #[trigger] f[i],
        db.peptides@,
        db.fragment_min_mz,
        db.fragment_max_mz,
    ) by {
        assert(f.contains(f[i]));
        lemma_moved(f, sorted, f[i]);
        lemma_moved(sorted, generated, f[i]);
    }
    assert forall|a: int, c: int| 0 <= a <= c < nb implies #[trigger] m[a] <= #[trigger] m[c] by {
        assert(a * sz <= c * sz);
    }
    assert forall|b: int, i: int|
        #![trigger in_bucket(i, b), f[i]]
        0 <= b < nb && in_bucket(i, b) && i < n implies m[b] <= f[i].fragment_mz && (b + 1 < nb
            ==> f[i].fragment_mz <= m[b + 1]) by {
        let bf = bucket(f, b);
        assert(bf[i - b * sz] == f[i]);
        assert(bf.contains(f[i]));
        lemma_moved(bf, bucket(sorted, b), f[i]);
        let k = choose|k: int| 0 <= k < bucket(sorted, b).len() && bucket(sorted, b)[k] == f[i];
        assert(sorted[b * sz + k] == f[i]);
        assert(m[b] == sorted[b * sz].fragment_mz);
        if b + 1 < nb {
            assert(m[b + 1] == sorted[(b + 1) * sz].fragment_mz);
            assert(b * sz + k <= (b + 1) * sz);
        }
    }
    assert forall|b: int| 0 <= b < nb implies #[trigger] min_attained(f, m[b], b) by {
        let bs = bucket(sorted, b);
        assert(m[b] == sorted[b * sz].fragment_mz);
        assert(bs[0] == sorted[b * sz]);
        assert(bs.contains(sorted[b * sz]));
        lemma_moved(bs, bucket(f, b), sorted[b * sz]);
        let k = choose|k: int| 0 <= k < bucket(f, b).len() && bucket(f, b)[k] == sorted[b * sz];
        assert(f[b * sz + k] == sorted[b * sz]);
        assert(in_bucket(b * sz + k, b));
        assert(f[b * sz + k].fragment_mz == m[b]);
    }
}

/// A record lies in both the precursor window `[plo, phi]` and the fragment
/// window `[flo, fhi]`.
pub open spec fn hit(f: Theoretical, plo: i32, phi: i32, flo: i32, fhi: i32) -> bool {
    &&& plo <= f.precursor_mz <= phi
    &&& flo <= f.fragment_mz <= fhi
}

/// The records of `s` that lie in both windows, in the order of `s`.
pub open spec fn hits(s: Seq<Theoretical>, plo: i32, phi: i32, flo: i32, fhi: i32) -> Seq<
    Theoretical,
> {
    s.filter(|f: Theoretical| hit(f, plo, phi, flo, fhi))
}

proof fn lemma_hits_step(s: Seq<Theoretical>, i: int, plo: i32, phi: i32, flo: i32, fhi: i32)
    requires
        0 <= i < s.len(),
    ensures
        hits(s.subrange(0, i + 1), plo, phi, flo, fhi) == if hit(s[i], plo, phi, flo, fhi) {
            hits(s.subrange(0, i), plo, phi, flo, fhi).push(s[i])
        } else {
            hits(s.subrange(0, i), plo, phi, flo, fhi)
        },
{
    reveal(Seq::filter);
    assert(s.subrange(0, i + 1).drop_last() =~= s.subrange(0, i));
}

proof fn lemma_hits_skip(s: Seq<Theoretical>, i: int, j: int, plo: i32, phi: i32, flo: i32, fhi: i32)
    requires
        0 <= i <= j <= s.len(),
        forall|k: int| i <= k < j ==> !hit(#[trigger] s[k], plo, phi, flo, fhi),
    ensures
        hits(s.subrange(0, j), plo, phi, flo, fhi) == hits(s.subrange(0, i), plo, phi, flo, fhi),
    decreases j - i,
{
    if j > i {
        lemma_hits_skip(s, i, j - 1, plo, phi, flo, fhi);
        lemma_hits_step(s, j - 1, plo, phi, flo, fhi);
    }
}

proof fn lemma_bucket_of(i: int)
    requires
        0 <= i,
    ensures
        in_bucket(i, i / (FRAGMENT_BUCKET_SIZE as int)),
        i / (FRAGMENT_BUCKET_SIZE as int) >= 0,
{
}

/// A record outside the buckets `[lb, rb]` that the search of the bucket
/// minimums gives for `[flo, fhi]` has its fragment m/z outside that window.
proof fn lemma_outside_buckets(db: &IndexedDatabase, lb: int, rb: int, flo: i32, fhi: i32, i: int)
    requires
        db.well_formed(),
        db.min_value@.len() > 0,
        is_left_index(db.min_value@, 0, db.min_value@.len() as int, flo, lb),
        is_right_index(db.min_value@, 0, db.min_value@.len() as int, fhi, rb),
        0 <= i < db.fragments@.len(),
        i < lb * (FRAGMENT_BUCKET_SIZE as int) || i >= (rb + 1) * (FRAGMENT_BUCKET_SIZE as int),
    ensures
        !(flo <= db.fragments@[i].fragment_mz <= fhi),
{
    let m = db.min_value@;
    let f = db.fragments@;
    let nb = m.len() as int;
    lemma_bucket_of(i);
    let c = i / (FRAGMENT_BUCKET_SIZE as int);
    assert(c < nb);
    assert(m[c] <= f[i].fragment_mz);
    if i < lb * (FRAGMENT_BUCKET_SIZE as int) {
        assert(c < lb);
        assert(f[i].fragment_mz <= m[c + 1]);
        assert(m[c + 1] <= m[lb]);
    } else {
        assert(c >= rb + 1);
        assert(m[rb + 1] <= m[c]);
    }
}

impl IndexedDatabase {
    /// What construction establishes and the query relies on.
    pub open spec fn well_formed(&self) -> bool {
        let f = self.fragments@;
        let m = self.min_value@;
        let n = f.len();
        let nb = m.len();
        let sz = FRAGMENT_BUCKET_SIZE as int;
        &&& sorted_by_mass(self.peptides@)
        &&& forall|i: int|
            0 <= i < n ==> record_fits(
                #[trigger] f[i],
                self.peptides@,
                self.fragment_min_mz,
                self.fragment_max_mz,
            )
        &&& nb * sz >= n
        &&& (nb == 0 || (nb - 1) * sz < n)
        &&& forall|a: int, c: int| 0 <= a <= c < nb ==> #[trigger] m[a] <= #[trigger] m[c]
        &&& forall|b: int, i: int|
            #![trigger in_bucket(i, b), f[i]]
            0 <= b < nb && in_bucket(i, b) && i < n ==> m[b] <= f[i].fragment_mz && (b + 1 < nb
                ==> f[i].fragment_mz <= m[b + 1])
        &&& forall|b: int| 0 <= b < nb ==> #[trigger] min_attained(f, m[b], b)
        &&& forall|b: int, i: int, j: int|
            #![trigger in_bucket(i, b), in_bucket(j, b)]
            in_bucket(i, b) && in_bucket(j, b) && 0 <= i <= j < n ==> f[i].precursor_mz
                <= f[j].precursor_mz
    }

    /// Builds the index from the candidate peptides: sorts them by neutral mass
    /// (a peptide's position is then its `PeptideIx`), makes one record for
    /// each ion whose m/z lies in `[fragment_min_mz, fragment_max_mz]`, sorts
    /// the records by fragment m/z, records the least fragment m/z of each
    /// bucket, and sorts each bucket by precursor mass.
    pub fn new(peptides: Vec<TargetDecoy>, fragment_min_mz: i32, fragment_max_mz: i32) -> (db:
        Self)
        requires
            peptides@.len() <= u32::MAX as int + 1,
        ensures
            db.well_formed(),
            db.peptides@.to_multiset() == peptides@.to_multiset(),
            db.fragments@.to_multiset() == records_upto(
                db.peptides@,
                db.peptides@.len() as int,
                fragment_min_mz,
                fragment_max_mz,
            ).to_multiset(),
            db.fragment_min_mz == fragment_min_mz,
            db.fragment_max_mz == fragment_max_mz,
            peptides@.len() == 0 ==> db.peptides@.len() == 0 && db.fragments@.len() == 0
                && db.min_value@.len() == 0,
    {
        let mut peptides = peptides;
        let ghost input = peptides@;
        sort_by_mass(&mut peptides);
        proof {
            broadcast use vstd::seq_lib::group_to_multiset_ensures;

            assert(peptides@.to_multiset().len() == input.to_multiset().len());
        }
        let ghost p = peptides@;
        let mut fragments: Vec<Theoretical> = Vec::new();
        let mut idx: usize = 0;
        while idx < peptides.len()
            invariant
                p == peptides@,
                idx <= p.len() <= u32::MAX as int + 1,
                fragments@ == records_upto(p, idx as int, fragment_min_mz, fragment_max_mz),
                forall|i: int|
                    0 <= i < fragments@.len() ==> record_fits(
                        #[trigger] fragments@[i],
                        p,
                        fragment_min_mz,
                        fragment_max_mz,
                    ),
            decreases p.len() - idx,
        {
            let peptide = peptides[idx].peptide();
            let ghost ions = peptide.ions@;
            let ghost base = fragments@;
            let mut j: usize = 0;
            while j < peptide.ions.len()
                invariant
                    p == peptides@,
                    idx < p.len() <= u32::MAX as int + 1,
                    *peptide == p[idx as int].spec_peptide(),
                    ions == peptide.ions@,
                    j <= ions.len(),
                    base == records_upto(p, idx as int, fragment_min_mz, fragment_max_mz),
                    fragments@ == base + ion_records(
                        p,
                        idx as int,
                        ions.subrange(0, j as int),
                        fragment_min_mz,
                        fragment_max_mz,
                    ),
                    forall|i: int|
                        0 <= i < fragments@.len() ==> record_fits(
                            #[trigger] fragments@[i],
                            p,
                            fragment_min_mz,
                            fragment_max_mz,
                        ),
                decreases ions.len() - j,
            {
                let ion = peptide.ions[j];
                proof {
                    assert(ions.subrange(0, j as int + 1).drop_last() =~= ions.subrange(0, j as int));
                }
                if ion.mz >= fragment_min_mz && ion.mz <= fragment_max_mz {
                    let frag = Theoretical {
                        peptide_index: PeptideIx(idx as u32),
                        precursor_mz: peptide.neutral,
                        fragment_mz: ion.mz,
                        kind: ion.kind,
                        charge: ion.charge,
                    };
                    proof {
                        assert(frag == record_of(p, idx as int, ion));
                    }
                    let ghost prev = fragments@;
                    fragments.push(frag);
                    proof {
                        assert(fragments@ =~= base + ion_records(
                            p,
                            idx as int,
                            ions.subrange(0, j as int + 1),
                            fragment_min_mz,
                            fragment_max_mz,
                        ));
                        assert forall|i: int| 0 <= i < fragments@.len() implies record_fits(
                            #[trigger] fragments@[i],
                            p,
                            fragment_min_mz,
                            fragment_max_mz,
                        ) by {
                            if i < prev.len() {
                                assert(fragments@[i] == prev[i]);
                            }
                        }
                    }
                }
                j += 1;
            }
            proof {
                assert(ions.subrange(0, ions.len() as int) =~= ions);
            }
            idx += 1;
        }
        let ghost generated = fragments@;
        sort_by_fragment(&mut fragments);
        let ghost sorted = fragments@;
        let n = fragments.len();
        let mut min_value: Vec<i32> = Vec::new();
        let mut start: usize = 0;
        let ghost sz = FRAGMENT_BUCKET_SIZE as int;
        while start < n
            invariant
                n == sorted.len(),
                fragments@ == sorted,
                start <= n,
                start < n ==> start == min_value@.len() * sz,
                start == n ==> min_value@.len() * sz >= n && (min_value@.len() == 0 || (
                min_value@.len() - 1) * sz < n),
                forall|b: int|
                    0 <= b < min_value@.len() ==> b * sz < n && #[trigger] min_value@[b]
                        == sorted[b * sz].fragment_mz,
                sz == FRAGMENT_BUCKET_SIZE,
            decreases n - start,
        {
            min_value.push(fragments[start].fragment_mz);
            if n - start <= FRAGMENT_BUCKET_SIZE {
                start = n;
            } else {
                start = start + FRAGMENT_BUCKET_SIZE;
            }
        }
        sort_buckets(&mut fragments);
        proof {
            broadcast use vstd::seq_lib::group_to_multiset_ensures;

            assert(sorted.to_multiset().len() == generated.to_multiset().len());
        }
        let db = IndexedDatabase {
            peptides,
            fragments,
            min_value,
            fragment_min_mz,
            fragment_max_mz,
        };
        proof {
            lemma_new_well_formed(&db, generated, sorted);
            if input.len() == 0 {
                assert(generated.len() == 0);
            }
        }
        db
    }

    /// A query against this database for the precursor window
    /// `[precursor_lo, precursor_hi]`.
    pub fn query(&self, precursor_lo: i32, precursor_hi: i32) -> (q: IndexedQuery<'_>)
        ensures
            q.db == self,
            q.precursor_lo == precursor_lo,
            q.precursor_hi == precursor_hi,
    {
        IndexedQuery { db: self, precursor_lo, precursor_hi }
    }

    /// Number of fragment records in the index.
    pub fn size(&self) -> (r: usize)
        ensures
            r == self.fragments@.len(),
    {
        self.fragments.len()
    }

    /// The peptide that `ix` names.
    pub fn index(&self, ix: PeptideIx) -> (r: &TargetDecoy)
        requires
            (ix.0 as int) < self.peptides@.len(),
        ensures
            *r == self.peptides@[ix.0 as int],
    {
        &self.peptides[ix.0 as usize]
    }

    /// Number of peptides in the index.
    pub fn peptide_count(&self) -> (r: usize)
        ensures
            r == self.peptides@.len(),
    {
        self.peptides.len()
    }

    /// The least fragment m/z of each bucket, in bucket order.
    pub fn bucket_minimums(&self) -> (r: &Vec<i32>)
        ensures
            r@ == self.min_value@,
    {
        &self.min_value
    }
}

/// One spectrum's view of a database: the database and the precursor window.
pub struct IndexedQuery<'d> {
    pub db: &'d IndexedDatabase,
    pub precursor_lo: i32,
    pub precursor_hi: i32,
}

impl<'d> IndexedQuery<'d> {
    /// The records that lie in the precursor window of the query and in the
    /// fragment window `[fragment_lo, fragment_hi]`, in storage order. The
    /// buckets are narrowed by a search of the bucket minimums, each bucket by
    /// a search on precursor mass, and what is left is filtered exactly.
    pub fn page_search(&self, fragment_lo: i32, fragment_hi: i32) -> (r: Vec<Theoretical>)
        requires
            self.db.well_formed(),
        ensures
            r@ == hits(
                self.db.fragments@,
                self.precursor_lo,
                self.precursor_hi,
                fragment_lo,
                fragment_hi,
            ),
    {
        let db = self.db;
        let plo = self.precursor_lo;
        let phi = self.precursor_hi;
        let ghost f = db.fragments@;
        let n = db.fragments.len();
        let mut out: Vec<Theoretical> = Vec::new();
        if db.min_value.len() == 0 {
            proof {
                reveal(Seq::filter);
                assert(f.subrange(0, 0) =~= f);
            }
            return out;
        }
        let (left_bucket, right_bucket) = binary_search_slice(
            db.min_value.as_slice(),
            fragment_lo,
            fragment_hi,
        );
        let frags = db.fragments.as_slice();
        let ghost sz = FRAGMENT_BUCKET_SIZE as int;
        proof {
            reveal(Seq::filter);
            assert(f.subrange(0, 0) =~= Seq::<Theoretical>::empty());
            assert forall|k: int| 0 <= k < left_bucket * sz implies !hit(
                #[trigger] f[k],
                plo,
                phi,
                fragment_lo,
                fragment_hi,
            ) by {
                lemma_outside_buckets(db, left_bucket as int, right_bucket as int, fragment_lo, fragment_hi, k);
            }
            lemma_hits_skip(f, 0, left_bucket * sz, plo, phi, fragment_lo, fragment_hi);
        }
        let mut b: usize = left_bucket;
        while b <= right_bucket
            invariant
                db.well_formed(),
                f == db.fragments@,
                frags@ == f,
                n == f.len(),
                sz == FRAGMENT_BUCKET_SIZE,
                is_left_index(db.min_value@, 0, db.min_value@.len() as int, fragment_lo, left_bucket as int),
                is_right_index(db.min_value@, 0, db.min_value@.len() as int, fragment_hi, right_bucket as int),
                left_bucket <= b,
                b <= right_bucket + 1 || b == left_bucket,
                b <= right_bucket ==> b * sz < n,
                out@ == hits(
                    f.subrange(0, bucket_start(b as int, n as int)),
                    plo,
                    phi,
                    fragment_lo,
                    fragment_hi,
                ),
            decreases right_bucket + 1 - b,
        {
            let start = b * FRAGMENT_BUCKET_SIZE;
            let end = if n - start < FRAGMENT_BUCKET_SIZE {
                n
            } else {
                start + FRAGMENT_BUCKET_SIZE
            };
            proof {
                assert forall|i: int, j: int|
                    start <= i <= j < end implies #[trigger] f[i].key_spec()
                        <= #[trigger] f[j].key_spec() by {
                    assert(in_bucket(i, b as int) && in_bucket(j, b as int));
                }
            }
            let (inner_left, inner_right) = search_range(frags, start, end, plo, phi);
            proof {
                assert forall|i: int|
                    start <= i < end && (i < inner_left || i > inner_right) implies !hit(
                    #[trigger] f[i],
                    plo,
                    phi,
                    fragment_lo,
                    fragment_hi,
                ) by {
                    assert(f[i].key_spec() == f[i].precursor_mz);
                }
                lemma_hits_skip(f, start as int, inner_left as int, plo, phi, fragment_lo, fragment_hi);
            }
            let mut k: usize = inner_left;
            while k <= inner_right
                invariant
                    f == db.fragments@,
                    frags@ == f,
                    inner_left <= k,
                    k <= inner_right + 1 || k == inner_left,
                    inner_right < end <= n,
                    n == f.len(),
                    out@ == hits(f.subrange(0, k as int), plo, phi, fragment_lo, fragment_hi),
                decreases inner_right + 1 - k,
            {
                let x = frags[k];
                proof {
                    lemma_hits_step(f, k as int, plo, phi, fragment_lo, fragment_hi);
                }
                if x.precursor_mz >= plo && x.precursor_mz <= phi && x.fragment_mz >= fragment_lo
                    && x.fragment_mz <= fragment_hi {
                    out.push(x);
                }
                k += 1;
            }
            proof {
                lemma_hits_skip(f, k as int, end as int, plo, phi, fragment_lo, fragment_hi);
                assert(bucket_start(b as int + 1, n as int) == end);
            }
            b += 1;
        }
        proof {
            let from = bucket_start(b as int, n as int);
            assert forall|k: int| from <= k < n implies !hit(
                #[trigger] f[k],
                plo,
                phi,
                fragment_lo,
                fragment_hi,
            ) by {
                lemma_outside_buckets(db, left_bucket as int, right_bucket as int, fragment_lo, fragment_hi, k);
            }
            lemma_hits_skip(f, from, n as int, plo, phi, fragment_lo, fragment_hi);
            assert(f.subrange(0, n as int) =~= f);
        }
        out
    }
}

/// In a built index the peptides are in non-decreasing order of neutral mass,
/// and within each bucket the records are in non-decreasing order of precursor
/// mass.
pub proof fn sort_invariant(db: &IndexedDatabase)
    requires
        db.well_formed(),
    ensures
        forall|i: int, j: int|
            0 <= i <= j < db.peptides@.len() ==> #[trigger] db.peptides@[i].spec_peptide().neutral
                <= #[trigger] db.peptides@[j].spec_peptide().neutral,
        forall|b: int, i: int, j: int|
            #![trigger in_bucket(i, b), in_bucket(j, b)]
            in_bucket(i, b) && in_bucket(j, b) && 0 <= i <= j < db.fragments@.len()
                ==> db.fragments@[i].precursor_mz <= db.fragments@[j].precursor_mz,
{
}

/// In a built index there is one minimum per bucket, and the minimum of bucket
/// `b` is the least fragment m/z of the records in bucket `b`: no record of
/// the bucket lies below it and one of them has it.
pub proof fn bucket_minimum(db: &IndexedDatabase, b: int)
    requires
        db.well_formed(),
        0 <= b,
        b * (FRAGMENT_BUCKET_SIZE as int) < db.fragments@.len(),
    ensures
        b < db.min_value@.len(),
        forall|i: int|
            in_bucket(i, b) && 0 <= i < db.fragments@.len() ==> db.min_value@[b]
                <= #[trigger] db.fragments@[i].fragment_mz,
        exists|i: int|
            in_bucket(i, b) && 0 <= i < db.fragments@.len() && #[trigger] db.fragments@[i].fragment_mz
                == db.min_value@[b],
{
    assert(min_attained(db.fragments@, db.min_value@[b], b));
}

/// Every record of a built index has its fragment m/z within the bounds the
/// index was built with.
pub proof fn bounds_containment(db: &IndexedDatabase, i: int)
    requires
        db.well_formed(),
        0 <= i < db.fragments@.len(),
    ensures
        db.fragment_min_mz <= db.fragments@[i].fragment_mz <= db.fragment_max_mz,
{
    assert(record_fits(db.fragments@[i], db.peptides@, db.fragment_min_mz, db.fragment_max_mz));
}

/// What a query returns is sound and complete: every record of it lies in both
/// windows and comes from the index, and every record of the index that lies
/// in both windows is in it.
pub proof fn query_sound_and_complete(db: &IndexedDatabase, plo: i32, phi: i32, flo: i32, fhi: i32)
    ensures
        forall|k: int|
            0 <= k < hits(db.fragments@, plo, phi, flo, fhi).len() ==> hit(
                #[trigger] hits(db.fragments@, plo, phi, flo, fhi)[k],
                plo,
                phi,
                flo,
                fhi,
            ) && db.fragments@.contains(hits(db.fragments@, plo, phi, flo, fhi)[k]),
        forall|i: int|
            0 <= i < db.fragments@.len() && hit(#[trigger] db.fragments@[i], plo, phi, flo, fhi)
                ==> hits(db.fragments@, plo, phi, flo, fhi).contains(db.fragments@[i]),
{
    let f = db.fragments@;
    let pred = |x: Theoretical| hit(x, plo, phi, flo, fhi);
    broadcast use vstd::seq_lib::group_filter_ensures;

    assert forall|i: int| 0 <= i < f.len() && hit(#[trigger] f[i], plo, phi, flo, fhi) implies hits(
        f,
        plo,
        phi,
        flo,
        fhi,
    ).contains(f[i]) by {
        assert(pred(f[i]));
    }
    let h = hits(f, plo, phi, flo, fhi);
    assert forall|k: int| 0 <= k < h.len() implies hit(#[trigger] h[k], plo, phi, flo, fhi)
        && f.contains(h[k]) by {
        assert(h.contains(h[k]));
        f.lemma_filter_contains_rev(pred, h[k]);
    }
}

/// A query is a function of the index and the windows: two searches with the
/// same windows against the same index return the same records in the same
/// order.
pub proof fn query_repeatable(q1: &IndexedQuery, q2: &IndexedQuery, r1: Seq<Theoretical>, r2: Seq<Theoretical>, flo: i32, fhi: i32)
    requires
        q1.db == q2.db,
        q1.precursor_lo == q2.precursor_lo,
        q1.precursor_hi == q2.precursor_hi,
        r1 == hits(q1.db.fragments@, q1.precursor_lo, q1.precursor_hi, flo, fhi),
        r2 == hits(q2.db.fragments@, q2.precursor_lo, q2.precursor_hi, flo, fhi),
    ensures
        r1 == r2,
{
}

} // verus!
