//! Candidate peptide sequences from digestion: the length filter and the
//! removal of repeated sequences.
use vstd::prelude::*;

verus! {

/// Fewest residues a candidate peptide may have.
pub const MIN_PEPTIDE_LEN: usize = 7;

/// Most residues a candidate peptide may have.
pub const MAX_PEPTIDE_LEN: usize = 50;

/// A peptide sequence that digestion produced, and whether it came from a
/// reversed protein sequence.
pub struct Digest {
    pub sequence: Vec<u8>,
    pub reversed: bool,
}

/// What identifies a digest: its residues and its reversal flag.
pub open spec fn digest_key(d: Digest) -> (Seq<u8>, bool) {
    (d.sequence@, d.reversed)
}

/// The digest has an admissible number of residues.
pub open spec fn admissible(d: Digest) -> bool {
    MIN_PEPTIDE_LEN <= d.sequence@.len() <= MAX_PEPTIDE_LEN
}

/// Some digest of `s` has the key `k`.
pub open spec fn has_key(s: Seq<Digest>, k: (Seq<u8>, bool)) -> bool {
    exists|i: int| 0 <= i < s.len() && #[trigger] digest_key(s[i]) == k
}

fn same_digest(a: &Digest, b: &Digest) -> (r: bool)
    ensures
        r == (digest_key(*a) == digest_key(*b)),
{
    if a.reversed != b.reversed || a.sequence.len() != b.sequence.len() {
        return false;
    }
    let mut i: usize = 0;
    while i < a.sequence.len()
        invariant
            a.sequence@.len() == b.sequence@.len(),
            i <= a.sequence@.len(),
            forall|k: int| 0 <= k < i ==> a.sequence@[k] == b.sequence@[k],
        decreases a.sequence@.len() - i,
    {
        if a.sequence[i] != b.sequence[i] {
            return false;
        }
        i += 1;
    }
    proof {
        assert(a.sequence@ =~= b.sequence@);
    }
    true
}

/// Relies on std's `slice::sort_by` with the lexicographic order of
/// (residues, reversal flag), a total order: the digests are reordered so that
/// digests with equal residues and flag stand next to each other.
#[verifier::external_body]
fn group_equal(v: &mut Vec<Digest>)
    ensures
        final(v)@.to_multiset() == old(v)@.to_multiset(),
        forall|i: int, k: int, j: int|
            0 <= i < k < j < final(v)@.len() && digest_key(#[trigger] final(v)@[i]) == digest_key(
                #[trigger] final(v)@[j],
            ) ==> digest_key(#[trigger] final(v)@[k]) == digest_key(final(v)@[i]),
{
    v.sort_by(|a, b| (&a.sequence, a.reversed).cmp(&(&b.sequence, b.reversed)));
}

/// The candidates among `digests`: those of admissible length, each residue
/// sequence and flag once, in no particular order.
pub fn unique_candidates(digests: Vec<Digest>) -> (r: Vec<Digest>)
    ensures
        forall|i: int, j: int|
            0 <= i < j < r@.len() ==> digest_key(#[trigger] r@[i]) != digest_key(#[trigger] r@[j]),
        forall|i: int|
            0 <= i < r@.len() ==> admissible(#[trigger] r@[i]) && has_key(
                digests@,
                digest_key(r@[i]),
            ),
        forall|k: int|
            0 <= k < digests@.len() && admissible(#[trigger] digests@[k]) ==> has_key(
                r@,
                digest_key(digests@[k]),
            ),
{
    let ghost input = digests@;
    let mut rest = digests;
    let mut kept: Vec<Digest> = Vec::new();
    while rest.len() > 0
        invariant
            rest@ == input.subrange(0, rest@.len() as int),
            rest@.len() <= input.len(),
            forall|i: int|
                0 <= i < kept@.len() ==> admissible(#[trigger] kept@[i]) && exists|k: int|
                    rest@.len() <= k < input.len() && input[k] == kept@[i],
            forall|k: int|
                rest@.len() <= k < input.len() && admissible(#[trigger] input[k]) ==> kept@.contains(
                    input[k],
                ),
        decreases rest@.len(),
    {
        let d = rest.pop().unwrap();
        proof {
            assert(d == input[rest@.len() as int]);
        }
        if d.sequence.len() >= MIN_PEPTIDE_LEN && d.sequence.len() <= MAX_PEPTIDE_LEN {
            let ghost before = kept@;
            kept.push(d);
            proof {
                assert(kept@[before.len() as int] == input[rest@.len() as int]);
                assert forall|k: int|
                    rest@.len() <= k < input.len() && admissible(#[trigger] input[k]) implies kept@.contains(
                    input[k],
                ) by {
                    if k > rest@.len() {
                        let m = choose|m: int| 0 <= m < before.len() && before[m] == input[k];
                        assert(kept@[m] == input[k]);
                    } else {
                        assert(kept@[before.len() as int] == input[k]);
                    }
                }
                assert forall|i: int| 0 <= i < kept@.len() implies admissible(#[trigger] kept@[i]) && exists|k: int|
                    rest@.len() <= k < input.len() && input[k] == kept@[i] by {
                    if i < before.len() {
                        assert(kept@[i] == before[i]);
                    } else {
                        assert(input[rest@.len() as int] == kept@[i]);
                    }
                }
            }
        }
    }
    let ghost filtered = kept@;
    group_equal(&mut kept);
    let ghost grouped = kept@;
    let mut out: Vec<Digest> = Vec::new();
    while kept.len() > 0
        invariant
            kept@ == grouped.subrange(0, kept@.len() as int),
            kept@.len() <= grouped.len(),
            forall|i: int, k: int, j: int|
                0 <= i < k < j < grouped.len() && digest_key(#[trigger] grouped[i]) == digest_key(
                    #[trigger] grouped[j],
                ) ==> digest_key(#[trigger] grouped[k]) == digest_key(grouped[i]),
            forall|i: int, j: int|
                0 <= i < j < out@.len() ==> digest_key(#[trigger] out@[i]) != digest_key(
                    #[trigger] out@[j],
                ),
            forall|i: int|
                0 <= i < out@.len() ==> exists|k: int|
                    kept@.len() <= k < grouped.len() && digest_key(grouped[k]) == digest_key(
                        #[trigger] out@[i],
                    ),
            forall|k: int|
                kept@.len() <= k < grouped.len() ==> has_key(out@, digest_key(#[trigger] grouped[k])),
            kept@.len() < grouped.len() ==> out@.len() > 0 && digest_key(out@.last()) == digest_key(
                grouped[kept@.len() as int],
            ),
        decreases kept@.len(),
    {
        let d = kept.pop().unwrap();
        let ghost at = kept@.len() as int;
        proof {
            assert(d == grouped[at]);
        }
        let fresh = out.len() == 0 || !same_digest(&d, &out[out.len() - 1]);
        if fresh {
            let ghost before = out@;
            proof {
                assert forall|i: int| 0 <= i < before.len() implies digest_key(before[i]) != digest_key(d) by {
                    let k = choose|k: int|
                        at + 1 <= k < grouped.len() && digest_key(grouped[k]) == digest_key(
                            #[trigger] before[i],
                        );
                    if digest_key(before[i]) == digest_key(d) {
                        if k > at + 1 {
                            assert(digest_key(grouped[at + 1]) == digest_key(grouped[at]));
                        }
                    }
                }
            }
            out.push(d);
            proof {
                assert(out@[before.len() as int] == d);
                assert forall|i: int| 0 <= i < out@.len() implies exists|k: int|
                    at <= k < grouped.len() && digest_key(grouped[k]) == digest_key(
                        #[trigger] out@[i],
                    ) by {
                    if i < before.len() {
                        assert(out@[i] == before[i]);
                    } else {
                        assert(digest_key(grouped[at]) == digest_key(out@[i]));
                    }
                }
                assert forall|k: int| at <= k < grouped.len() implies has_key(out@, digest_key(#[trigger] grouped[k])) by {
                    if k == at {
                        assert(digest_key(out@[before.len() as int]) == digest_key(grouped[k]));
                    } else {
                        let m = choose|m: int| 0 <= m < before.len() && #[trigger] digest_key(before[m]) == digest_key(grouped[k]);
                        assert(digest_key(out@[m]) == digest_key(grouped[k]));
                    }
                }
            }
        } else {
            proof {
                assert(has_key(out@, digest_key(grouped[at])) ) by {
                    assert(digest_key(out@[out@.len() - 1]) == digest_key(grouped[at]));
                }
            }
        }
    }
    proof {
        broadcast use vstd::seq_lib::group_to_multiset_ensures;

        assert forall|i: int| 0 <= i < out@.len() implies admissible(#[trigger] out@[i]) && has_key(
            input,
            digest_key(out@[i]),
        ) by {
            let k = choose|k: int| 0 <= k < grouped.len() && digest_key(grouped[k]) == digest_key(
                #[trigger] out@[i],
            );
            assert(grouped.contains(grouped[k]));
            vstd::seq_lib::to_multiset_contains(grouped, grouped[k]);
            vstd::seq_lib::to_multiset_contains(filtered, grouped[k]);
            let m = choose|m: int| 0 <= m < filtered.len() && filtered[m] == grouped[k];
            assert(admissible(filtered[m]));
            let q = choose|q: int| 0 <= q < input.len() && input[q] == filtered[m];
            assert(digest_key(input[q]) == digest_key(out@[i]));
        }
        assert forall|k: int| 0 <= k < input.len() && admissible(#[trigger] input[k]) implies has_key(
            out@,
            digest_key(input[k]),
        ) by {
            assert(filtered.contains(input[k]));
            vstd::seq_lib::to_multiset_contains(filtered, input[k]);
            vstd::seq_lib::to_multiset_contains(grouped, input[k]);
            let m = choose|m: int| 0 <= m < grouped.len() && grouped[m] == input[k];
            assert(has_key(out@, digest_key(grouped[m])));
        }
    }
    out
}

} // verus!
