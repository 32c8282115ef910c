use vstd::prelude::*;
use crate::arbitrate::{arbitrate, candidate_values, spec_arbitrate, ArbitrationStrategy};
use crate::arbitrate::PriceCandidate;
use crate::record::{lookup_view, LookupError, LookupResult, Outcome, PricedRecord, Record};

verus! {

/// The outcome the pipeline owes for one record, given what its lookup call
/// handed back: the error on a failed call, `PriceUnavailable` on an empty
/// candidate set, and the arbitrated price otherwise.
pub open spec fn spec_price_outcome(
    res: Result<Seq<PriceCandidate>, LookupError>,
    strategy: ArbitrationStrategy,
) -> Outcome {
    match res {
        Err(e) => Outcome::LookupFailed(e),
        Ok(cands) => if cands.len() == 0 {
            Outcome::PriceUnavailable
        } else {
            Outcome::Priced(spec_arbitrate(candidate_values(cands), strategy))
        },
    }
}

/// Turns one record and the result of its lookup call into the record's
/// terminal outcome: per-record failures are recorded, never propagated,
/// and a non-empty candidate set is arbitrated into one price.
pub fn price_record(record: Record, lookup: LookupResult, strategy: ArbitrationStrategy) -> (out:
    PricedRecord)
    ensures
        out.identifier == record.identifier,
        out.count == record.count,
        out.outcome == spec_price_outcome(lookup_view(lookup), strategy),
{
    let outcome = match lookup {
        Err(e) => Outcome::LookupFailed(e),
        Ok(candidates) => {
            if candidates.len() == 0 {
                Outcome::PriceUnavailable
            } else {
                Outcome::Priced(arbitrate(&candidates, strategy))
            }
        },
    };
    PricedRecord { identifier: record.identifier, count: record.count, outcome }
}

/// Whether `out` is, element by element, the priced form of `records` under
/// `lookups`: same identifiers and counts in the same order, each outcome
/// owed by `spec_price_outcome`.
pub open spec fn reconciled(
    records: Seq<Record>,
    lookups: Seq<LookupResult>,
    strategy: ArbitrationStrategy,
    out: Seq<PricedRecord>,
) -> bool {
    &&& out.len() == records.len()
    &&& forall|i: int|
        0 <= i < out.len() ==> {
            &&& (#[trigger] out[i]).identifier == records[i].identifier
            &&& out[i].count == records[i].count
            &&& out[i].outcome == spec_price_outcome(lookup_view(lookups[i]), strategy)
        }
}

/// Prices a whole input stream: one lookup result per input record, in input
/// order. Every record yields exactly one output record, success or failure,
/// and output order equals input order.
pub fn reconcile(
    records: Vec<Record>,
    lookups: Vec<LookupResult>,
    strategy: ArbitrationStrategy,
) -> (out: Vec<PricedRecord>)
    requires
        lookups@.len() == records@.len(),
    ensures
        reconciled(records@, lookups@, strategy, out@),
{
    let ghost orig_records = records@;
    let ghost orig_lookups = lookups@;
    let mut records = records;
    let mut lookups = lookups;
    let mut out: Vec<PricedRecord> = Vec::new();
    proof {
        assert(records@ =~= orig_records.skip(0));
        assert(lookups@ =~= orig_lookups.skip(0));
    }
    while records.len() > 0
        invariant
            orig_lookups.len() == orig_records.len(),
            out@.len() + records@.len() == orig_records.len(),
            lookups@.len() == records@.len(),
            records@ == orig_records.skip(out@.len() as int),
            lookups@ == orig_lookups.skip(out@.len() as int),
            forall|i: int|
                0 <= i < out@.len() ==> {
                    &&& (#[trigger] out@[i]).identifier == orig_records[i].identifier
                    &&& out@[i].count == orig_records[i].count
                    &&& out@[i].outcome == spec_price_outcome(
                        lookup_view(orig_lookups[i]),
                        strategy,
                    )
                },
        decreases records@.len(),
    {
        let ghost k = out@.len() as int;
        let rec = records.remove(0);
        let lk = lookups.remove(0);
        proof {
            assert(rec == orig_records[k]);
            assert(lk == orig_lookups[k]);
            assert(records@ =~= orig_records.skip(k + 1));
            assert(lookups@ =~= orig_lookups.skip(k + 1));
        }
        let pr = price_record(rec, lk, strategy);
        out.push(pr);
    }
    out
}

/// Whether the pair `p` occurs somewhere in `c`.
pub open spec fn appears_in<T>(c: Seq<(usize, T)>, p: (usize, T)) -> bool {
    exists|j: int| 0 <= j < c.len() && c[j] == p
}

/// Whether some pair in `c` carries the original index `k`.
pub open spec fn has_index<T>(c: Seq<(usize, T)>, k: int) -> bool {
    exists|j: int| 0 <= j < c.len() && (#[trigger] c[j]).0 as int == k
}

/// Whether some pair in `c` carries the original index `k` together with the
/// item `v`.
pub open spec fn holds_at<T>(c: Seq<(usize, T)>, k: int, v: T) -> bool {
    exists|j: int| 0 <= j < c.len() && (#[trigger] c[j]).0 as int == k && c[j].1 == v
}

/// Law: the reordered output is determined by the `(original index, item)`
/// pairs alone, never by the order in which completions arrived: any two
/// output sequences that both match a completion set carrying each index once
/// are equal.
pub proof fn lemma_collect_deterministic<T>(
    c: Seq<(usize, T)>,
    n: int,
    out1: Seq<T>,
    out2: Seq<T>,
)
    requires
        out1.len() == n,
        out2.len() == n,
        forall|j1: int, j2: int|
            0 <= j1 < j2 < c.len() ==> (#[trigger] c[j1]).0 != (#[trigger] c[j2]).0,
        forall|k: int| 0 <= k < n ==> holds_at(c, k, out1[k]),
        forall|k: int| 0 <= k < n ==> holds_at(c, k, out2[k]),
    ensures
        out1 == out2,
{
    assert forall|k: int| 0 <= k < n implies out1[k] == out2[k] by {
        assert(holds_at(c, k, out1[k]));
        assert(holds_at(c, k, out2[k]));
        let j1 = choose|j: int| 0 <= j < c.len() && (#[trigger] c[j]).0 as int == k && c[j].1
            == out1[k];
        let j2 = choose|j: int| 0 <= j < c.len() && (#[trigger] c[j]).0 as int == k && c[j].1
            == out2[k];
        if j1 != j2 {
            assert(c[j1].0 != c[j2].0);
        }
    }
    assert(out1 =~= out2);
}

/// Restores input order after concurrent completion: given the expected
/// number of slots and one `(original index, item)` pair per slot, in any
/// completion order, returns the items arranged by original index.
pub fn collect_in_order<T>(n: usize, completions: Vec<(usize, T)>) -> (out: Vec<T>)
    requires
        completions@.len() == n as int,
        forall|k: int| 0 <= k < n as int ==> has_index(completions@, k),
    ensures
        out@.len() == n as int,
        forall|k: int| 0 <= k < n as int ==> holds_at(completions@, k, out@[k]),
{
    let ghost orig = completions@;
    let mut remaining = completions;
    let mut out: Vec<T> = Vec::new();
    let mut i: usize = 0;
    proof {
        assert forall|j: int| 0 <= j < remaining@.len() implies appears_in(
            orig,
            #[trigger] remaining@[j],
        ) by {
            assert(orig[j] == remaining@[j]);
        }
    }
    while i < n
        invariant
            out@.len() == i as int,
            i <= n,
            forall|j: int| 0 <= j < remaining@.len() ==> appears_in(orig, #[trigger] remaining@[j]),
            forall|k: int| i as int <= k < n as int ==> has_index(remaining@, k),
            forall|k: int| 0 <= k < i as int ==> holds_at(orig, k, out@[k]),
        decreases n - i,
    {
        let mut j: usize = 0;
        proof {
            assert(has_index(remaining@, i as int));
        }
        while j < remaining.len() && remaining[j].0 != i
            invariant
                j <= remaining@.len(),
                forall|j2: int| 0 <= j2 < j as int ==> (#[trigger] remaining@[j2]).0 != i,
                has_index(remaining@, i as int),
            decreases remaining@.len() - j,
        {
            j = j + 1;
        }
        proof {
            let jw = choose|jw: int|
                0 <= jw < remaining@.len() && (#[trigger] remaining@[jw]).0 as int == i as int;
            assert(j as int <= jw);
            assert(j < remaining@.len());
        }
        let ghost old_rem = remaining@;
        let ghost jr = j as int;
        let pair = remaining.remove(j);
        out.push(pair.1);
        proof {
            old_rem.remove_ensures(jr);
            assert(pair == old_rem[jr]);
            assert(pair.0 as int == i as int);
            assert forall|j2: int| 0 <= j2 < remaining@.len() implies appears_in(
                orig,
                #[trigger] remaining@[j2],
            ) by {
                if j2 < jr {
                    assert(appears_in(orig, old_rem[j2]));
                    assert(remaining@[j2] == old_rem[j2]);
                } else {
                    assert(appears_in(orig, old_rem[j2 + 1]));
                    assert(remaining@[j2] == old_rem[j2 + 1]);
                }
            }
            assert forall|k: int| i as int + 1 <= k < n as int implies has_index(
                remaining@,
                k,
            ) by {
                assert(has_index(old_rem, k));
                let jw2 = choose|jw2: int|
                    0 <= jw2 < old_rem.len() && (#[trigger] old_rem[jw2]).0 as int == k;
                assert(jw2 != jr);
                if jw2 < jr {
                    assert(remaining@[jw2] == old_rem[jw2]);
                } else {
                    assert(remaining@[jw2 - 1] == old_rem[jw2]);
                }
            }
            assert(appears_in(orig, old_rem[jr]));
            let j0 = choose|j0: int| 0 <= j0 < orig.len() && orig[j0] == old_rem[jr];
            assert(orig[j0].0 as int == i as int && orig[j0].1 == out@[i as int]);
            assert(holds_at(orig, i as int, out@[i as int]));
        }
        i = i + 1;
    }
    out
}

} // verus!
