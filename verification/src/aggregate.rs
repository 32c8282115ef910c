use vstd::prelude::*;
use crate::record::{Outcome, PricedRecord};

verus! {

/// Why no total could be produced.
#[derive(Clone, Copy, Debug, PartialEq, Eq, Structural)]
pub enum TotalError {
    /// Some record carries a failure outcome instead of a price. The total
    /// aborts rather than silently skipping such records.
    Unpriced,
    /// The exact total does not fit in the result type.
    Overflow,
}

/// The quantity a record contributes with: its count, or one when absent.
pub open spec fn count_or_one(c: Option<u32>) -> int {
    match c {
        Some(k) => k as int,
        None => 1,
    }
}

/// Whether every record carries a price.
pub open spec fn all_priced(s: Seq<PricedRecord>) -> bool {
    forall|i: int| 0 <= i < s.len() ==> (#[trigger] s[i]).outcome is Priced
}

/// The value one record contributes to the total: unit price times quantity
/// for a priced record, zero for a failed one.
pub open spec fn record_value(r: PricedRecord) -> int {
    match r.outcome {
        Outcome::Priced(p) => p * count_or_one(r.count),
        Outcome::LookupFailed(_) => 0,
        Outcome::PriceUnavailable => 0,
    }
}

/// The exact total of a record sequence, in cents.
pub open spec fn spec_total(s: Seq<PricedRecord>) -> int
    decreases s.len(),
{
    if s.len() == 0 {
        0
    } else {
        spec_total(s.drop_last()) + record_value(s.last())
    }
}

/// Law: no record contributes a negative value to the total.
pub proof fn lemma_record_value_nonneg(r: PricedRecord)
    ensures
        record_value(r) >= 0,
{
    match r.outcome {
        Outcome::Priced(p) => {
            let c = count_or_one(r.count);
            assert(p * c >= 0) by (nonlinear_arith)
                requires
                    p >= 0,
                    c >= 0,
            ;
        },
        Outcome::LookupFailed(_) => {},
        Outcome::PriceUnavailable => {},
    }
}

/// Law: a prefix of a record sequence never totals more than a longer prefix.
pub proof fn lemma_total_prefix_monotone(s: Seq<PricedRecord>, i: int, j: int)
    requires
        0 <= i <= j <= s.len(),
    ensures
        spec_total(s.take(i)) <= spec_total(s.take(j)),
    decreases j - i,
{
    if i < j {
        lemma_total_prefix_monotone(s, i, j - 1);
        assert(s.take(j).drop_last() =~= s.take(j - 1));
        lemma_record_value_nonneg(s.take(j).last());
    }
}

/// Sums priced records into a run total, in cents: each record contributes
/// its unit price times its quantity (one when absent). A record that failed
/// to price aborts the total, and so does a total beyond the result type.
pub fn total(records: &Vec<PricedRecord>) -> (r: Result<u64, TotalError>)
    ensures
        r is Ok <==> all_priced(records@) && spec_total(records@) <= u64::MAX,
        match r {
            Ok(v) => v as int == spec_total(records@),
            Err(TotalError::Unpriced) => !all_priced(records@),
            Err(TotalError::Overflow) => all_priced(records@) && spec_total(records@) > u64::MAX,
        },
{
    let mut i: usize = 0;
    while i < records.len()
        invariant
            i <= records@.len(),
            forall|k: int| 0 <= k < i as int ==> (#[trigger] records@[k]).outcome is Priced,
        decreases records@.len() - i,
    {
        match records[i].outcome {
            Outcome::Priced(_) => {},
            Outcome::LookupFailed(_) => {
                return Err(TotalError::Unpriced);
            },
            Outcome::PriceUnavailable => {
                return Err(TotalError::Unpriced);
            },
        }
        i = i + 1;
    }
    proof {
        assert(all_priced(records@));
    }
    let mut acc: u64 = 0;
    let mut i: usize = 0;
    proof {
        assert(records@.take(0) =~= Seq::<PricedRecord>::empty());
    }
    while i < records.len()
        invariant
            all_priced(records@),
            i <= records@.len(),
            acc as int == spec_total(records@.take(i as int)),
        decreases records@.len() - i,
    {
        let p: u64 = match records[i].outcome {
            Outcome::Priced(p) => p,
            Outcome::LookupFailed(_) => {
                proof {
                    assert(records@[i as int].outcome is Priced);
                }
                0
            },
            Outcome::PriceUnavailable => {
                proof {
                    assert(records@[i as int].outcome is Priced);
                }
                0
            },
        };
        let cnt: u32 = match records[i].count {
            Some(c) => c,
            None => 1,
        };
        proof {
            assert((p as int) * (cnt as int) <= (u64::MAX as int) * (u32::MAX as int))
                by (nonlinear_arith)
                requires
                    0 <= p as int <= u64::MAX as int,
                    0 <= cnt as int <= u32::MAX as int,
            ;
        }
        let term: u128 = (p as u128) * (cnt as u128);
        proof {
            assert(term as int == record_value(records@[i as int]));
            assert(records@.take(i as int + 1).drop_last() =~= records@.take(i as int));
            assert(records@.take(i as int + 1).last() == records@[i as int]);
        }
        if term > ((u64::MAX - acc) as u128) {
            proof {
                assert(spec_total(records@.take(i as int + 1)) > u64::MAX);
                lemma_total_prefix_monotone(records@, i as int + 1, records@.len() as int);
                assert(records@.take(records@.len() as int) =~= records@);
            }
            return Err(TotalError::Overflow);
        }
        acc = acc + (term as u64);
        i = i + 1;
    }
    proof {
        assert(records@.take(records@.len() as int) =~= records@);
    }
    Ok(acc)
}

} // verus!
