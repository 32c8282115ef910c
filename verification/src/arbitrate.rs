use vstd::prelude::*;
use vstd::string::StringSliceAdditionalSpecFns;

verus! {

/// Byte-for-byte equality of two slices.
fn bytes_eq(a: &[u8], b: &[u8]) -> (r: bool)
    ensures
        r <==> a@ == b@,
{
    if a.len() != b.len() {
        return false;
    }
    let mut i: usize = 0;
    while i < a.len()
        invariant
            a@.len() == b@.len(),
            i <= a@.len(),
            forall|j: int| 0 <= j < i as int ==> a@[j] == b@[j],
        decreases a@.len() - i,
    {
        if a[i] != b[i] {
            return false;
        }
        i = i + 1;
    }
    proof {
        assert(a@ =~= b@);
    }
    true
}

/// Whether two strings hold the same characters. Equal byte encodings decode
/// to equal character sequences, and conversely.
fn str_eq(a: &str, b: &str) -> (r: bool)
    ensures
        r <==> a@ == b@,
{
    let r = bytes_eq(a.as_bytes(), b.as_bytes());
    proof {
        if a.spec_bytes() == b.spec_bytes() {
            vstd::utf8::encode_utf8_decode_utf8(a@);
            vstd::utf8::encode_utf8_decode_utf8(b@);
        }
    }
    r
}

/// The rule used to collapse several price candidates into one chosen price.
/// Exactly one strategy is configured per run and applied uniformly.
#[derive(Clone, Copy, Debug, PartialEq, Eq, Structural)]
pub enum ArbitrationStrategy {
    MinValue,
    MaxValue,
}

impl ArbitrationStrategy {
    /// Parses the configured strategy name. The short and the long form of
    /// each strategy are accepted; any other input is a configuration error,
    /// answered with `None` rather than a silent default.
    pub fn from_str(s: &str) -> (r: Option<ArbitrationStrategy>)
        ensures
            r == Some(ArbitrationStrategy::MinValue) <==> (s@ == "Min"@ || s@ == "MinValue"@),
            r == Some(ArbitrationStrategy::MaxValue) <==> (s@ == "Max"@ || s@ == "MaxValue"@),
            r is None <==> !(s@ == "Min"@ || s@ == "MinValue"@ || s@ == "Max"@ || s@
                == "MaxValue"@),
    {
        proof {
            reveal_strlit("Min");
            reveal_strlit("MinValue");
            reveal_strlit("Max");
            reveal_strlit("MaxValue");
            assert("Min"@.len() == 3 && "Max"@.len() == 3);
            assert("MinValue"@.len() == 8 && "MaxValue"@.len() == 8);
            assert("Min"@[1] == 'i' && "Max"@[1] == 'a');
            assert("MinValue"@[1] == 'i' && "MaxValue"@[1] == 'a');
        }
        if str_eq(s, "Min") || str_eq(s, "MinValue") {
            Some(ArbitrationStrategy::MinValue)
        } else if str_eq(s, "Max") || str_eq(s, "MaxValue") {
            Some(ArbitrationStrategy::MaxValue)
        } else {
            None
        }
    }
}

/// One price quoted by the pricing service for an identifier.
/// Prices are fixed-point amounts in cents, so they are exact and comparable.
#[derive(Clone, Copy, Debug, PartialEq, Eq, Structural)]
pub struct PriceCandidate {
    pub value: u64,
}

/// The least element of a non-empty sequence of prices.
pub open spec fn seq_min(s: Seq<u64>) -> u64
    recommends
        s.len() > 0,
    decreases s.len(),
{
    if s.len() <= 1 {
        s[0]
    } else {
        let m = seq_min(s.drop_last());
        if s.last() < m {
            s.last()
        } else {
            m
        }
    }
}

/// The greatest element of a non-empty sequence of prices.
pub open spec fn seq_max(s: Seq<u64>) -> u64
    recommends
        s.len() > 0,
    decreases s.len(),
{
    if s.len() <= 1 {
        s[0]
    } else {
        let m = seq_max(s.drop_last());
        if s.last() > m {
            s.last()
        } else {
            m
        }
    }
}

/// The price that arbitration chooses from a non-empty candidate set.
pub open spec fn spec_arbitrate(s: Seq<u64>, strategy: ArbitrationStrategy) -> u64 {
    match strategy {
        ArbitrationStrategy::MinValue => seq_min(s),
        ArbitrationStrategy::MaxValue => seq_max(s),
    }
}

/// The quoted values of a candidate sequence, in order.
pub open spec fn candidate_values(cs: Seq<PriceCandidate>) -> Seq<u64> {
    cs.map_values(|c: PriceCandidate| c.value)
}

/// Law: on a non-empty sequence, `seq_min` is no greater than every element
/// and equals some element.
pub proof fn lemma_seq_min_is_least(s: Seq<u64>)
    requires
        s.len() > 0,
    ensures
        forall|i: int| 0 <= i < s.len() ==> seq_min(s) <= s[i],
        exists|i: int| 0 <= i < s.len() && s[i] == seq_min(s),
    decreases s.len(),
{
    if s.len() == 1 {
        assert(s[0] == seq_min(s));
    } else {
        let t = s.drop_last();
        lemma_seq_min_is_least(t);
        assert(forall|i: int| 0 <= i < t.len() ==> t[i] == s[i]);
        if s.last() < seq_min(t) {
            assert(s[s.len() - 1] == seq_min(s));
        } else {
            let j = choose|j: int| 0 <= j < t.len() && t[j] == seq_min(t);
            assert(s[j] == seq_min(s));
        }
    }
}

/// Law: on a non-empty sequence, `seq_max` is no less than every element
/// and equals some element.
pub proof fn lemma_seq_max_is_greatest(s: Seq<u64>)
    requires
        s.len() > 0,
    ensures
        forall|i: int| 0 <= i < s.len() ==> seq_max(s) >= s[i],
        exists|i: int| 0 <= i < s.len() && s[i] == seq_max(s),
    decreases s.len(),
{
    if s.len() == 1 {
        assert(s[0] == seq_max(s));
    } else {
        let t = s.drop_last();
        lemma_seq_max_is_greatest(t);
        assert(forall|i: int| 0 <= i < t.len() ==> t[i] == s[i]);
        if s.last() > seq_max(t) {
            assert(s[s.len() - 1] == seq_max(s));
        } else {
            let j = choose|j: int| 0 <= j < t.len() && t[j] == seq_max(t);
            assert(s[j] == seq_max(s));
        }
    }
}

/// Law: a singleton candidate set gives the same chosen price under either
/// strategy, namely its only value.
pub proof fn lemma_arbitrate_singleton(v: u64)
    ensures
        spec_arbitrate(seq![v], ArbitrationStrategy::MinValue) == v,
        spec_arbitrate(seq![v], ArbitrationStrategy::MaxValue) == v,
{
    assert(seq![v].len() == 1);
    assert(seq![v][0] == v);
}

/// Deterministically selects one price from a non-empty candidate set:
/// the least quoted value under `MinValue`, the greatest under `MaxValue`.
/// The chosen price is always one of the quoted values.
pub fn arbitrate(candidates: &Vec<PriceCandidate>, strategy: ArbitrationStrategy) -> (price: u64)
    requires
        candidates@.len() > 0,
    ensures
        price == spec_arbitrate(candidate_values(candidates@), strategy),
        exists|i: int| 0 <= i < candidates@.len() && candidates@[i].value == price,
        strategy == ArbitrationStrategy::MinValue ==> forall|i: int|
            0 <= i < candidates@.len() ==> price <= candidates@[i].value,
        strategy == ArbitrationStrategy::MaxValue ==> forall|i: int|
            0 <= i < candidates@.len() ==> price >= candidates@[i].value,
{
    let mut best: u64 = candidates[0].value;
    let mut i: usize = 1;
    proof {
        assert(candidate_values(candidates@.take(1)) =~= seq![candidates@[0].value]);
    }
    while i < candidates.len()
        invariant
            1 <= i <= candidates@.len(),
            best == spec_arbitrate(candidate_values(candidates@.take(i as int)), strategy),
        decreases candidates@.len() - i,
    {
        let c = candidates[i].value;
        proof {
            let vs = candidate_values(candidates@.take(i as int + 1));
            assert(vs.drop_last() =~= candidate_values(candidates@.take(i as int)));
            assert(vs.last() == c);
        }
        match strategy {
            ArbitrationStrategy::MinValue => {
                if c < best {
                    best = c;
                }
            },
            ArbitrationStrategy::MaxValue => {
                if c > best {
                    best = c;
                }
            },
        }
        i = i + 1;
    }
    proof {
        assert(candidates@.take(candidates@.len() as int) =~= candidates@);
        let vs = candidate_values(candidates@);
        match strategy {
            ArbitrationStrategy::MinValue => {
                lemma_seq_min_is_least(vs);
                assert forall|k: int| 0 <= k < candidates@.len() implies best
                    <= candidates@[k].value by {
                    assert(vs[k] == candidates@[k].value);
                }
            },
            ArbitrationStrategy::MaxValue => {
                lemma_seq_max_is_greatest(vs);
                assert forall|k: int| 0 <= k < candidates@.len() implies best
                    >= candidates@[k].value by {
                    assert(vs[k] == candidates@[k].value);
                }
            },
        }
        let j = choose|j: int| 0 <= j < vs.len() && vs[j] == best;
        assert(candidates@[j].value == best);
    }
    best
}

} // verus!
