use vstd::prelude::*;

verus! {

/// Why a quoted price string was rejected.
#[derive(Clone, Copy, Debug, PartialEq, Eq, Structural)]
pub enum PriceParseError {
    /// The text is not a decimal price of the accepted shape.
    Malformed,
    /// The price is beyond what the fixed-point representation can hold.
    TooLarge,
}

/// Whether `b` is the code of a decimal digit.
pub open spec fn is_digit(b: u8) -> bool {
    48 <= b <= 57
}

/// The numeric value of a digit code.
pub open spec fn digit_val(b: u8) -> int {
    b - 48
}

/// Whether `s` is a non-empty run of decimal digits.
pub open spec fn all_digits(s: Seq<u8>) -> bool {
    s.len() > 0 && forall|i: int| 0 <= i < s.len() ==> is_digit(#[trigger] s[i])
}

/// The number denoted by a run of decimal digits, most significant first.
pub open spec fn digits_val(s: Seq<u8>) -> int
    decreases s.len(),
{
    if s.len() == 0 {
        0
    } else {
        digits_val(s.drop_last()) * 10 + digit_val(s.last())
    }
}

/// Whether position `d` splits `s` into a digit run, a decimal point, and a
/// fraction of one or two digits.
pub open spec fn valid_split(s: Seq<u8>, d: int) -> bool {
    &&& 1 <= d < s.len()
    &&& s[d] == 46
    &&& all_digits(s.take(d))
    &&& all_digits(s.skip(d + 1))
    &&& s.len() - (d + 1) <= 2
}

/// Whether `s` is a well-formed decimal price: a digit run, optionally
/// followed by a decimal point and one or two fraction digits.
pub open spec fn valid_price(s: Seq<u8>) -> bool {
    all_digits(s) || exists|d: int| valid_split(s, d)
}

/// What a one- or two-digit fraction is worth in cents per unit value.
pub open spec fn frac_scale(len: int) -> int {
    if len == 1 {
        10
    } else {
        1
    }
}

/// The amount in cents that a well-formed decimal price denotes.
pub open spec fn price_cents(s: Seq<u8>) -> int
    recommends
        valid_price(s),
{
    if all_digits(s) {
        digits_val(s) * 100
    } else {
        let d = choose|d: int| valid_split(s, d);
        digits_val(s.take(d)) * 100 + digits_val(s.skip(d + 1)) * frac_scale(s.len() - (d + 1))
    }
}

/// Law: a run of digits denotes a non-negative number.
pub proof fn lemma_digits_val_nonneg(s: Seq<u8>)
    requires
        forall|i: int| 0 <= i < s.len() ==> is_digit(#[trigger] s[i]),
    ensures
        digits_val(s) >= 0,
    decreases s.len(),
{
    if s.len() > 0 {
        assert(forall|i: int|
            0 <= i < s.drop_last().len() ==> is_digit(#[trigger] s.drop_last()[i]));
        lemma_digits_val_nonneg(s.drop_last());
    }
}

/// Law: a longer prefix of a digit run never denotes a smaller number.
pub proof fn lemma_digits_prefix_monotone(s: Seq<u8>, i: int, j: int)
    requires
        forall|k: int| 0 <= k < s.len() ==> is_digit(#[trigger] s[k]),
        0 <= i <= j <= s.len(),
    ensures
        digits_val(s.take(i)) <= digits_val(s.take(j)),
    decreases j - i,
{
    if i < j {
        lemma_digits_prefix_monotone(s, i, j - 1);
        assert(s.take(j).drop_last() =~= s.take(j - 1));
        assert(forall|k: int| 0 <= k < s.take(j - 1).len() ==> is_digit(#[trigger] s.take(j - 1)[k]));
        lemma_digits_val_nonneg(s.take(j - 1));
        assert(digits_val(s.take(j)) == digits_val(s.take(j - 1)) * 10 + digit_val(s[j - 1]));
    }
}

/// Parses the digit run `s[from..to]` into a number. The run must be
/// non-empty digits, and the number must fit the result type.
fn parse_digits(s: &[u8], from: usize, to: usize) -> (r: Result<u64, PriceParseError>)
    requires
        from <= to <= s@.len(),
    ensures
        r is Ok <==> all_digits(s@.subrange(from as int, to as int)) && digits_val(
            s@.subrange(from as int, to as int),
        ) <= u64::MAX,
        match r {
            Ok(v) => v as int == digits_val(s@.subrange(from as int, to as int)),
            Err(PriceParseError::Malformed) => !all_digits(
                s@.subrange(from as int, to as int),
            ),
            Err(PriceParseError::TooLarge) => all_digits(s@.subrange(from as int, to as int))
                && digits_val(s@.subrange(from as int, to as int)) > u64::MAX,
        },
{
    let ghost sub = s@.subrange(from as int, to as int);
    if from == to {
        return Err(PriceParseError::Malformed);
    }
    let mut i: usize = from;
    while i < to
        invariant
            from <= i <= to <= s@.len(),
            sub == s@.subrange(from as int, to as int),
            forall|k: int| 0 <= k < i - from ==> is_digit(#[trigger] sub[k]),
        decreases to - i,
    {
        let b = s[i];
        if b < 48 || b > 57 {
            proof {
                assert(sub[i - from] == s@[i as int]);
                assert(!all_digits(sub));
            }
            return Err(PriceParseError::Malformed);
        }
        i = i + 1;
    }
    proof {
        assert(all_digits(sub));
    }
    let mut acc: u64 = 0;
    let mut i: usize = from;
    proof {
        assert(sub.take(0) =~= Seq::<u8>::empty());
    }
    while i < to
        invariant
            from <= i <= to <= s@.len(),
            sub == s@.subrange(from as int, to as int),
            all_digits(sub),
            acc as int == digits_val(sub.take(i - from)),
        decreases to - i,
    {
        let b = s[i];
        proof {
            assert(sub[i - from] == s@[i as int]);
            assert(is_digit(b));
        }
        let d: u64 = (b - 48) as u64;
        let next: u128 = 10 * (acc as u128) + (d as u128);
        proof {
            assert(sub.take(i - from + 1).drop_last() =~= sub.take(i - from));
            assert(sub.take(i - from + 1).last() == sub[i - from]);
            assert(next as int == digits_val(sub.take(i - from + 1)));
        }
        if next > (u64::MAX as u128) {
            proof {
                lemma_digits_prefix_monotone(sub, i - from + 1, sub.len() as int);
                assert(sub.take(sub.len() as int) =~= sub);
            }
            return Err(PriceParseError::TooLarge);
        }
        acc = next as u64;
        i = i + 1;
    }
    proof {
        assert(sub.take(sub.len() as int) =~= sub);
    }
    Ok(acc)
}

/// Law: if `s` splits at `d`, then `d` is its only split point: everything
/// before a split point is a digit, and a decimal point is not one.
pub proof fn lemma_split_unique(s: Seq<u8>, d1: int, d2: int)
    requires
        valid_split(s, d1),
        valid_split(s, d2),
    ensures
        d1 == d2,
{
    if d1 < d2 {
        assert(s.take(d2)[d1] == s[d1]);
        assert(is_digit(s[d1]));
    } else if d2 < d1 {
        assert(s.take(d1)[d2] == s[d2]);
        assert(is_digit(s[d2]));
    }
}

/// Parses a quoted decimal price into cents: `"3"` and `"3.00"` denote 300,
/// `"1.5"` denotes 150. A price of any other shape is malformed, and one
/// beyond the result type is too large.
pub fn parse_price(s: &[u8]) -> (r: Result<u64, PriceParseError>)
    ensures
        r is Ok <==> valid_price(s@) && price_cents(s@) <= u64::MAX,
        match r {
            Ok(v) => v as int == price_cents(s@),
            Err(PriceParseError::Malformed) => !valid_price(s@),
            Err(PriceParseError::TooLarge) => valid_price(s@) && price_cents(s@) > u64::MAX,
        },
{
    let mut i: usize = 0;
    while i < s.len() && s[i] != 46
        invariant
            i <= s@.len(),
            forall|j: int| 0 <= j < i as int ==> s@[j] != 46,
        decreases s@.len() - i,
    {
        i = i + 1;
    }
    if i == s.len() {
        // no decimal point anywhere: the whole text must be a digit run
        proof {
            assert forall|d: int| !valid_split(s@, d) by {
                if 0 <= d < s@.len() {
                    assert(s@[d] != 46);
                }
            }
            assert(s@.subrange(0, s@.len() as int) =~= s@);
        }
        match parse_digits(s, 0, s.len()) {
            Ok(v) => {
                proof {
                    assert(valid_price(s@));
                }
                let cents: u128 = (v as u128) * 100;
                if cents > (u64::MAX as u128) {
                    Err(PriceParseError::TooLarge)
                } else {
                    Ok(cents as u64)
                }
            },
            Err(PriceParseError::Malformed) => {
                proof {
                    assert(!valid_price(s@));
                }
                Err(PriceParseError::Malformed)
            },
            Err(PriceParseError::TooLarge) => {
                proof {
                    lemma_digits_val_nonneg(s@);
                    assert(digits_val(s@) * 100 > u64::MAX);
                }
                Err(PriceParseError::TooLarge)
            },
        }
    } else {
        let d0 = i;
        let ghost dg = d0 as int;
        proof {
            assert(s@[dg] == 46);
            assert(!all_digits(s@));
            // a split point other than the first decimal point is impossible
            assert forall|d: int| d != dg implies !valid_split(s@, d) by {
                if valid_split(s@, d) {
                    if d < dg {
                        assert(s@[d] != 46);
                    } else {
                        assert(s@.take(d)[dg] == s@[dg]);
                        assert(is_digit(s@.take(d)[dg]));
                    }
                }
            }
        }
        let fl = s.len() - d0 - 1;
        if d0 == 0 || fl == 0 || fl > 2 {
            proof {
                assert(!valid_split(s@, dg));
                assert(forall|d: int| !valid_split(s@, d));
            }
            return Err(PriceParseError::Malformed);
        }
        let frac = match parse_digits(s, d0 + 1, s.len()) {
            Ok(f) => f,
            Err(PriceParseError::Malformed) => {
                proof {
                    assert(s@.skip(dg + 1) =~= s@.subrange(dg + 1, s@.len() as int));
                    assert(!valid_split(s@, dg));
                    assert(forall|d: int| !valid_split(s@, d));
                }
                return Err(PriceParseError::Malformed);
            },
            Err(PriceParseError::TooLarge) => {
                // impossible: one or two digits denote at most 99
                proof {
                    let f = s@.subrange(dg + 1, s@.len() as int);
                    assert(is_digit(f[f.len() - 1]));
                    assert(digits_val(Seq::<u8>::empty()) == 0);
                    if f.len() == 1 {
                        assert(f.drop_last() =~= Seq::<u8>::empty());
                        assert(digits_val(f) == digits_val(f.drop_last()) * 10 + digit_val(
                            f.last(),
                        ));
                    } else {
                        let g = f.drop_last();
                        assert(is_digit(f[0]));
                        assert(g.last() == f[0]);
                        assert(g.drop_last() =~= Seq::<u8>::empty());
                        assert(digits_val(g) == digits_val(g.drop_last()) * 10 + digit_val(
                            g.last(),
                        ));
                        assert(digits_val(f) == digits_val(g) * 10 + digit_val(f.last()));
                    }
                    assert(digits_val(f) <= 99);
                    assert(false);
                }
                return Err(PriceParseError::Malformed);
            },
        };
        proof {
            assert(s@.skip(dg + 1) =~= s@.subrange(dg + 1, s@.len() as int));
        }
        match parse_digits(s, 0, d0) {
            Err(PriceParseError::Malformed) => {
                proof {
                    assert(s@.take(dg) =~= s@.subrange(0, dg));
                    assert(!valid_split(s@, dg));
                    assert(forall|d: int| !valid_split(s@, d));
                }
                Err(PriceParseError::Malformed)
            },
            Err(PriceParseError::TooLarge) => {
                proof {
                    assert(s@.take(dg) =~= s@.subrange(0, dg));
                    assert(valid_split(s@, dg));
                    assert(valid_price(s@));
                    let dc = choose|d: int| valid_split(s@, d);
                    lemma_split_unique(s@, dc, dg);
                    lemma_digits_val_nonneg(s@.take(dg));
                    lemma_digits_val_nonneg(s@.skip(dg + 1));
                    assert(price_cents(s@) > u64::MAX);
                }
                Err(PriceParseError::TooLarge)
            },
            Ok(whole) => {
                proof {
                    assert(s@.take(dg) =~= s@.subrange(0, dg));
                    assert(valid_split(s@, dg));
                    assert(valid_price(s@));
                    let dc = choose|d: int| valid_split(s@, d);
                    lemma_split_unique(s@, dc, dg);
                }
                let scale: u128 = if fl == 1 {
                    10
                } else {
                    1
                };
                let cents: u128 = (whole as u128) * 100 + (frac as u128) * scale;
                proof {
                    assert(cents as int == price_cents(s@));
                }
                if cents > (u64::MAX as u128) {
                    Err(PriceParseError::TooLarge)
                } else {
                    Ok(cents as u64)
                }
            },
        }
    }
}

} // verus!
