//! Numerals in base 2^64 and the machine integers that they fit.
use vstd::prelude::*;

verus! {

/// The number that a list of digits in base 2^64, least significant first, stands for.
pub open spec fn digits_value(d: Seq<u64>) -> int
    decreases d.len(),
{
    if d.len() == 0 {
        0
    } else {
        d[0] + 0x1_0000_0000_0000_0000 * digits_value(d.drop_first())
    }
}

/// A number of digits is zero exactly if all of them are, and never negative.
proof fn lemma_digits_zero(d: Seq<u64>)
    ensures
        digits_value(d) >= 0,
        digits_value(d) == 0 <==> forall|i: int| 0 <= i < d.len() ==> d[i] == 0,
    decreases d.len(),
{
    if d.len() > 0 {
        let rest = d.drop_first();
        lemma_digits_zero(rest);
        if forall|i: int| 0 <= i < d.len() ==> d[i] == 0 {
            assert(forall|i: int| 0 <= i < rest.len() ==> rest[i] == d[i + 1]);
        }
        if digits_value(d) == 0 {
            assert forall|i: int| 0 <= i < d.len() implies d[i] == 0 by {
                if i > 0 {
                    assert(rest[i - 1] == 0);
                }
            }
        }
    }
}

/// Whether a numeral is zero.
pub fn is_zero_digits(d: &Vec<u64>) -> (r: bool)
    ensures
        r == (digits_value(d@) == 0),
{
    proof {
        lemma_digits_zero(d@);
    }
    let mut i: usize = 0;
    while i < d.len()
        invariant
            i <= d.len(),
            digits_value(d@) == 0 <==> forall|k: int| 0 <= k < d@.len() ==> d@[k] == 0,
            forall|k: int| 0 <= k < i ==> d@[k] == 0,
        decreases d.len() - i,
    {
        if d[i] != 0 {
            return false;
        }
        i = i + 1;
    }
    true
}

/// The magnitude of a numeral, if 128 bits hold it.
pub fn magnitude(d: &Vec<u64>) -> (r: Option<u128>)
    ensures
        r is Some <==> digits_value(d@) <= u128::MAX,
        r matches Some(v) ==> v == digits_value(d@),
{
    let ghost base: int = 0x1_0000_0000_0000_0000;
    let low: u64 = if d.len() > 0 {
        d[0]
    } else {
        0
    };
    let high: u64 = if d.len() > 1 {
        d[1]
    } else {
        0
    };
    let ghost rest = if d.len() > 2 {
        d@.subrange(2, d.len() as int)
    } else {
        Seq::<u64>::empty()
    };
    proof {
        if d.len() > 0 {
            let d1 = d@.drop_first();
            if d.len() > 1 {
                assert(d1.drop_first() =~= rest);
                assert(digits_value(d1) == d1[0] + base * digits_value(rest));
            } else {
                assert(digits_value(d1) == 0);
            }
            assert(digits_value(d@) == d@[0] + base * digits_value(d1));
        }
        lemma_digits_zero(rest);
        assert(digits_value(d@) == low + base * high + base * (base * digits_value(rest)));
    }
    let mut i: usize = 2;
    while i < d.len()
        invariant
            i >= 2,
            rest == if d.len() > 2 {
                d@.subrange(2, d.len() as int)
            } else {
                Seq::<u64>::empty()
            },
            base == 0x1_0000_0000_0000_0000,
            digits_value(d@) == low + base * high + base * (base * digits_value(rest)),
            digits_value(rest) >= 0,
            digits_value(rest) == 0 <==> forall|k: int| 0 <= k < rest.len() ==> rest[k] == 0,
            forall|k: int| 2 <= k < i && k < d.len() ==> d@[k] == 0,
        decreases d.len() - i,
    {
        if d[i] != 0 {
            assert(rest[i - 2] != 0);
            return None;
        }
        i = i + 1;
    }
    assert(forall|k: int| 0 <= k < rest.len() ==> rest[k] == d@[k + 2]);
    Some(low as u128 + 0x1_0000_0000_0000_0000u128 * (high as u128))
}

/// The digits of a number of 128 bits, without leading zeros.
pub fn digits_of(v: u128) -> (d: Vec<u64>)
    ensures
        digits_value(d@) == v,
        d@.len() > 0 ==> d@.last() != 0,
        d@.len() <= 2,
{
    let mut d: Vec<u64> = Vec::new();
    if v != 0 {
        let low: u64 = (v % 0x1_0000_0000_0000_0000) as u64;
        let high: u64 = (v / 0x1_0000_0000_0000_0000) as u64;
        d.push(low);
        if high != 0 {
            d.push(high);
            assert(d@.drop_first() =~= seq![high]);
            assert(seq![high].drop_first() =~= Seq::<u64>::empty());
            assert(digits_value(seq![high].drop_first()) == 0);
            assert(digits_value(seq![high]) == high);
        } else {
            assert(d@.drop_first() =~= Seq::<u64>::empty());
            assert(digits_value(d@.drop_first()) == 0);
        }
    }
    d
}

/// A signed number with the given magnitude.
pub open spec fn signed(negative: bool, d: Seq<u64>) -> int {
    if negative {
        -digits_value(d)
    } else {
        digits_value(d)
    }
}

/// The value of a signed numeral, if `i128` holds it.
pub fn to_i128(negative: bool, d: &Vec<u64>) -> (r: Option<i128>)
    ensures
        r is Some <==> i128::MIN <= signed(negative, d@) <= i128::MAX,
        r matches Some(v) ==> v == signed(negative, d@),
{
    proof {
        lemma_digits_zero(d@);
    }
    match magnitude(d) {
        Some(v) => {
            if negative {
                if v <= 0x7fff_ffff_ffff_ffff_ffff_ffff_ffff_ffff {
                    Some(-(v as i128))
                } else if v == 0x8000_0000_0000_0000_0000_0000_0000_0000 {
                    Some(i128::MIN)
                } else {
                    None
                }
            } else if v <= 0x7fff_ffff_ffff_ffff_ffff_ffff_ffff_ffff {
                Some(v as i128)
            } else {
                None
            }
        },
        None => None,
    }
}

} // verus!
