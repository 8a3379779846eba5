//! The encoding of bit-vector terms for a solver that works on bits.
use crate::numeral::digits_value;
use crate::term::Op;
use crate::term::TermId;
use crate::term::TermManager;
use vstd::prelude::*;

verus! {

/// A power of two.
pub open spec fn two_to(k: nat) -> int
    decreases k,
{
    if k == 0 {
        1
    } else {
        2 * two_to((k - 1) as nat)
    }
}

/// Powers of two are positive, and grow with the exponent.
pub proof fn lemma_two_to(a: nat, b: nat)
    requires
        a <= b,
    ensures
        0 < two_to(a) <= two_to(b),
        a < b ==> two_to(a) < two_to(b),
    decreases b,
{
    if a < b {
        lemma_two_to(a, (b - 1) as nat);
    } else if b > 0 {
        lemma_two_to((a - 1) as nat, (b - 1) as nat);
    }
}

/// The product of powers of two.
pub proof fn lemma_two_to_sum(a: nat, b: nat)
    ensures
        two_to(a + b) == two_to(a) * two_to(b),
    decreases a,
{
    if a > 0 {
        lemma_two_to_sum((a - 1) as nat, b);
        let x = two_to((a - 1) as nat);
        let y = two_to(b);
        assert(2 * (x * y) == (2 * x) * y) by (nonlinear_arith);
        assert((a + b - 1) as nat == (a - 1) as nat + b);
    } else {
        assert(two_to(0) == 1);
        let y = two_to(b);
        assert(1 * y == y);
    }
}

/// The number of values of a digit.
proof fn lemma_two_to_64()
    ensures
        two_to(64) == 0x1_0000_0000_0000_0000,
{
    assert(two_to(8) == 256) by {
        reveal_with_fuel(two_to, 9);
    }
    lemma_two_to_sum(8, 8);
    lemma_two_to_sum(16, 16);
    lemma_two_to_sum(32, 32);
    let a = two_to(8);
    let b = two_to(16);
    let c = two_to(32);
    assert(a * a == 0x1_0000) by (nonlinear_arith)
        requires
            a == 256,
    ;
    assert(b * b == 0x1_0000_0000) by (nonlinear_arith)
        requires
            b == 0x1_0000,
    ;
    assert(c * c == 0x1_0000_0000_0000_0000) by (nonlinear_arith)
        requires
            c == 0x1_0000_0000,
    ;
}

/// The exponent of a digit that is a power of two.
fn digit_log(d: u64) -> (r: Option<u32>)
    ensures
        r matches Some(k) ==> k < 64 && d == two_to(k as nat),
        r is None ==> forall|k: nat| d != #[trigger] two_to(k),
{
    let mut k: u32 = 0;
    let mut p: u64 = 1;
    proof {
        lemma_two_to_64();
    }
    loop
        invariant
            k < 64,
            p == two_to(k as nat),
            two_to(64) == 0x1_0000_0000_0000_0000,
            forall|j: nat| j < k ==> d != #[trigger] two_to(j),
        ensures
            k < 64,
            k == 63,
            forall|j: nat| j <= k ==> d != #[trigger] two_to(j),
        decreases 64 - k,
    {
        if d == p {
            return Some(k);
        }
        if k == 63 {
            break;
        }
        proof {
            lemma_two_to((k + 1) as nat, 63);
            assert(two_to(64) == 2 * two_to(63));
        }
        p = 2 * p;
        k = k + 1;
    }
    proof {
        assert forall|j: nat| d != #[trigger] two_to(j) by {
            if j > 63 {
                lemma_two_to_64();
                lemma_two_to(64, j);
            }
        }
    }
    None
}

/// A number of digits is a power of two exactly if its lowest digit and the rest say so.
proof fn lemma_power_digits(d: Seq<u64>, s: nat)
    requires
        d.len() > 0,
    ensures
        d[0] == 0 && s >= 64 ==> (digits_value(d) == two_to(s) <==> digits_value(d.drop_first()) == two_to((s - 64) as nat)),
        d[0] == 0 && s < 64 ==> digits_value(d) != two_to(s),
        d[0] != 0 ==> (digits_value(d) == two_to(s) <==> d[0] == two_to(s) && digits_value(d.drop_first()) == 0),
{
    let base: int = 0x1_0000_0000_0000_0000;
    let rest = digits_value(d.drop_first());
    lemma_two_to_64();
    lemma_digits_nonneg(d.drop_first());
    assert(digits_value(d) == d[0] + base * rest);
    if s >= 64 {
        lemma_two_to_sum(64, (s - 64) as nat);
        let q = two_to((s - 64) as nat);
        assert(64 + (s - 64) as nat == s);
        assert(two_to(s) == base * q);
        if d[0] == 0 {
            assert(base * rest == base * q <==> rest == q) by (nonlinear_arith)
                requires
                    base == 0x1_0000_0000_0000_0000,
            ;
        } else {
            lemma_two_to(64, s);
            assert(d[0] + base * rest != base * q) by (nonlinear_arith)
                requires
                    base == 0x1_0000_0000_0000_0000,
                    0 < d[0] < base,
            ;
        }
    } else {
        lemma_two_to(s, 63);
        assert(two_to(64) == 2 * two_to(63));
        lemma_two_to(0, s);
        if rest > 0 {
            assert(base * rest >= base) by (nonlinear_arith)
                requires
                    rest >= 1,
                    base == 0x1_0000_0000_0000_0000,
            ;
        }
    }
}

/// A number of digits is not negative.
proof fn lemma_digits_nonneg(d: Seq<u64>)
    ensures
        digits_value(d) >= 0,
    decreases d.len(),
{
    if d.len() > 0 {
        lemma_digits_nonneg(d.drop_first());
    }
}

/// The exponent of a bit-vector constant that is a power of two.
pub open spec fn has_log(m: &TermManager, t: TermId, s: u32) -> bool {
    m.has(t) && m.op(t) is BitVecConst && digits_value(m.terms@[t as int].digits@) == two_to(s as nat)
}

/// The exponent of a bit-vector constant that is a power of two.
pub fn bitvec_const_pow2_shift(m: &TermManager, t: TermId) -> (r: Option<u32>)
    ensures
        r matches Some(s) ==> has_log(m, t, s),
        r is None ==> forall|s: u32| !#[trigger] has_log(m, t, s),
{
    if t >= m.terms.len() {
        return None;
    }
    match m.terms[t].op {
        Op::BitVecConst { width: _ } => {},
        _ => {
            return None;
        },
    }
    let digits = &m.terms[t].digits;
    let ghost all = digits@;
    let mut i: usize = 0;
    assert(all.skip(0) =~= all);
    while i < digits.len()
        invariant
            i <= digits.len(),
            digits@ == all,
            m.has(t),
            m.op(t) is BitVecConst,
            all == m.terms@[t as int].digits@,
            forall|s: nat| #[trigger] two_to(s) == digits_value(all) <==> s >= 64 * i && two_to((s - 64 * i) as nat) == digits_value(
                all.skip(i as int),
            ),
        decreases digits.len() - i,
    {
        let d: u64 = digits[i];
        let ghost rest = all.skip(i as int);
        proof {
            assert(rest[0] == d);
            assert(rest.drop_first() =~= all.skip(i + 1));
        }
        if d != 0 {
            let low = match digit_log(d) {
                Some(k) => k,
                None => {
                    proof {
                        assert forall|s: u32| !#[trigger] has_log(m, t, s) by {
                            if has_log(m, t, s) {
                                assert(two_to(s as nat) == digits_value(all));
                                lemma_power_digits(rest, (s - 64 * i) as nat);
                            }
                        }
                    }
                    return None;
                },
            };
            let mut j: usize = i + 1;
            let mut clean = true;
            while j < digits.len()
                invariant
                    i < j <= digits.len(),
                    digits@ == all,
                    clean <==> forall|k: int| i < k < j ==> all[k] == 0,
                decreases digits.len() - j,
            {
                if digits[j] != 0 {
                    clean = false;
                }
                j = j + 1;
            }
            proof {
                lemma_all_zero(rest.drop_first());
                assert forall|k: int| 0 <= k < rest.drop_first().len() implies rest.drop_first()[k] == all[i + 1 + k] by {}
                assert(clean <==> digits_value(rest.drop_first()) == 0) by {
                    if clean {
                        assert forall|k: int| 0 <= k < rest.drop_first().len() implies rest.drop_first()[k] == 0 by {
                            assert(all[i + 1 + k] == 0);
                        }
                    } else {
                        let k = choose|k: int| i < k < j && all[k] != 0;
                        assert(rest.drop_first()[k - i - 1] != 0);
                    }
                }
            }
            if !clean {
                proof {
                    assert forall|s: u32| !#[trigger] has_log(m, t, s) by {
                        if has_log(m, t, s) {
                            assert(two_to(s as nat) == digits_value(all));
                            lemma_power_digits(rest, (s - 64 * i) as nat);
                        }
                    }
                }
                return None;
            }
            if i > 0x3ff_ffff {
                proof {
                    assert forall|s: u32| !#[trigger] has_log(m, t, s) by {
                        if has_log(m, t, s) {
                            assert(two_to(s as nat) == digits_value(all));
                            assert(s >= 64 * i);
                        }
                    }
                }
                return None;
            }
            let s: u32 = (i as u32) * 64 + low;
            proof {
                lemma_power_digits(rest, low as nat);
                assert((s - 64 * i) as nat == low as nat);
                assert(two_to(s as nat) == digits_value(all));
            }
            return Some(s);
        }
        proof {
            assert forall|s: nat| #[trigger] two_to(s) == digits_value(all) <==> s >= 64 * (i + 1) && two_to((s - 64 * (i + 1)) as nat)
                == digits_value(all.skip(i + 1)) by {
                if s >= 64 * i {
                    lemma_power_digits(rest, (s - 64 * i) as nat);
                    if s >= 64 * (i + 1) {
                        assert((s - 64 * i - 64) as nat == (s - 64 * (i + 1)) as nat);
                    }
                }
            }
        }
        i = i + 1;
    }
    proof {
        assert(all.skip(i as int).len() == 0);
        assert forall|s: u32| !#[trigger] has_log(m, t, s) by {
            if has_log(m, t, s) {
                assert(two_to(s as nat) == digits_value(all));
                lemma_two_to(0, (s - 64 * i) as nat);
            }
        }
    }
    None
}

/// A number of digits is zero exactly if all of them are.
proof fn lemma_all_zero(d: Seq<u64>)
    ensures
        digits_value(d) == 0 <==> forall|i: int| 0 <= i < d.len() ==> d[i] == 0,
    decreases d.len(),
{
    if d.len() > 0 {
        let rest = d.drop_first();
        lemma_all_zero(rest);
        lemma_digits_nonneg(rest);
        if digits_value(d) == 0 {
            assert forall|i: int| 0 <= i < d.len() implies d[i] == 0 by {
                if i > 0 {
                    assert(rest[i - 1] == 0);
                }
            }
        }
        if forall|i: int| 0 <= i < d.len() ==> d[i] == 0 {
            assert forall|i: int| 0 <= i < rest.len() implies rest[i] == 0 by {
                assert(rest[i] == d[i + 1]);
            }
        }
    }
}

} // verus!
