use vstd::prelude::*;
use vstd::arithmetic::power::pow;
use crate::io::destinations::buffer::Buffer;
use crate::nodes::node::{
    entries_view, first_e, first_nondigit, is_float_lit, mantissa_ok, Node, NodeV, Numeric,
    NumericV,
};
use crate::text::{digit_val, digits_val, i64_to_string, is_digit, spec_int_chars, u64_to_string};
use crate::stringify::order::{sort_order, sorted_positions};

verus! {

broadcast use vstd::std_specs::vec::group_vec_axioms;

// ---------------------------------------------------------------------------
// Rounding a decimal literal to the nearest integer
// ---------------------------------------------------------------------------

/// The index of the first point in `s`, or the length when there is none.
pub open spec fn first_dot(s: Seq<char>) -> int
    decreases s.len(),
{
    if s.len() == 0 {
        0
    } else if s[0] == '.' {
        0
    } else {
        1 + first_dot(s.drop_first())
    }
}

/// The value of an exponent part — an optional sign, then digits — clamped
/// to four quintillion, a magnitude far past anything a literal of
/// realisable length can shift into range.
pub open spec fn exp_val(e: Seq<char>) -> int {
    let raw = if e.len() > 0 && e[0] == '-' {
        -digits_val(e.drop_first())
    } else if e.len() > 0 && e[0] == '+' {
        digits_val(e.drop_first())
    } else {
        digits_val(e)
    };
    if raw > 4000000000000000000 {
        4000000000000000000
    } else if raw < -4000000000000000000 {
        -4000000000000000000
    } else {
        raw
    }
}

/// The rounding itself, on the parts of a literal: the digits are worth
/// `dv`, the point stands `e` places from their right end — to the right
/// for positive `e`.  The value is rounded to the nearest integer, halves
/// away from zero, and clamped to the 64-bit signed range.
pub open spec fn round_parts(neg: bool, dv: int, e: int) -> int {
    let mag = if e >= 0 {
        dv * pow(10, e as nat)
    } else {
        dv / pow(10, (-e) as nat) + if (dv / pow(10, (-e - 1) as nat)) % 10 >= 5 {
            1int
        } else {
            0int
        }
    };
    let v = if neg {
        -mag
    } else {
        mag
    };
    if v < i64::MIN as int {
        i64::MIN as int
    } else if v > i64::MAX as int {
        i64::MAX as int
    } else {
        v
    }
}

/// The decimal literal `t`, rounded to the nearest integer, halves away
/// from zero, clamped to the 64-bit signed range.  The literal denotes
/// sign, digits and point position exactly, so the rounding is by its
/// decimal digits.
pub open spec fn round_lit(t: Seq<char>) -> int {
    let neg = t.len() > 0 && t[0] == '-';
    let u = if neg {
        t.drop_first()
    } else {
        t
    };
    let k = first_e(u);
    let mant = if 0 <= k <= u.len() {
        u.take(k)
    } else {
        u
    };
    let ex = if 0 <= k && k < u.len() {
        exp_val(u.skip(k + 1))
    } else {
        0
    };
    let dp = first_dot(mant);
    let digs = if 0 <= dp && dp < mant.len() {
        mant.take(dp) + mant.skip(dp + 1)
    } else {
        mant
    };
    let scale: int = if 0 <= dp && dp < mant.len() {
        mant.len() - dp - 1
    } else {
        0
    };
    round_parts(neg, digits_val(digs), ex - scale)
}

/// What a float stored as `t` is encoded as: its rounded value for a
/// well-formed literal, and zero for any other text — a fallback that only
/// programmatic construction can reach, since parsing stores well-formed
/// literals alone.
pub open spec fn spec_float_int(t: Seq<char>) -> int {
    if is_float_lit(t) {
        round_lit(t)
    } else {
        0
    }
}

/// What [`first_dot`] returns: the least index holding a point, or the
/// length when none does.
proof fn lemma_first_dot(t: Seq<char>)
    ensures
        0 <= first_dot(t) <= t.len(),
        first_dot(t) < t.len() ==> t[first_dot(t)] == '.',
        forall|j: int| 0 <= j < first_dot(t) ==> t[j] != '.',
    decreases t.len(),
{
    if t.len() > 0 && t[0] != '.' {
        lemma_first_dot(t.drop_first());
        assert forall|j: int| 0 <= j < first_dot(t) implies t[j] != '.' by {
            if j > 0 {
                assert(t.drop_first()[j - 1] == t[j]);
            }
        }
    }
}

/// The rounding on parts, computed from the significant digits: `sd` holds
/// the digits of the mantissa with leading zeros stripped, `ex` the clamped
/// exponent and `scale` the count of digits after the point.
#[verifier::loop_isolation(false)]
#[verifier::rlimit(100)]
fn round_from_parts(neg: bool, sd: &Vec<char>, scale: usize, ex: i64) -> (r: i64)
    requires
        forall|i: int| 0 <= i < sd@.len() ==> is_digit(#[trigger] sd@[i]),
        sd@.len() > 0 ==> digit_val(sd@[0]) >= 1,
        -4000000000000000000 <= ex <= 4000000000000000000,
    ensures
        r as int == round_parts(neg, digits_val(sd@), ex - scale),
{
    let ghost dv = digits_val(sd@);
    let ghost e = ex - scale as int;
    proof {
        crate::text::lemma_digits_val_nonneg(sd@);
        crate::text::lemma_pow10_values();
    }
    let nd: usize = sd.len();
    if nd == 0 {
        proof {
            lemma_round_parts_zero(neg, e);
        }
        return 0;
    }
    proof {
        crate::text::lemma_digits_val_lower(sd@);
        crate::text::lemma_digits_val_upper(sd@);
    }
    let e128: i128 = (ex as i128) - (scale as i128);
    if e128 >= 0 {
        // the point moves right: the value is dv * 10^e
        if e128 >= 20 || nd as i128 + e128 >= 20 {
            proof {
                lemma_scaled_up_overflows(sd@, e as nat);
            }
            if neg {
                return i64::MIN;
            } else {
                return i64::MAX;
            }
        }
        let p = crate::text::pow10_u64(e128 as u64);
        let dmag = match crate::parser::default::digits_to_u64(sd, 0, u64::MAX) {
            Option::Some(m) => m,
            Option::None => {
                // cannot occur: fewer than twenty digits always fit
                proof {
                    assert(sd@.skip(0) =~= sd@);
                    assert(pow(10, sd@.len() as nat) <= pow(10, 19nat)) by {
                        vstd::arithmetic::power::lemma_pow_increases(10, sd@.len() as nat, 19nat);
                    }
                    assert(false);
                }
                0
            },
        };
        proof {
            assert(sd@.skip(0) =~= sd@);
            assert(dv * pow(10, e as nat) < pow(10, (sd@.len() + e) as nat)) by {
                vstd::arithmetic::power::lemma_pow_adds(10, sd@.len() as nat, e as nat);
                vstd::arithmetic::power::lemma_pow_positive(10, e as nat);
                assert(dv * pow(10, e as nat) < pow(10, sd@.len() as nat) * pow(10, e as nat))
                    by (nonlinear_arith)
                    requires
                        dv < pow(10, sd@.len() as nat),
                        pow(10, e as nat) > 0,
                ;
            }
            assert(pow(10, (sd@.len() + e) as nat) <= pow(10, 19nat)) by {
                vstd::arithmetic::power::lemma_pow_increases(10, (sd@.len() + e) as nat, 19nat);
            }
            assert(dv * pow(10, e as nat) >= 0) by (nonlinear_arith)
                requires
                    dv >= 0,
                    pow(10, e as nat) > 0,
            ;
        }
        let mag: u64 = dmag * p;
        proof {
            assert(mag as int == dv * pow(10, e as nat));
        }
        if neg {
            if mag >= 9223372036854775808u64 {
                return i64::MIN;
            } else {
                return -(mag as i64);
            }
        } else {
            if mag > 9223372036854775807u64 {
                return i64::MAX;
            } else {
                return mag as i64;
            }
        }
    } else {
        // the point moves left by sc places
        let sc: i128 = -e128;
        proof {
            vstd::arithmetic::power::lemma_pow_positive(10, (-e) as nat);
            vstd::arithmetic::power::lemma_pow_positive(10, (-e - 1) as nat);
        }
        if sc > nd as i128 {
            // no digit reaches the point: everything rounds to zero
            proof {
                assert(pow(10, sd@.len() as nat) <= pow(10, (-e - 1) as nat)) by {
                    vstd::arithmetic::power::lemma_pow_increases(
                        10,
                        sd@.len() as nat,
                        (-e - 1) as nat,
                    );
                }
                assert(pow(10, (-e - 1) as nat) <= pow(10, (-e) as nat)) by {
                    vstd::arithmetic::power::lemma_pow_increases(10, (-e - 1) as nat, (-e) as nat);
                }
                vstd::arithmetic::div_mod::lemma_basic_div(dv, pow(10, (-e) as nat));
                vstd::arithmetic::div_mod::lemma_basic_div(dv, pow(10, (-e - 1) as nat));
            }
            return 0;
        }
        if sc == nd as i128 {
            // exactly the first digit stands right of the point
            let h = crate::text::digit_val_char(sd[0]);
            proof {
                assert((-e) as nat == sd@.len() as nat);
                vstd::arithmetic::power::lemma_pow_positive(10, sd@.len() as nat);
                vstd::arithmetic::div_mod::lemma_basic_div(dv, pow(10, (-e) as nat));
                lemma_front_digit_div(sd@);
                assert((-e - 1) as nat == (sd@.len() - 1) as nat);
                vstd::arithmetic::div_mod::lemma_small_mod(digit_val(sd@[0]) as nat, 10);
            }
            if h >= 5 {
                if neg {
                    return -1;
                } else {
                    return 1;
                }
            } else {
                return 0;
            }
        }
        // some digits stand left of the point
        let intlen: usize = nd - (sc as usize);
        proof {
            assert(1 <= intlen < nd);
        }
        if intlen >= 20 {
            proof {
                lemma_scaled_down_overflows(sd@, (-e) as nat);
            }
            if neg {
                return i64::MIN;
            } else {
                return i64::MAX;
            }
        }
        let prefix = crate::text::vec_range(sd, 0, intlen);
        let q = match crate::parser::default::digits_to_u64(&prefix, 0, u64::MAX) {
            Option::Some(m) => m,
            Option::None => {
                // cannot occur: fewer than twenty digits always fit
                proof {
                    assert(prefix@.skip(0) =~= prefix@);
                    assert(forall|i: int|
                        0 <= i < prefix@.len() ==> is_digit(#[trigger] prefix@[i]));
                    crate::text::lemma_digits_val_upper(prefix@);
                    assert(pow(10, prefix@.len() as nat) <= pow(10, 19nat)) by {
                        vstd::arithmetic::power::lemma_pow_increases(
                            10,
                            prefix@.len() as nat,
                            19nat,
                        );
                    }
                    assert(false);
                }
                0
            },
        };
        let h = crate::text::digit_val_char(sd[intlen]);
        proof {
            assert(prefix@.skip(0) =~= prefix@);
            assert(prefix@ =~= sd@.take(intlen as int));
            lemma_round_division(sd@, intlen as int, e);
            assert(forall|i: int| 0 <= i < prefix@.len() ==> is_digit(#[trigger] prefix@[i]));
            crate::text::lemma_digits_val_upper(prefix@);
            assert(pow(10, prefix@.len() as nat) <= pow(10, 19nat)) by {
                vstd::arithmetic::power::lemma_pow_increases(10, prefix@.len() as nat, 19nat);
            }
        }
        let mag: u64 = q + (if h >= 5 {
            1
        } else {
            0
        });
        if neg {
            if mag >= 9223372036854775808u64 {
                return i64::MIN;
            } else {
                return -(mag as i64);
            }
        } else {
            if mag > 9223372036854775807u64 {
                return i64::MAX;
            } else {
                return mag as i64;
            }
        }
    }
}

/// An empty digit string rounds to zero at every exponent.
proof fn lemma_round_parts_zero(neg: bool, e: int)
    ensures
        round_parts(neg, 0, e) == 0,
{
    if e >= 0 {
        assert(0 * pow(10, e as nat) == 0) by (nonlinear_arith);
    } else {
        vstd::arithmetic::power::lemma_pow_positive(10, (-e) as nat);
        vstd::arithmetic::power::lemma_pow_positive(10, (-e - 1) as nat);
        vstd::arithmetic::div_mod::lemma_basic_div(0, pow(10, (-e) as nat));
        vstd::arithmetic::div_mod::lemma_basic_div(0, pow(10, (-e - 1) as nat));
    }
}

/// Scaling at least one significant digit up past the nineteenth place
/// leaves the 64-bit signed range.
proof fn lemma_scaled_up_overflows(sd: Seq<char>, e: nat)
    requires
        sd.len() >= 1,
        digit_val(sd[0]) >= 1,
        sd.len() + e >= 20,
    ensures
        digits_val(sd) * pow(10, e) > i64::MAX as int,
{
    crate::text::lemma_digits_val_lower(sd);
    vstd::arithmetic::power::lemma_pow_positive(10, e);
    assert(digits_val(sd) * pow(10, e) >= pow(10, (sd.len() - 1) as nat) * pow(10, e))
        by (nonlinear_arith)
        requires
            digits_val(sd) >= pow(10, (sd.len() - 1) as nat),
            pow(10, e) > 0,
    ;
    vstd::arithmetic::power::lemma_pow_adds(10, (sd.len() - 1) as nat, e);
    assert(pow(10, (sd.len() - 1 + e) as nat) >= pow(10, 19nat)) by {
        vstd::arithmetic::power::lemma_pow_increases(10, 19nat, (sd.len() - 1 + e) as nat);
    }
    crate::text::lemma_pow10_values();
}

/// A quotient that keeps at least twenty digits leaves the 64-bit signed
/// range.
proof fn lemma_scaled_down_overflows(sd: Seq<char>, sc: nat)
    requires
        sd.len() >= 1,
        digit_val(sd[0]) >= 1,
        sc < sd.len(),
        sd.len() - sc >= 20,
    ensures
        digits_val(sd) / pow(10, sc) >= pow(10, 19),
{
    crate::text::lemma_digits_val_lower(sd);
    vstd::arithmetic::power::lemma_pow_adds(10, (sd.len() - 1 - sc) as nat, sc);
    vstd::arithmetic::power::lemma_pow_positive(10, sc);
    vstd::arithmetic::power::lemma_pow_positive(10, (sd.len() - 1 - sc) as nat);
    let a = pow(10, (sd.len() - 1 - sc) as nat);
    let p = pow(10, sc);
    vstd::arithmetic::div_mod::lemma_div_is_ordered(a * p, digits_val(sd), p);
    vstd::arithmetic::div_mod::lemma_div_by_multiple(a, p);
    assert(digits_val(sd) / p >= a);
    assert(a >= pow(10, 19nat)) by {
        vstd::arithmetic::power::lemma_pow_increases(10, 19nat, (sd.len() - 1 - sc) as nat);
    }
}

/// Dividing the digits at place `intlen` keeps exactly the leading digits,
/// and the next digit decides the rounding.
proof fn lemma_round_division(sd: Seq<char>, intlen: int, e: int)
    requires
        forall|i: int| 0 <= i < sd.len() ==> is_digit(#[trigger] sd[i]),
        e < 0,
        1 <= intlen < sd.len(),
        sd.len() - intlen == -e,
    ensures
        digits_val(sd) / pow(10, (-e) as nat) == digits_val(sd.take(intlen)),
        (digits_val(sd) / pow(10, (-e - 1) as nat)) % 10 == digit_val(sd[intlen]),
{
    let sc = (-e) as nat;
    let p = pow(10, sc);
    let p1 = pow(10, (sc - 1) as nat);
    vstd::arithmetic::power::lemma_pow_positive(10, sc);
    vstd::arithmetic::power::lemma_pow_positive(10, (sc - 1) as nat);
    crate::text::lemma_digits_val_split(sd, intlen);
    assert(forall|i: int|
        0 <= i < sd.skip(intlen).len() ==> is_digit(#[trigger] sd.skip(intlen)[i]));
    crate::text::lemma_digits_val_upper(sd.skip(intlen));
    crate::text::lemma_digits_val_nonneg(sd.skip(intlen));
    crate::text::lemma_digits_val_nonneg(sd.take(intlen));
    vstd::arithmetic::div_mod::lemma_div_multiples_vanish_fancy(
        digits_val(sd.take(intlen)),
        digits_val(sd.skip(intlen)),
        p,
    );
    assert(p * digits_val(sd.take(intlen)) == digits_val(sd.take(intlen)) * p)
        by (nonlinear_arith);
    assert(digits_val(sd) / p == digits_val(sd.take(intlen)));
    // the half digit
    crate::text::lemma_digits_val_split(sd, intlen + 1);
    assert(forall|i: int|
        0 <= i < sd.skip(intlen + 1).len() ==> is_digit(#[trigger] sd.skip(intlen + 1)[i]));
    crate::text::lemma_digits_val_upper(sd.skip(intlen + 1));
    crate::text::lemma_digits_val_nonneg(sd.skip(intlen + 1));
    crate::text::lemma_digits_val_snoc(sd, intlen);
    crate::text::lemma_digits_val_nonneg(sd.take(intlen + 1));
    vstd::arithmetic::div_mod::lemma_div_multiples_vanish_fancy(
        digits_val(sd.take(intlen + 1)),
        digits_val(sd.skip(intlen + 1)),
        p1,
    );
    assert(p1 * digits_val(sd.take(intlen + 1)) == digits_val(sd.take(intlen + 1)) * p1)
        by (nonlinear_arith);
    assert(digits_val(sd) / p1 == digits_val(sd.take(intlen + 1)));
    assert(digits_val(sd.take(intlen + 1)) == digits_val(sd.take(intlen)) * 10 + digit_val(
        sd[intlen],
    ));
    assert(is_digit(sd[intlen]));
    assert(digit_val(sd[intlen]) < 10);
    vstd::arithmetic::div_mod::lemma_mod_multiples_vanish(
        digits_val(sd.take(intlen)),
        digit_val(sd[intlen]) as int,
        10,
    );
    vstd::arithmetic::div_mod::lemma_small_mod(digit_val(sd[intlen]) as nat, 10);
}

/// The first significant digit of a string of `n` digits is its value
/// divided at the place just under `n`.
proof fn lemma_front_digit_div(sd: Seq<char>)
    requires
        sd.len() >= 1,
        forall|i: int| 0 <= i < sd.len() ==> is_digit(#[trigger] sd[i]),
    ensures
        digits_val(sd) / pow(10, (sd.len() - 1) as nat) == digit_val(sd[0]),
{
    crate::text::lemma_digits_front(sd);
    let p = pow(10, (sd.len() - 1) as nat);
    vstd::arithmetic::power::lemma_pow_positive(10, (sd.len() - 1) as nat);
    assert(forall|i: int|
        0 <= i < sd.drop_first().len() ==> is_digit(#[trigger] sd.drop_first()[i]));
    crate::text::lemma_digits_val_upper(sd.drop_first());
    crate::text::lemma_digits_val_nonneg(sd.drop_first());
    vstd::arithmetic::div_mod::lemma_div_multiples_vanish_fancy(
        digit_val(sd[0]) as int,
        digits_val(sd.drop_first()),
        p,
    );
    assert(p * digit_val(sd[0]) == digit_val(sd[0]) * p) by (nonlinear_arith);
}


/// Reads the exponent that follows the marker at `k`: an optional sign,
/// then digits, the value clamped as [`exp_val`] clamps it.
#[verifier::loop_isolation(false)]
fn exponent_of(cs: &Vec<char>, Ghost(u): Ghost<Seq<char>>, start: usize, k: usize) -> (ex: i64)
    requires
        start <= k < cs@.len(),
        u == cs@.skip(start as int),
        crate::nodes::node::exponent_ok(u.skip(k - start + 1)),
    ensures
        ex as int == exp_val(u.skip(k - start as int + 1)),
        -4000000000000000000 <= ex <= 4000000000000000000,
{
    let n = cs.len();
    let ghost ex0 = u.skip(k - start as int + 1);
    proof {
        assert(ex0.len() == n - k - 1);
        assert(forall|i: int| 0 <= i < ex0.len() ==> #[trigger] ex0[i] == cs@[k + 1 + i]);
    }
    let mut es: usize = k + 1;
    let mut exp_neg: bool = false;
    if es < n && (cs[es] == '+' || cs[es] == '-') {
        exp_neg = cs[es] == '-';
        es = es + 1;
    }
    let edigits = crate::text::vec_range(cs, es, n);
    proof {
        if es == k + 2 {
            assert(ex0.len() > 0 && (ex0[0] == '+' || ex0[0] == '-'));
            assert(ex0[0] == cs@[k + 1]);
            assert(exp_neg == (ex0[0] == '-'));
            assert(ex0.drop_first() =~= edigits@);
        } else {
            assert(ex0 =~= edigits@);
            if ex0.len() > 0 {
                assert(ex0[0] == cs@[k + 1]);
                assert(ex0[0] != '+' && ex0[0] != '-');
            }
        }
        assert(forall|i: int| 0 <= i < edigits@.len() ==> is_digit(#[trigger] edigits@[i]));
        crate::text::lemma_digits_val_nonneg(edigits@);
    }
    let mag: u64 = match crate::parser::default::digits_to_u64(
        &edigits,
        0,
        4000000000000000000u64,
    ) {
        Option::Some(m) => m,
        Option::None => 4000000000000000000u64,
    };
    proof {
        assert(edigits@.skip(0) =~= edigits@);
    }
    if exp_neg {
        -(mag as i64)
    } else {
        mag as i64
    }
}

/// In a well-formed mantissa, every character but the point is a digit.
proof fn lemma_mantissa_digits(mant: Seq<char>)
    requires
        mantissa_ok(mant),
    ensures
        first_dot(mant) < mant.len() ==> forall|i: int|
            0 <= i < (mant.take(first_dot(mant)) + mant.skip(first_dot(mant) + 1)).len()
                ==> is_digit(
                #[trigger] (mant.take(first_dot(mant)) + mant.skip(first_dot(mant) + 1))[i],
            ),
        first_dot(mant) >= mant.len() ==> forall|i: int|
            0 <= i < mant.len() ==> is_digit(#[trigger] mant[i]),
{
    lemma_first_dot(mant);
    crate::parser::default::lemma_first_nondigit(mant);
    let j0 = first_nondigit(mant);
    let dp = first_dot(mant);
    if j0 < mant.len() {
        assert(mant[j0] == '.');
        assert(j0 == dp) by {
            if j0 < dp {
                assert(mant[j0] != '.');
            }
            if j0 > dp {
                assert(dp < mant.len());
                assert(is_digit(mant[dp]));
            }
        }
        let digs = mant.take(dp) + mant.skip(dp + 1);
        assert(crate::nodes::node::all_digits(mant.skip(j0 + 1)));
        assert(forall|i: int| 0 <= i < j0 ==> is_digit(#[trigger] mant[i]));
        assert forall|i: int| 0 <= i < digs.len() implies is_digit(#[trigger] digs[i]) by {
            if i < dp {
                assert(digs[i] == mant.take(dp)[i]);
                assert(mant.take(dp)[i] == mant[i]);
            } else {
                assert(digs[i] == mant.skip(dp + 1)[i - dp]);
            }
        }
    } else {
        assert(dp >= mant.len()) by {
            if dp < mant.len() {
                assert(is_digit(mant[dp]));
            }
        }
        assert(forall|i: int| 0 <= i < mant.len() ==> is_digit(#[trigger] mant[i]));
    }
}

/// Rounds the well-formed decimal literal in `cs` to the nearest integer,
/// halves away from zero, clamped to the 64-bit signed range.
#[verifier::loop_isolation(false)]
#[verifier::rlimit(100)]
fn round_lit_chars(cs: &Vec<char>) -> (r: i64)
    requires
        is_float_lit(cs@),
    ensures
        r as int == round_lit(cs@),
{
    let n = cs.len();
    let neg: bool = n > 0 && cs[0] == '-';
    let start: usize = if neg {
        1
    } else {
        0
    };
    let ghost u = cs@.skip(start as int);
    proof {
        if start == 0 {
            assert(u =~= cs@);
        } else {
            assert(u =~= cs@.drop_first());
        }
        crate::parser::default::lemma_first_e(u);
    }
    // the first exponent marker
    let mut k: usize = start;
    while k < n && cs[k] != 'e' && cs[k] != 'E'
        invariant
            start <= k <= n,
            forall|j: int| start <= j < k ==> (#[trigger] cs@[j]) != 'e' && cs@[j] != 'E',
        decreases n - k,
    {
        k = k + 1;
    }
    proof {
        assert(first_e(u) == k - start) by {
            if first_e(u) < k - start {
                assert(u[first_e(u)] == cs@[start + first_e(u)]);
            }
            if first_e(u) > k - start {
                assert(k < n);
                assert(u[k - start as int] == cs@[k as int]);
            }
        }
    }
    let ghost mant = u.take(k - start as int);
    proof {
        assert(mant.len() == k - start);
        assert(forall|i: int| 0 <= i < mant.len() ==> #[trigger] mant[i] == cs@[start + i]);
        lemma_first_dot(mant);
        crate::parser::default::lemma_first_nondigit(mant);
    }
    // the exponent, clamped
    let ex: i64 = if k < n {
        exponent_of(cs, Ghost(u), start, k)
    } else {
        0
    };
    // the first point in the mantissa
    let mut dp: usize = start;
    while dp < k && cs[dp] != '.'
        invariant
            start <= dp <= k,
            forall|j: int| start <= j < dp ==> (#[trigger] cs@[j]) != '.',
        decreases k - dp,
    {
        dp = dp + 1;
    }
    proof {
        assert(first_dot(mant) == dp - start) by {
            if first_dot(mant) < dp - start {
                assert(mant[first_dot(mant)] == cs@[start + first_dot(mant)]);
            }
            if first_dot(mant) > dp - start {
                assert(dp < k);
                assert(mant[dp - start as int] == cs@[dp as int]);
            }
        }
    }
    // the digits of the mantissa, the point removed
    let digs: Vec<char> = if dp < k {
        let mut a = crate::text::vec_range(cs, start, dp);
        let b = crate::text::vec_range(cs, dp + 1, k);
        let ghost av = a@;
        let mut bi: usize = 0;
        while bi < b.len()
            invariant
                bi <= b@.len(),
                a@ == av + b@.take(bi as int),
            decreases b@.len() - bi,
        {
            a.push(b[bi]);
            bi = bi + 1;
            assert(a@ =~= av + b@.take(bi as int));
        }
        proof {
            assert(b@.take(b@.len() as int) =~= b@);
        }
        a
    } else {
        crate::text::vec_range(cs, start, k)
    };
    let scale: usize = if dp < k {
        k - dp - 1
    } else {
        0
    };
    proof {
        if dp < k {
            assert(digs@ =~= mant.take(dp - start as int) + mant.skip(dp - start + 1));
        } else {
            assert(digs@ =~= mant);
        }
    }
    // the literal is well formed, so every remaining character is a digit
    proof {
        assert(mantissa_ok(mant)) by {
            if k - start < u.len() {
                assert(mant =~= u.take(first_e(u)));
            } else {
                assert(mant =~= u);
            }
        }
        lemma_mantissa_digits(mant);
        if first_dot(mant) < mant.len() {
            assert(digs@ =~= mant.take(first_dot(mant)) + mant.skip(first_dot(mant) + 1));
        } else {
            assert(digs@ =~= mant);
        }
        assert(forall|i: int| 0 <= i < digs@.len() ==> is_digit(#[trigger] digs@[i]));
    }
    // strip the leading zeros
    let mut z: usize = 0;
    while z < digs.len() && digs[z] == '0'
        invariant
            z <= digs@.len(),
            forall|j: int| 0 <= j < z ==> (#[trigger] digs@[j]) == '0',
        decreases digs@.len() - z,
    {
        z = z + 1;
    }
    let sd = crate::text::vec_range(&digs, z, digs.len());
    proof {
        crate::text::lemma_digits_val_strip_zeros(digs@, z as int);
        assert(sd@ =~= digs@.skip(z as int));
        assert(digits_val(sd@) == digits_val(digs@));
        if sd@.len() > 0 {
            assert(sd@[0] == digs@[z as int]);
            assert(is_digit(sd@[0]) && sd@[0] != '0');
            assert(digit_val(sd@[0]) >= 1);
        }
    }
    round_from_parts(neg, &sd, scale, ex)
}


// ---------------------------------------------------------------------------
// What the bencode encoder emits
// ---------------------------------------------------------------------------

/// The bencode text of a numeric value: `i`, the digits, `e`.  A float is
/// rounded to the nearest integer by [`spec_float_int`]; the widths without
/// a rendering of their own fall back to their debug form between the
/// brackets.
pub open spec fn spec_bencode_num(m: NumericV) -> Seq<char> {
    match m {
        NumericV::Integer(i) => seq!['i'] + spec_int_chars(i) + seq!['e'],
        NumericV::UInteger(v) => seq!['i'] + spec_int_chars(v) + seq!['e'],
        NumericV::Float(l) => seq!['i'] + spec_int_chars(spec_float_int(l)) + seq!['e'],
        NumericV::Byte(b) => seq!['i'] + spec_int_chars(b) + seq!['e'],
        NumericV::Int32(i) => seq!['i'] + spec_int_chars(i) + seq!['e'],
        NumericV::UInt32(v) => seq!['i'] + spec_int_chars(v) + seq!['e'],
        NumericV::Int16(i) => seq!['i'] + "Int16("@ + spec_int_chars(i) + ")"@ + seq!['e'],
        NumericV::UInt16(v) => seq!['i'] + "UInt16("@ + spec_int_chars(v) + ")"@ + seq!['e'],
        NumericV::Int8(i) => seq!['i'] + "Int8("@ + spec_int_chars(i) + ")"@ + seq!['e'],
    }
}

/// The length-prefixed bencode text of a string: the count of its UTF-8
/// bytes as the machine reports it, a colon, the characters.
pub open spec fn spec_bencode_str(s: Seq<char>) -> Seq<char> {
    spec_int_chars((vstd::utf8::encode_utf8(s).len() as usize) as int) + seq![':'] + s
}

/// The bencode text of the tree `v`: null the empty text, booleans the
/// integers one and zero, numbers between `i` and `e`, strings
/// length-prefixed, lists between `l` and `e`, and dictionaries between
/// `d` and `e` with their entries in ascending key order.
pub open spec fn spec_bencode(v: NodeV) -> Seq<char>
    decreases v, 1int,
{
    match v {
        NodeV::Null => Seq::empty(),
        NodeV::Boolean(b) => if b {
            "i1e"@
        } else {
            "i0e"@
        },
        NodeV::Number(m) => spec_bencode_num(m),
        NodeV::Text(s) => spec_bencode_str(s),
        NodeV::List(items) => seq!['l'] + spec_bencode_items(items) + seq!['e'],
        NodeV::Dict(entries) => seq!['d'] + spec_bencode_dict(entries, sort_order(entries))
            + seq!['e'],
    }
}

/// The bencode texts of the elements of a list, in order.
pub open spec fn spec_bencode_items(items: Seq<NodeV>) -> Seq<char>
    decreases items, 0int,
{
    if items.len() == 0 {
        Seq::empty()
    } else {
        spec_bencode(items[0]) + spec_bencode_items(items.drop_first())
    }
}

/// The bencode texts of the entries of a dictionary, walked in the order
/// `order` gives: each a length-prefixed key, then the value.
pub open spec fn spec_bencode_dict(entries: Seq<(Seq<char>, NodeV)>, order: Seq<int>) -> Seq<char>
    decreases entries, order.len(),
{
    if order.len() == 0 {
        Seq::empty()
    } else {
        let i = order[0];
        if 0 <= i < entries.len() {
            spec_bencode_str(entries[i].0) + spec_bencode(entries[i].1) + spec_bencode_dict(
                entries,
                order.drop_first(),
            )
        } else {
            // cannot occur: the order holds positions of the entry list
            spec_bencode_dict(entries, order.drop_first())
        }
    }
}

// ---------------------------------------------------------------------------
// The encoder
// ---------------------------------------------------------------------------

/// Writes the bencode text for the tree under `node`: exactly
/// [`spec_bencode`] of it is appended to the destination — dictionaries
/// with their keys in ascending order whatever order the tree holds them
/// in.
#[verifier::loop_isolation(false)]
#[verifier::rlimit(100)]
pub fn stringify(node: &Node, destination: &mut Buffer)
    ensures
        final(destination)@ == old(destination)@ + spec_bencode(node@),
    decreases *node,
{
    match node {
        Node::Null => {
            proof {
                assert(final(destination)@ =~= old(destination)@ + spec_bencode(node@));
            }
        },
        Node::Boolean(value) => destination.add_bytes(if *value {
            "i1e"
        } else {
            "i0e"
        }),
        Node::Number(value) => {
            destination.add_bytes("i");
            let digits: String = match value {
                Numeric::Integer(n) => i64_to_string(*n),
                Numeric::UInteger(n) => u64_to_string(*n),
                Numeric::Float(l) => {
                    let lc = crate::text::chars_vec(l.as_str());
                    if crate::parser::default::check_float_lit(&lc) {
                        i64_to_string(round_lit_chars(&lc))
                    } else {
                        i64_to_string(0)
                    }
                },
                Numeric::Byte(b) => u64_to_string(*b as u64),
                Numeric::Int32(i) => i64_to_string(*i as i64),
                Numeric::UInt32(v) => u64_to_string(*v as u64),
                Numeric::Int16(i) => {
                    let s = crate::stringify::numbers::numeric_to_string(value);
                    s
                },
                Numeric::UInt16(v) => {
                    let s = crate::stringify::numbers::numeric_to_string(value);
                    s
                },
                Numeric::Int8(i) => {
                    let s = crate::stringify::numbers::numeric_to_string(value);
                    s
                },
            };
            destination.add_bytes(digits.as_str());
            destination.add_bytes("e");
            proof {
                reveal_strlit("i");
                reveal_strlit("e");
                assert(final(destination)@ =~= old(destination)@ + spec_bencode(node@));
            }
        },
        Node::Str(value) => {
            write_bencode_str(value.as_str(), destination);
        },
        Node::Array(items) => {
            destination.add_bytes("l");
            let ghost entry = destination@;
            let ghost vs = node@->List_0;
            let mut i: usize = 0;
            proof {
                assert(vs.skip(0) =~= vs);
            }
            while i < items.len()
                invariant
                    i <= items.len(),
                    vs.len() == items.len(),
                    forall|j: int| 0 <= j < items.len() ==> vs[j] == #[trigger] items[j]@,
                    entry + spec_bencode_items(vs) == destination@ + spec_bencode_items(
                        vs.skip(i as int),
                    ),
                decreases items.len() - i,
            {
                proof {
                    assert(decreases_to!(Node::Array(*items) => *items));
                    assert(decreases_to!(*items => items@));
                    assert(decreases_to!(items@ => items@[i as int]));
                }
                stringify(&items[i], destination);
                proof {
                    assert(vs.skip(i as int).drop_first() =~= vs.skip(i + 1));
                    assert(vs.skip(i as int)[0] == vs[i as int]);
                    assert(entry + spec_bencode_items(vs) =~= destination@ + spec_bencode_items(
                        vs.skip(i + 1),
                    ));
                }
                i = i + 1;
            }
            proof {
                assert(vs.skip(vs.len() as int) =~= Seq::<NodeV>::empty());
            }
            destination.add_bytes("e");
            proof {
                reveal_strlit("l");
                reveal_strlit("e");
                assert(final(destination)@ =~= old(destination)@ + spec_bencode(node@));
            }
        },
        Node::Object(entries) => {
            destination.add_bytes("d");
            let ghost entry = destination@;
            let ghost es = node@->Dict_0;
            let order = sorted_positions(entries);
            let ghost ord = sort_order(es);
            proof {
                assert(es =~= entries_view(entries@));
                assert(ord.skip(0) =~= ord);
            }
            let mut i: usize = 0;
            while i < order.len()
                invariant
                    i <= order@.len(),
                    es == entries_view(entries@),
                    order@.len() == ord.len(),
                    forall|p: int|
                        0 <= p < order@.len() ==> (#[trigger] order@[p]) < entries@.len()
                            && order@[p] as int == ord[p],
                    entry + spec_bencode_dict(es, ord) == destination@ + spec_bencode_dict(
                        es,
                        ord.skip(i as int),
                    ),
                decreases order@.len() - i,
            {
                let oi = order[i];
                write_bencode_str(entries[oi].0.as_str(), destination);
                proof {
                    assert(decreases_to!(Node::Object(*entries) => *entries));
                    assert(decreases_to!(*entries => entries@));
                    assert(decreases_to!(entries@ => entries@[oi as int]));
                    assert(decreases_to!(entries@[oi as int] => entries@[oi as int].1));
                }
                stringify(&entries[oi].1, destination);
                proof {
                    assert(ord.skip(i as int).drop_first() =~= ord.skip(i + 1));
                    assert(ord.skip(i as int)[0] == ord[i as int]);
                    assert(es[oi as int] == (entries@[oi as int].0@, entries@[oi as int].1@));
                    assert(entry + spec_bencode_dict(es, ord) =~= destination@
                        + spec_bencode_dict(es, ord.skip(i + 1)));
                }
                i = i + 1;
            }
            proof {
                assert(ord.skip(ord.len() as int) =~= Seq::<int>::empty());
            }
            destination.add_bytes("e");
            proof {
                reveal_strlit("d");
                reveal_strlit("e");
                assert(final(destination)@ =~= old(destination)@ + spec_bencode(node@));
            }
        },
    }
}

/// Writes the length-prefixed bencode text of a string: the count of its
/// UTF-8 bytes, a colon, the characters.
fn write_bencode_str(s: &str, destination: &mut Buffer)
    ensures
        final(destination)@ == old(destination)@ + spec_bencode_str(s@),
{
    let len = s.len();
    let digits = u64_to_string(len as u64);
    destination.add_bytes(digits.as_str());
    destination.add_bytes(":");
    destination.add_bytes(s);
    proof {
        reveal_strlit(":");
        assert(digits@ == crate::text::spec_udigits(len as nat));
        assert(final(destination)@ =~= old(destination)@ + spec_bencode_str(s@));
    }
}

} // verus!
