//! The mathematical model of bit-vectors: a value is a sequence of bits,
//! least-significant first, read either as an unsigned natural number or as a
//! two's-complement integer.

use vstd::prelude::*;
use vstd::arithmetic::power2::*;
use vstd::arithmetic::div_mod::*;
use vstd::arithmetic::mul::*;

verus! {

/// Unsigned numeric value of a bit sequence (bit 0 is least significant).
pub open spec fn uval(s: Seq<bool>) -> nat
    decreases s.len(),
{
    if s.len() == 0 {
        0
    } else {
        (if s[0] {
            1nat
        } else {
            0nat
        }) + 2 * uval(s.drop_first())
    }
}

/// Two's-complement value of a bit sequence: the most-significant bit counts
/// negatively.
pub open spec fn sval(s: Seq<bool>) -> int {
    if s.len() == 0 {
        0
    } else if s[s.len() - 1] {
        uval(s) - pow2(s.len())
    } else {
        uval(s) as int
    }
}

/// The canonical `w`-bit sequence holding `n % pow2(w)`.
pub open spec fn bits_of(n: nat, w: nat) -> Seq<bool> {
    Seq::new(w, |i: int| (n / pow2(i as nat)) % 2 == 1)
}

/// A sequence of `k` zero bits.
pub open spec fn zeros(k: nat) -> Seq<bool> {
    Seq::new(k, |i: int| false)
}

/// Bitwise complement.
pub open spec fn not_bits(s: Seq<bool>) -> Seq<bool> {
    Seq::new(s.len(), |i: int| !s[i])
}

/// Bitwise conjunction of two equal-width sequences.
pub open spec fn and_bits(a: Seq<bool>, b: Seq<bool>) -> Seq<bool> {
    Seq::new(a.len(), |i: int| a[i] && b[i])
}

/// Bitwise disjunction of two equal-width sequences.
pub open spec fn or_bits(a: Seq<bool>, b: Seq<bool>) -> Seq<bool> {
    Seq::new(a.len(), |i: int| a[i] || b[i])
}

/// Bitwise exclusive or of two equal-width sequences.
pub open spec fn xor_bits(a: Seq<bool>, b: Seq<bool>) -> Seq<bool> {
    Seq::new(a.len(), |i: int| a[i] != b[i])
}

/// Wraparound sum at the operand width.
pub open spec fn add_bits(a: Seq<bool>, b: Seq<bool>) -> Seq<bool> {
    bits_of(uval(a) + uval(b), a.len())
}

/// Wraparound difference at the operand width.
pub open spec fn sub_bits(a: Seq<bool>, b: Seq<bool>) -> Seq<bool> {
    bits_of((uval(a) + pow2(a.len()) - uval(b)) as nat, a.len())
}

/// Logical shift left by `k`, width-preserving.
pub open spec fn shl_bits(a: Seq<bool>, k: nat) -> Seq<bool> {
    bits_of(uval(a) * pow2(k), a.len())
}

/// Logical shift right by `k`, width-preserving.
pub open spec fn lshr_bits(a: Seq<bool>, k: nat) -> Seq<bool> {
    bits_of(uval(a) / pow2(k), a.len())
}

/// Arithmetic shift right by `k`: a floor division of the signed reading.
pub open spec fn ashr_bits(a: Seq<bool>, k: nat) -> Seq<bool> {
    bits_of(((sval(a) / (pow2(k) as int)) % (pow2(a.len()) as int)) as nat, a.len())
}

/// Concatenation with `high` occupying the most-significant bits.
pub open spec fn concat_bits(high: Seq<bool>, low: Seq<bool>) -> Seq<bool> {
    low + high
}

/// Exact product, truncated to the operand width.
pub open spec fn mul_bits(a: Seq<bool>, b: Seq<bool>) -> Seq<bool> {
    bits_of(uval(a) * uval(b), a.len())
}

/// Exact unsigned quotient, truncated to the operand width.
pub open spec fn udiv_bits(a: Seq<bool>, b: Seq<bool>) -> Seq<bool> {
    bits_of(uval(a) / uval(b), a.len())
}

/// Exact unsigned remainder, truncated to the operand width.
pub open spec fn umod_bits(a: Seq<bool>, b: Seq<bool>) -> Seq<bool> {
    bits_of(uval(a) % uval(b), a.len())
}

/// Absolute value.
pub open spec fn iabs(a: int) -> nat {
    if a >= 0 {
        a as nat
    } else {
        (-a) as nat
    }
}

/// Truncating ("C-style") signed division: magnitudes divide, the sign is the
/// product of the signs.
pub open spec fn tdiv(a: int, b: int) -> int {
    if (a < 0) == (b < 0) {
        (iabs(a) / iabs(b)) as int
    } else {
        -((iabs(a) / iabs(b)) as int)
    }
}

/// Floor division: rounds toward negative infinity. For a positive divisor it
/// is the Euclidean quotient; for a negative one it differs where the
/// remainder is nonzero.
pub open spec fn fdiv(a: int, b: int) -> int {
    if b >= 0 {
        a / b
    } else if a % (-b) == 0 {
        -(a / (-b))
    } else {
        -(a / (-b)) - 1
    }
}

/// Floored modulo: `a - b * floor(a / b)`; the result is consistent in sign
/// with the divisor.
pub open spec fn fmod(a: int, b: int) -> int {
    a - b * fdiv(a, b)
}

/// Truncating signed quotient, re-encoded at the operand width.
pub open spec fn sdiv_bits(a: Seq<bool>, b: Seq<bool>) -> Seq<bool> {
    bits_of((tdiv(sval(a), sval(b)) % (pow2(a.len()) as int)) as nat, a.len())
}

/// Floored signed remainder, re-encoded at the operand width.
pub open spec fn smod_bits(a: Seq<bool>, b: Seq<bool>) -> Seq<bool> {
    bits_of((fmod(sval(a), sval(b)) % (pow2(a.len()) as int)) as nat, a.len())
}

pub proof fn lemma_uval_zeros(k: nat)
    ensures
        uval(zeros(k)) == 0,
    decreases k,
{
    if k > 0 {
        assert(zeros(k).drop_first() =~= zeros((k - 1) as nat));
        lemma_uval_zeros((k - 1) as nat);
    }
}

/// Every value fits below `pow2` of its width.
pub proof fn lemma_uval_bound(s: Seq<bool>)
    ensures
        uval(s) < pow2(s.len()),
    decreases s.len(),
{
    if s.len() == 0 {
        assert(pow2(0) == 1) by {
            lemma2_to64();
        }
    } else {
        lemma_uval_bound(s.drop_first());
        lemma_pow2_unfold(s.len());
    }
}

/// Splitting a sequence at index `i` splits its value:
/// low part plus `pow2(i)` times the high part.
pub proof fn lemma_uval_split(s: Seq<bool>, i: int)
    requires
        0 <= i <= s.len(),
    ensures
        uval(s) == uval(s.take(i)) + pow2(i as nat) * uval(s.skip(i)),
    decreases i,
{
    if i == 0 {
        assert(s.take(0) =~= Seq::<bool>::empty());
        assert(s.skip(0) =~= s);
        assert(pow2(0) == 1) by {
            lemma2_to64();
        }
    } else {
        let t = s.drop_first();
        lemma_uval_split(t, i - 1);
        assert(s.take(i).drop_first() =~= t.take(i - 1));
        assert(s.skip(i) =~= t.skip(i - 1));
        lemma_pow2_unfold(i as nat);
        let b0: nat = if s[0] {
            1nat
        } else {
            0nat
        };
        assert(uval(s.take(i)) == b0 + 2 * uval(t.take(i - 1)));
        assert(uval(s) == b0 + 2 * (uval(t.take(i - 1)) + pow2((i - 1) as nat) * uval(t.skip(
            i - 1,
        ))));
        assert(2 * (pow2((i - 1) as nat) * uval(t.skip(i - 1))) == (2 * pow2((i - 1) as nat))
            * uval(t.skip(i - 1))) by (nonlinear_arith);
    }
}

/// Appending zero bits above the most-significant bit keeps the value.
pub proof fn lemma_uval_append_zeros(s: Seq<bool>, k: nat)
    ensures
        uval(s + zeros(k)) == uval(s),
{
    let e = s + zeros(k);
    lemma_uval_split(e, s.len() as int);
    assert(e.take(s.len() as int) =~= s);
    assert(e.skip(s.len() as int) =~= zeros(k));
    lemma_uval_zeros(k);
}

/// Prepending `k` zero bits below the least-significant bit multiplies the
/// value by `pow2(k)`.
pub proof fn lemma_uval_prepend_zeros(s: Seq<bool>, k: nat)
    ensures
        uval(zeros(k) + s) == pow2(k) * uval(s),
{
    let e = zeros(k) + s;
    lemma_uval_split(e, k as int);
    assert(e.take(k as int) =~= zeros(k));
    assert(e.skip(k as int) =~= s);
    lemma_uval_zeros(k);
}

/// A set bit at position `j` pushes the value to at least `pow2(j)`.
pub proof fn lemma_uval_high_bit(s: Seq<bool>, j: int)
    requires
        0 <= j < s.len(),
        s[j],
    ensures
        uval(s) >= pow2(j as nat),
{
    lemma_uval_split(s, j);
    assert(s.skip(j)[0] == s[j]);
    assert(uval(s.skip(j)) >= 1);
    assert(pow2(j as nat) * uval(s.skip(j)) >= pow2(j as nat) * 1) by (nonlinear_arith)
        requires
            uval(s.skip(j)) >= 1,
            pow2(j as nat) >= 0,
    ;
}

/// `bits_of` decodes back to `n % pow2(w)`.
pub proof fn lemma_uval_bits_of(n: nat, w: nat)
    ensures
        uval(bits_of(n, w)) == n % pow2(w),
    decreases w,
{
    lemma_pow2_pos(w);
    if w == 0 {
        assert(pow2(0) == 1) by {
            lemma2_to64();
        }
        assert(n % 1 == 0) by {
            lemma_mod_bound(n as int, 1);
        }
    } else {
        let s = bits_of(n, w);
        let half: nat = n / 2;
        lemma_uval_bits_of(half, (w - 1) as nat);
        assert(s.drop_first() =~= bits_of(half, (w - 1) as nat)) by {
            assert forall|i: int| 0 <= i < w - 1 implies s.drop_first()[i] == bits_of(
                half,
                (w - 1) as nat,
            )[i] by {
                lemma_pow2_unfold((i + 1) as nat);
                assert(n / pow2((i + 1) as nat) == half / pow2(i as nat)) by {
                    lemma_pow2_pos(i as nat);
                    lemma_div_denominator(n as int, 2, pow2(i as nat) as int);
                }
            }
        }
        assert(pow2(0) == 1) by {
            lemma2_to64();
        }
        assert(n / pow2(0) == n) by {
            lemma_div_basics(n as int);
        }
        assert(s[0] == (n % 2 == 1));
        lemma_pow2_unfold(w);
        // n % 2^w == n % 2 + 2 * (n/2 % 2^(w-1))
        assert(n % (2 * pow2((w - 1) as nat)) == n % 2 + 2 * ((n / 2) % pow2((w - 1) as nat)))
            by {
            lemma_pow2_pos((w - 1) as nat);
            lemma_breakdown(n as int, 2, pow2((w - 1) as nat) as int);
        }
        assert(n % 2 == 1 || n % 2 == 0) by {
            lemma_mod_bound(n as int, 2);
        }
    }
}

/// Canonicity: a sequence is exactly the `bits_of` of its own value.
pub proof fn lemma_bits_of_uval(s: Seq<bool>)
    ensures
        bits_of(uval(s), s.len()) == s,
    decreases s.len(),
{
    if s.len() == 0 {
        assert(bits_of(uval(s), 0) =~= s);
    } else {
        let t = s.drop_first();
        lemma_bits_of_uval(t);
        let n = uval(s);
        let b0: nat = if s[0] {
            1nat
        } else {
            0nat
        };
        assert(n == b0 + 2 * uval(t));
        assert(n / 2 == uval(t) && n % 2 == b0) by {
            lemma_fundamental_div_mod_converse(n as int, 2, uval(t) as int, b0 as int);
        }
        assert(pow2(0) == 1) by {
            lemma2_to64();
        }
        assert(bits_of(n, s.len()) =~= s) by {
            assert forall|i: int| 0 <= i < s.len() implies bits_of(n, s.len())[i] == s[i] by {
                if i == 0 {
                    assert(n / pow2(0) == n) by {
                        lemma_div_basics(n as int);
                    }
                } else {
                    assert(bits_of(uval(t), t.len())[i - 1] == t[i - 1]);
                    lemma_pow2_unfold(i as nat);
                    lemma_pow2_pos((i - 1) as nat);
                    assert(n / pow2(i as nat) == uval(t) / pow2((i - 1) as nat)) by {
                        lemma_div_denominator(n as int, 2, pow2((i - 1) as nat) as int);
                        assert(n / 2 == uval(t));
                    }
                }
            }
        }
    }
}

/// Two sequences of one length and one value are the same sequence.
pub proof fn lemma_uval_injective(a: Seq<bool>, b: Seq<bool>)
    requires
        a.len() == b.len(),
        uval(a) == uval(b),
    ensures
        a == b,
{
    lemma_bits_of_uval(a);
    lemma_bits_of_uval(b);
}

/// The signed and unsigned readings agree modulo `pow2` of the width.
pub proof fn lemma_sval_congruent(s: Seq<bool>)
    ensures
        sval(s) % (pow2(s.len()) as int) == uval(s),
{
    lemma_pow2_pos(s.len());
    lemma_uval_bound(s);
    if s.len() > 0 && s[s.len() - 1] {
        assert((uval(s) - pow2(s.len())) % (pow2(s.len()) as int) == (uval(s) as int) % (pow2(
            s.len(),
        ) as int)) by {
            lemma_mod_sub_multiples_vanish(uval(s) as int, pow2(s.len()) as int);
        }
        lemma_small_mod(uval(s), pow2(s.len()));
    } else {
        lemma_small_mod(uval(s), pow2(s.len()));
    }
}

/// Pushing a bit above the most-significant end adds it at weight `pow2` of
/// the old length.
pub proof fn lemma_uval_snoc(s: Seq<bool>, b: bool)
    ensures
        uval(s.push(b)) == uval(s) + (if b {
            pow2(s.len())
        } else {
            0nat
        }),
    decreases s.len(),
{
    if s.len() == 0 {
        assert(s.push(b).drop_first() =~= Seq::<bool>::empty());
        assert(pow2(0) == 1) by {
            lemma2_to64();
        }
        assert(s.push(b)[0] == b);
        assert(uval(s.push(b)) == (if b {
            1nat
        } else {
            0nat
        }) + 2 * uval(s.push(b).drop_first()));
    } else {
        assert(s.push(b).drop_first() =~= s.drop_first().push(b));
        lemma_uval_snoc(s.drop_first(), b);
        lemma_pow2_unfold(s.len());
        assert(s.push(b)[0] == s[0]);
        assert(uval(s.push(b)) == (if s[0] {
            1nat
        } else {
            0nat
        }) + 2 * uval(s.drop_first().push(b)));
    }
}

/// The complement's value: all-ones minus the value.
pub proof fn lemma_uval_not(s: Seq<bool>)
    ensures
        uval(not_bits(s)) == pow2(s.len()) - 1 - uval(s),
    decreases s.len(),
{
    lemma_uval_bound(s);
    if s.len() == 0 {
        assert(not_bits(s) =~= Seq::<bool>::empty());
        assert(pow2(0) == 1) by {
            lemma2_to64();
        }
    } else {
        assert(not_bits(s).drop_first() =~= not_bits(s.drop_first()));
        lemma_uval_not(s.drop_first());
        lemma_uval_bound(s.drop_first());
        lemma_pow2_unfold(s.len());
    }
}

/// Congruent integers that lie within one modulus of each other are equal.
pub proof fn lemma_mod_range_unique(a: int, b: int, m: int)
    requires
        m > 0,
        a % m == b % m,
        -m < a - b < m,
    ensures
        a == b,
{
    lemma_fundamental_div_mod(a, m);
    lemma_fundamental_div_mod(b, m);
    let qa = a / m;
    let qb = b / m;
    assert(a - b == (qa - qb) * m) by (nonlinear_arith)
        requires
            a == m * qa + a % m,
            b == m * qb + b % m,
            a % m == b % m,
    ;
    assert(qa == qb) by (nonlinear_arith)
        requires
            -m < (qa - qb) * m < m,
            m > 0,
    ;
}

/// Concrete values for the wide powers of two the 128-bit conversions need.
pub proof fn lemma_pow2_128()
    ensures
        pow2(127) == 0x80000000000000000000000000000000,
        pow2(128) == 0x100000000000000000000000000000000,
{
    lemma2_to64_rest();
    lemma_pow2_adds(63, 64);
    lemma_pow2_adds(64, 64);
}

/// A sequence of `k` one bits.
pub open spec fn ones(k: nat) -> Seq<bool> {
    Seq::new(k, |i: int| true)
}

pub proof fn lemma_uval_ones(k: nat)
    ensures
        uval(ones(k)) == pow2(k) - 1,
{
    assert(ones(k) =~= not_bits(zeros(k)));
    lemma_uval_not(zeros(k));
    lemma_uval_zeros(k);
}

/// Comparison decides at the highest differing bit: if everything above bit
/// `j` agrees and `a` is clear where `b` is set, then `a` is smaller.
pub proof fn lemma_uval_msb_compare(a: Seq<bool>, b: Seq<bool>, j: int)
    requires
        a.len() == b.len(),
        0 <= j < a.len(),
        a.skip(j + 1) == b.skip(j + 1),
        !a[j],
        b[j],
    ensures
        uval(a) < uval(b),
{
    lemma_uval_split(a, j);
    lemma_uval_split(b, j);
    assert(a.skip(j).drop_first() =~= a.skip(j + 1));
    assert(b.skip(j).drop_first() =~= b.skip(j + 1));
    let x = uval(a.skip(j + 1));
    assert(uval(a.skip(j)) == 2 * x);
    assert(uval(b.skip(j)) == 1 + 2 * x);
    lemma_uval_bound(a.take(j));
    lemma_uval_bound(b.take(j));
    assert(uval(b) - uval(a) == uval(b.take(j)) - uval(a.take(j)) + pow2(j as nat))
        by (nonlinear_arith)
        requires
            uval(a) == uval(a.take(j)) + pow2(j as nat) * (2 * x),
            uval(b) == uval(b.take(j)) + pow2(j as nat) * (1 + 2 * x),
    ;
}

/// The arithmetic right shift: dropping `k` low bits and repeating the sign
/// bit above realizes the floor division of the signed reading by `pow2(amt)`.
pub proof fn lemma_ashr_value(s: Seq<bool>, amt: nat, k: nat, out: Seq<bool>)
    requires
        k == if amt < s.len() {
            amt
        } else {
            s.len()
        },
        out == s.skip(k as int) + (if s.len() > 0 && s[s.len() - 1] {
            ones(k)
        } else {
            zeros(k)
        }),
    ensures
        out == ashr_bits(s, amt),
        out.len() == s.len(),
        sval(out) == sval(s) / (pow2(amt) as int),
{
    let n = s.len() as int;
    let wn = s.len();
    let p = pow2(amt) as int;
    lemma_pow2_pos(amt);
    lemma_pow2_pos(wn);
    if n == 0 {
        assert(out =~= Seq::<bool>::empty());
        assert(ashr_bits(s, amt) =~= Seq::<bool>::empty());
        lemma_basic_div(0int, p);
        return ;
    }
    let g = s[n - 1];
    let uu = uval(s);
    let ss = sval(s);
    // the value of the shifted-and-filled pattern
    lemma_uval_split(out, n - k);
    assert(out.take(n - k) =~= s.skip(k as int));
    assert(out.skip(n - k) =~= (if g {
        ones(k)
    } else {
        zeros(k)
    }));
    lemma_uval_ones(k);
    lemma_uval_zeros(k);
    // the dropped low bits realize division by pow2(k)
    let tt = uval(s.take(k as int));
    let hh = uval(s.skip(k as int));
    lemma_uval_split(s, k as int);
    lemma_uval_bound(s.take(k as int));
    lemma_pow2_pos(k);
    assert(uu as int == hh * (pow2(k) as int) + tt) by (nonlinear_arith)
        requires
            uu == tt + pow2(k) * hh,
    ;
    lemma_fundamental_div_mod_converse(uu as int, pow2(k) as int, hh as int, tt as int);
    assert(hh == uu / pow2(k));
    lemma_uval_bound(s);
    lemma_sval_bound(s);
    let q = ss / p;
    // q is exactly the value of the pattern, read signed
    if !g {
        // non-negative: plain unsigned division
        assert(uval(out) == hh + pow2((wn - k) as nat) * 0);
        if amt < wn {
            assert(q == hh);
        } else {
            assert(k == wn);
            assert(s.skip(n) =~= Seq::<bool>::empty());
            assert(pow2(wn) <= pow2(amt)) by {
                if wn < amt {
                    lemma_pow2_strictly_increases(wn, amt);
                }
            }
            lemma_basic_div(uu as int, p);
            assert(q == 0);
            assert(hh == 0);
        }
        assert(uval(out) == q);
        lemma_div_is_ordered_by_denominator(uu as int, 1, p);
        lemma_div_basics(uu as int);
        assert(q < pow2(wn));
        lemma_small_mod(q as nat, pow2(wn));
        assert((q % (pow2(wn) as int)) as nat == uval(out));
    } else {
        // negative: the sign fill adds pow2(wn) - pow2(wn - k)
        lemma_pow2_adds((wn - k) as nat, k);
        assert(uval(out) == hh + pow2((wn - k) as nat) * (pow2(k) - 1));
        assert(pow2((wn - k) as nat) * (pow2(k) - 1) == pow2(wn) - pow2((wn - k) as nat))
            by (nonlinear_arith)
            requires
                pow2((wn - k) as nat) * pow2(k) == pow2(wn),
        ;
        assert(uval(out) == hh + pow2(wn) - pow2((wn - k) as nat));
        if amt < wn {
            assert(k == amt);
            // floor((u - 2^wn) / 2^k) == u/2^k - 2^(wn-k)
            lemma_hoist_over_denominator(uu as int, -(pow2((wn - k) as nat) as int), pow2(k));
            assert((-(pow2((wn - k) as nat) as int)) * (pow2(k) as int) == -(pow2(wn) as int))
                by (nonlinear_arith)
                requires
                    pow2((wn - k) as nat) * pow2(k) == pow2(wn),
            ;
            assert(q == hh - pow2((wn - k) as nat));
        } else {
            assert(k == wn);
            assert(s.skip(n) =~= Seq::<bool>::empty());
            assert(hh == 0);
            assert(pow2(wn) <= pow2(amt)) by {
                if wn < amt {
                    lemma_pow2_strictly_increases(wn, amt);
                }
            }
            // -2^(wn-1) <= ss < 0 and p >= 2^wn, so the floor quotient is -1
            lemma_fundamental_div_mod_converse(ss, p, -1, ss + p);
            assert(q == -1);
            assert(pow2((wn - k) as nat) == 1) by {
                lemma2_to64();
            }
        }
        // in both cases uval(out) == q + pow2(wn)
        assert(uval(out) == q + pow2(wn));
        lemma_uval_bound(out);
        lemma_fundamental_div_mod_converse(q, pow2(wn) as int, -1, q + pow2(wn));
        assert((q % (pow2(wn) as int)) as nat == uval(out));
    }
    // identify the pattern with the specification form
    lemma_uval_bits_of((q % (pow2(wn) as int)) as nat, wn);
    lemma_mod_bound(q, pow2(wn) as int);
    lemma_small_mod((q % (pow2(wn) as int)) as nat, pow2(wn));
    lemma_uval_injective(out, ashr_bits(s, amt));
    // the signed reading of the result is exactly the floor quotient
    lemma_sval_congruent(out);
    lemma_sval_bound(out);
    // q lies in the signed range of the width
    lemma_fundamental_div_mod(ss, p);
    let rr = ss % p;
    lemma_mod_bound(ss, p);
    assert(q >= -(pow2((wn - 1) as nat) as int)) by (nonlinear_arith)
        requires
            ss == p * q + rr,
            0 <= rr < p,
            1 <= p,
            ss >= -(pow2((wn - 1) as nat) as int),
    ;
    assert(q < pow2((wn - 1) as nat)) by (nonlinear_arith)
        requires
            ss == p * q + rr,
            0 <= rr < p,
            1 <= p,
            ss < pow2((wn - 1) as nat),
    ;
    lemma_pow2_unfold(wn);
    lemma_mod_range_unique(q, sval(out), pow2(wn) as int);
}

/// How the floored remainder reads off the magnitudes: zero when the
/// magnitudes divide evenly; the magnitude remainder carrying the dividend's
/// sign when the operand signs agree; the complement to the divisor's
/// magnitude, carrying the divisor's sign, when they differ.
pub proof fn lemma_fmod_cases(a: int, b: int)
    requires
        b != 0,
    ensures
        iabs(a) % iabs(b) == 0 ==> fmod(a, b) == 0,
        iabs(a) % iabs(b) != 0 && (a < 0) == (b < 0) ==> fmod(a, b) == (if a < 0 {
            -((iabs(a) % iabs(b)) as int)
        } else {
            (iabs(a) % iabs(b)) as int
        }),
        iabs(a) % iabs(b) != 0 && (a < 0) != (b < 0) ==> fmod(a, b) == (if b < 0 {
            -((iabs(b) - iabs(a) % iabs(b)) as int)
        } else {
            (iabs(b) - iabs(a) % iabs(b)) as int
        }),
{
    let aa = iabs(a) as int;
    let bb = iabs(b) as int;
    lemma_fundamental_div_mod(aa, bb);
    let qm = aa / bb;
    let rm = aa % bb;
    lemma_mod_bound(aa, bb);
    lemma_div_pos_is_pos(aa, bb);
    assert(aa == bb * qm + rm);
    if a >= 0 {
        if b > 0 {
            assert(a == qm * b + rm) by (nonlinear_arith)
                requires
                    a == bb * qm + rm,
                    b == bb,
            ;
            lemma_fundamental_div_mod_converse(a, b, qm, rm);
            assert(fdiv(a, b) == qm);
            assert(fmod(a, b) == a - b * qm);
            assert(a - b * qm == rm) by (nonlinear_arith)
                requires
                    a == bb * qm + rm,
                    b == bb,
            ;
        } else {
            // b < 0: the floor quotient reads from a divided by the magnitude
            assert(a == qm * bb + rm) by (nonlinear_arith)
                requires
                    a == bb * qm + rm,
            ;
            lemma_fundamental_div_mod_converse(a, bb, qm, rm);
            assert(a / (-b) == qm && a % (-b) == rm);
            if rm == 0 {
                assert(fdiv(a, b) == -qm);
                assert(a - b * (-qm) == 0) by (nonlinear_arith)
                    requires
                        a == bb * qm,
                        b == -bb,
                ;
            } else {
                assert(fdiv(a, b) == -qm - 1);
                assert(a - b * (-qm - 1) == rm - bb) by (nonlinear_arith)
                    requires
                        a == bb * qm + rm,
                        b == -bb,
                ;
            }
        }
    } else {
        // a < 0: a == -aa
        if rm == 0 {
            assert(a == (-qm) * bb + 0) by (nonlinear_arith)
                requires
                    a == -aa,
                    aa == bb * qm,
            ;
            lemma_fundamental_div_mod_converse(a, bb, -qm, 0);
            if b > 0 {
                assert(fdiv(a, b) == -qm);
                assert(a - b * (-qm) == 0) by (nonlinear_arith)
                    requires
                        a == -aa,
                        aa == bb * qm,
                        b == bb,
                ;
            } else {
                assert(fdiv(a, b) == qm);
                assert(a - b * qm == 0) by (nonlinear_arith)
                    requires
                        a == -aa,
                        aa == bb * qm,
                        b == -bb,
                ;
            }
        } else {
            assert(a == (-qm - 1) * bb + (bb - rm)) by (nonlinear_arith)
                requires
                    a == -aa,
                    aa == bb * qm + rm,
            ;
            lemma_fundamental_div_mod_converse(a, bb, -qm - 1, bb - rm);
            if b > 0 {
                assert(fdiv(a, b) == -qm - 1);
                assert(a - b * (-qm - 1) == bb - rm) by (nonlinear_arith)
                    requires
                        a == -aa,
                        aa == bb * qm + rm,
                        b == bb,
                ;
            } else {
                assert(fdiv(a, b) == qm);
                assert(a - b * qm == -rm) by (nonlinear_arith)
                    requires
                        a == -aa,
                        aa == bb * qm + rm,
                        b == -bb,
                ;
            }
        }
    }
}

/// The low bit decides parity.
pub proof fn lemma_uval_parity(s: Seq<bool>)
    requires
        s.len() > 0,
    ensures
        uval(s) % 2 == (if s[0] {
            1nat
        } else {
            0nat
        }),
{
    let b0: int = if s[0] {
        1
    } else {
        0
    };
    lemma_fundamental_div_mod_converse(uval(s) as int, 2, uval(s.drop_first()) as int, b0);
}

/// Bounds of the two's-complement reading.
pub proof fn lemma_sval_bound(s: Seq<bool>)
    requires
        s.len() > 0,
    ensures
        -(pow2((s.len() - 1) as nat) as int) <= sval(s) < pow2((s.len() - 1) as nat),
        s[s.len() - 1] <==> sval(s) < 0,
{
    let w = s.len();
    lemma_uval_bound(s);
    lemma_pow2_unfold(w);
    if s[w - 1] {
        lemma_uval_high_bit(s, w - 1);
    } else {
        lemma_uval_split(s, w - 1);
        let single = s.skip(w - 1);
        assert(single =~= seq![s[w - 1]]);
        assert(single.drop_first() =~= Seq::<bool>::empty());
        assert(uval(Seq::<bool>::empty()) == 0);
        assert(!single[0]);
        assert(uval(single) == 0);
        lemma_uval_bound(s.take(w - 1));
    }
}

/// Round trip: a value representable within the width is encoded and
/// decoded back exactly, read unsigned.
pub proof fn lemma_round_trip_unsigned(x: nat, w: nat)
    requires
        x < pow2(w),
    ensures
        uval(bits_of(x, w)) == x,
{
    lemma_uval_bits_of(x, w);
    lemma_pow2_pos(w);
    lemma_small_mod(x, pow2(w));
}

/// Round trip: a value in the signed range of the width is encoded in two's
/// complement and decoded back exactly, read signed.
pub proof fn lemma_round_trip_signed(x: int, w: nat)
    requires
        w > 0,
        -(pow2((w - 1) as nat) as int) <= x < pow2((w - 1) as nat),
    ensures
        sval(bits_of((x % (pow2(w) as int)) as nat, w)) == x,
{
    let m = pow2(w) as int;
    lemma_pow2_pos(w);
    lemma_mod_bound(x, m);
    let u = (x % m) as nat;
    let s = bits_of(u, w);
    lemma_uval_bits_of(u, w);
    lemma_small_mod(u, pow2(w));
    assert(uval(s) == u);
    lemma_sval_congruent(s);
    lemma_sval_bound(s);
    lemma_mod_twice(x, m);
    lemma_pow2_unfold(w);
    lemma_mod_range_unique(x, sval(s), m);
}

/// Truncation correctness: construction keeps exactly the low bits, so
/// values congruent modulo `pow2` of the width encode identically.
pub proof fn lemma_truncation(x: nat, w: nat)
    ensures
        bits_of(x, w) == bits_of(x % pow2(w), w),
{
    lemma_pow2_pos(w);
    lemma_uval_bits_of(x, w);
    lemma_uval_bits_of(x % pow2(w), w);
    lemma_mod_twice(x as int, pow2(w) as int);
    lemma_uval_injective(bits_of(x, w), bits_of(x % pow2(w), w));
}

/// Exactness at sufficient width: a product that fits in the width is
/// computed without loss by the truncating multiplication.
pub proof fn lemma_product_exact(a: Seq<bool>, b: Seq<bool>)
    requires
        a.len() == b.len(),
        uval(a) * uval(b) < pow2(a.len()),
    ensures
        uval(mul_bits(a, b)) == uval(a) * uval(b),
{
    lemma_pow2_pos(a.len());
    lemma_uval_bits_of(uval(a) * uval(b), a.len());
    lemma_small_mod(uval(a) * uval(b), pow2(a.len()));
}

} // verus!
