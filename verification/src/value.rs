//! Width-exact bit-vector values: immutable, width-tagged, with unsigned and
//! two's-complement readings. Bit 0 is the least-significant bit.

use vstd::prelude::*;
use vstd::arithmetic::power2::*;
use vstd::arithmetic::div_mod::*;
use vstd::arithmetic::mul::*;
use crate::fraction::Fraction;
use crate::bits::{
    uval, sval, bits_of, zeros, not_bits, and_bits, or_bits, xor_bits, add_bits, sub_bits,
    shl_bits, lshr_bits, ashr_bits, concat_bits, mul_bits, udiv_bits, umod_bits, sdiv_bits,
    smod_bits, iabs, tdiv, fmod, lemma_uval_zeros, lemma_uval_bound, lemma_uval_split,
    lemma_uval_append_zeros, lemma_uval_prepend_zeros, lemma_uval_high_bit, lemma_uval_bits_of,
    lemma_uval_injective, lemma_sval_congruent, lemma_sval_bound,
    lemma_uval_snoc, lemma_uval_not, lemma_mod_range_unique, lemma_pow2_128, ones,
    lemma_uval_ones, lemma_uval_msb_compare, lemma_ashr_value, lemma_fmod_cases,
};

verus! {

/// An immutable bit-vector value of a fixed width.
pub struct Value {
    bits: Vec<bool>,
}

impl View for Value {
    type V = Seq<bool>;

    closed spec fn view(&self) -> Seq<bool> {
        self.bits@
    }
}

impl Value {
    /// The declared bit width.
    pub open spec fn spec_width(&self) -> nat {
        self@.len()
    }

    /// The unsigned numeric value.
    pub open spec fn uint(&self) -> nat {
        uval(self@)
    }

    /// The two's-complement numeric value.
    pub open spec fn int_val(&self) -> int {
        sval(self@)
    }

    pub fn width(&self) -> (w: usize)
        ensures
            w == self.spec_width(),
    {
        self.bits.len()
    }

    /// Reads one bit.
    pub fn bit(&self, i: usize) -> (b: bool)
        requires
            i < self.spec_width(),
        ensures
            b == self@[i as int],
    {
        self.bits[i]
    }

    /// Builds a value of width `bits.len()` directly from a bit pattern
    /// (least-significant bit first). Lossless at any width.
    pub fn from_bits(bits: Vec<bool>) -> (r: Value)
        ensures
            r@ == bits@,
    {
        Value { bits }
    }

    /// Returns the bit pattern (least-significant bit first). Lossless at any
    /// width: together with `from_bits` it round-trips exactly.
    pub fn to_bits(&self) -> (r: Vec<bool>)
        ensures
            r@ == self@,
    {
        let n: usize = self.bits.len();
        let mut out: Vec<bool> = Vec::new();
        let mut i: usize = 0;
        while i < n
            invariant
                i <= n,
                n == self@.len(),
                out@ =~= self@.take(i as int),
            decreases n - i,
        {
            out.push(self.bits[i]);
            assert(out@ =~= self@.take(i + 1));
            i = i + 1;
        }
        assert(out@ =~= self@);
        out
    }

    /// Constructs a value of the given width from an integer, keeping the low
    /// `width` bits (the value is truncated modulo `pow2(width)`).
    pub fn from_u128(x: u128, width: usize) -> (r: Value)
        ensures
            r@ == bits_of(x as nat, width as nat),
            r.spec_width() == width,
            r.uint() == (x as nat) % pow2(width as nat),
    {
        let mut bits: Vec<bool> = Vec::new();
        let mut acc: u128 = x;
        let mut i: usize = 0;
        proof {
            assert(pow2(0) == 1) by {
                lemma2_to64();
            }
        }
        while i < width
            invariant
                i <= width,
                bits@.len() == i,
                uval(bits@) + acc * pow2(i as nat) == x,
                uval(bits@) < pow2(i as nat),
            decreases width - i,
        {
            let b: bool = acc % 2 == 1;
            let ghost old_bits = bits@;
            let ghost old_acc = acc as nat;
            bits.push(b);
            acc = acc / 2;
            proof {
                lemma_uval_snoc(old_bits, b);
                lemma_pow2_unfold((i + 1) as nat);
                let bnat: nat = if b {
                    1nat
                } else {
                    0nat
                };
                assert(old_acc == 2 * (old_acc / 2) + old_acc % 2) by {
                    lemma_fundamental_div_mod(old_acc as int, 2);
                }
                assert(uval(bits@) == uval(old_bits) + bnat * pow2(i as nat));
                assert(uval(old_bits) + (2 * (old_acc / 2) + bnat) * pow2(i as nat) == x)
                    by (nonlinear_arith)
                    requires
                        uval(old_bits) + old_acc * pow2(i as nat) == x,
                        old_acc == 2 * (old_acc / 2) + bnat,
                ;
                assert((2 * (old_acc / 2) + bnat) * pow2(i as nat) == bnat * pow2(i as nat) + (
                old_acc / 2) * (2 * pow2(i as nat))) by (nonlinear_arith);
                assert(bnat * pow2(i as nat) < pow2((i + 1) as nat)) by (nonlinear_arith)
                    requires
                        bnat <= 1,
                        uval(old_bits) < pow2(i as nat),
                        pow2((i + 1) as nat) == 2 * pow2(i as nat),
                        uval(bits@) == uval(old_bits) + bnat * pow2(i as nat),
                ;
                assert(uval(bits@) < pow2((i + 1) as nat));
            }
            i = i + 1;
        }
        proof {
            let w = width as nat;
            lemma_pow2_pos(w);
            assert(x as nat == (acc as nat) * pow2(w) + uval(bits@));
            lemma_fundamental_div_mod_converse(x as int, pow2(w) as int, acc as int, uval(
                bits@,
            ) as int);
            assert(uval(bits@) == (x as nat) % pow2(w));
            lemma_uval_bits_of(x as nat, w);
            lemma_uval_injective(bits@, bits_of(x as nat, w));
        }
        Value { bits }
    }

    /// Constructs a value of the given width from a 64-bit integer, keeping
    /// the low `width` bits.
    pub fn from_u64(x: u64, width: usize) -> (r: Value)
        ensures
            r@ == bits_of(x as nat, width as nat),
            r.spec_width() == width,
            r.uint() == (x as nat) % pow2(width as nat),
    {
        Value::from_u128(x as u128, width)
    }

    /// Constructs a value of the given width from a signed integer, encoding
    /// it in two's complement (the value is truncated modulo `pow2(width)`).
    pub fn from_i128(x: i128, width: usize) -> (r: Value)
        ensures
            r.spec_width() == width,
            r.uint() as int == (x as int) % (pow2(width as nat) as int),
            width > 0 && -(pow2((width - 1) as nat) as int) <= x < pow2((width - 1) as nat)
                ==> r.int_val() == x,
    {
        let w = width;
        let r = if x >= 0 {
            Value::from_u128(x as u128, w)
        } else {
            // two's complement: complement the magnitude bits of -(x+1)
            let mag = Value::from_u128((-(x + 1)) as u128, w);
            mag.not()
        };
        proof {
            let wn = w as nat;
            lemma_pow2_pos(wn);
            if x >= 0 {
                assert((x as int) % (pow2(wn) as int) == (x as nat) % pow2(wn));
            } else {
                let m: nat = (-(x + 1)) as nat;
                // !bits(m mod 2^w) holds 2^w - 1 - (m mod 2^w) == (x mod 2^w)
                lemma_uval_not(bits_of(m, wn));
                assert(uval(r@) == pow2(wn) - 1 - (m % pow2(wn)));
                assert((x as int) % (pow2(wn) as int) == pow2(wn) - 1 - (m % pow2(wn))) by {
                    assert(x as int == -1 - m);
                    lemma_mod_bound(m as int, pow2(wn) as int);
                    lemma_fundamental_div_mod(m as int, pow2(wn) as int);
                    let q = (m as int) / (pow2(wn) as int);
                    assert(x as int == -1 - (q * (pow2(wn) as int) + (m as int) % (pow2(
                        wn,
                    ) as int)));
                    let p = pow2(wn) as int;
                    let rr = p - 1 - (m as int) % p;
                    assert(x as int == (-1 - q) * p + rr) by (nonlinear_arith)
                        requires
                            x as int == -1 - (q * p + (m as int) % p),
                            rr == p - 1 - (m as int) % p,
                    ;
                    lemma_fundamental_div_mod_converse(x as int, p, -1 - q, rr);
                }
            }
            if width > 0 && -(pow2((width - 1) as nat) as int) <= x < pow2((width - 1) as nat) {
                lemma_sval_congruent(r@);
                lemma_sval_bound(r@);
                lemma_pow2_unfold(wn);
                lemma_mod_range_unique(x as int, sval(r@), pow2(wn) as int);
            }
        }
        r
    }

    /// Bitwise complement, width-preserving.
    pub fn not(&self) -> (r: Value)
        ensures
            r@ == not_bits(self@),
            r.spec_width() == self.spec_width(),
    {
        let n: usize = self.bits.len();
        let mut out: Vec<bool> = Vec::new();
        let mut i: usize = 0;
        while i < n
            invariant
                i <= n,
                n == self@.len(),
                out@ =~= not_bits(self@).take(i as int),
            decreases n - i,
        {
            out.push(!self.bits[i]);
            assert(out@ =~= not_bits(self@).take(i + 1));
            i = i + 1;
        }
        assert(out@ =~= not_bits(self@));
        Value { bits: out }
    }

    /// Reads the value back as an unsigned 128-bit integer.
    pub fn as_u128(&self) -> (r: u128)
        requires
            self.uint() < pow2(128),
        ensures
            r as nat == self.uint(),
    {
        let n: usize = self.bits.len();
        let mut acc: u128 = 0;
        let mut i: usize = n;
        proof {
            assert(self@.skip(n as int) =~= Seq::<bool>::empty());
            lemma_pow2_128();
        }
        while i > 0
            invariant
                i <= n,
                n == self@.len(),
                uval(self@) < pow2(128),
                acc as nat == uval(self@.skip(i as int)),
            decreases i,
        {
            let b: bool = self.bits[i - 1];
            proof {
                lemma_pow2_128();
                let s = self@;
                let j = i - 1;
                assert(s.skip(j).drop_first() =~= s.skip(j + 1));
                assert(uval(s.skip(j)) == (if s[j] {
                    1nat
                } else {
                    0nat
                }) + 2 * uval(s.skip(j + 1)));
                lemma_uval_split(s, j);
                lemma_pow2_pos(j as nat);
                assert(pow2(j as nat) * uval(s.skip(j)) >= uval(s.skip(j))) by (nonlinear_arith)
                    requires
                        pow2(j as nat) >= 1,
                        uval(s.skip(j)) >= 0,
                ;
                assert(uval(s.skip(j)) <= uval(s));
            }
            acc = acc * 2 + (if b {
                1u128
            } else {
                0u128
            });
            i = i - 1;
        }
        proof {
            assert(self@.skip(0) =~= self@);
        }
        acc
    }

    /// Reads the value back as an unsigned 64-bit integer.
    pub fn as_u64(&self) -> (r: u64)
        requires
            self.uint() < pow2(64),
        ensures
            r as nat == self.uint(),
    {
        proof {
            lemma_pow2_strictly_increases(64, 128);
        }
        let wide = self.as_u128();
        proof {
            assert(pow2(64) == 0x10000000000000000) by {
                lemma2_to64_rest();
            }
        }
        wide as u64
    }

    /// Reads the value back as a signed (two's-complement) 128-bit integer.
    pub fn as_i128(&self) -> (r: i128)
        requires
            -(pow2(127) as int) <= self.int_val() < pow2(127),
        ensures
            r as int == self.int_val(),
    {
        let w: usize = self.bits.len();
        if w == 0 {
            return 0;
        }
        let negative: bool = self.bits[w - 1];
        proof {
            lemma_sval_bound(self@);
            lemma_uval_bound(self@);
        }
        if negative {
            // magnitude of x is pow2(w) - uval; read the complement instead
            let flipped = self.not();
            proof {
                lemma_uval_not(self@);
                assert(uval(flipped@) == pow2(w as nat) - 1 - uval(self@));
                // sval == uval - pow2(w), so -(sval + 1) == uval(flipped)
                assert(uval(flipped@) == -(sval(self@) + 1));
                assert(pow2(127) < pow2(128)) by {
                    lemma_pow2_strictly_increases(127, 128);
                }
            }
            let mag = flipped.as_u128();
            proof {
                lemma_pow2_128();
            }
            -1i128 - (mag as i128)
        } else {
            proof {
                assert(pow2(127) < pow2(128)) by {
                    lemma_pow2_strictly_increases(127, 128);
                }
                lemma_pow2_128();
            }
            let mag = self.as_u128();
            mag as i128
        }
    }

    /// Wraparound modular sum at the operand width: the hardware adder, with
    /// the carry out of the top bit dropped.
    pub fn add(&self, rhs: &Value) -> (r: Value)
        requires
            self.spec_width() == rhs.spec_width(),
        ensures
            r@ == add_bits(self@, rhs@),
            r.spec_width() == self.spec_width(),
            r.uint() == (self.uint() + rhs.uint()) % pow2(self.spec_width()),
    {
        let n: usize = self.bits.len();
        let mut out: Vec<bool> = Vec::new();
        let mut carry: bool = false;
        let mut i: usize = 0;
        proof {
            assert(pow2(0) == 1) by {
                lemma2_to64();
            }
            assert(self@.take(0) =~= Seq::<bool>::empty());
            assert(rhs@.take(0) =~= Seq::<bool>::empty());
        }
        while i < n
            invariant
                i <= n,
                n == self@.len(),
                rhs@.len() == n,
                out@.len() == i,
                uval(self@.take(i as int)) + uval(rhs@.take(i as int)) == uval(out@) + (if carry {
                    1nat
                } else {
                    0nat
                }) * pow2(i as nat),
            decreases n - i,
        {
            let a: bool = self.bits[i];
            let b: bool = rhs.bits[i];
            let t: u8 = (if a {
                1u8
            } else {
                0u8
            }) + (if b {
                1u8
            } else {
                0u8
            }) + (if carry {
                1u8
            } else {
                0u8
            });
            let bit: bool = t % 2 == 1;
            let newcarry: bool = t >= 2;
            let ghost old_out = out@;
            let ghost old_carry = carry;
            out.push(bit);
            carry = newcarry;
            proof {
                lemma_uval_snoc(old_out, bit);
                lemma_pow2_unfold((i + 1) as nat);
                assert(self@.take(i + 1) =~= self@.take(i as int).push(self@[i as int]));
                assert(rhs@.take(i + 1) =~= rhs@.take(i as int).push(rhs@[i as int]));
                lemma_uval_snoc(self@.take(i as int), a);
                lemma_uval_snoc(rhs@.take(i as int), b);
            }
            i = i + 1;
        }
        proof {
            assert(self@.take(n as int) =~= self@);
            assert(rhs@.take(n as int) =~= rhs@);
            let w = n as nat;
            let total = self.uint() + rhs.uint();
            lemma_uval_bound(out@);
            lemma_pow2_pos(w);
            lemma_fundamental_div_mod_converse(
                total as int,
                pow2(w) as int,
                if carry {
                    1int
                } else {
                    0int
                },
                uval(out@) as int,
            );
            lemma_uval_bits_of(total, w);
            lemma_uval_injective(out@, bits_of(total, w));
        }
        Value { bits: out }
    }

    /// Wraparound modular difference at the operand width: the hardware
    /// subtractor, with the borrow out of the top bit dropped.
    pub fn subtract(&self, rhs: &Value) -> (r: Value)
        requires
            self.spec_width() == rhs.spec_width(),
        ensures
            r@ == sub_bits(self@, rhs@),
            r.spec_width() == self.spec_width(),
            r.uint() as int == (self.uint() + pow2(self.spec_width()) - rhs.uint()) % (pow2(
                self.spec_width(),
            ) as int),
    {
        let n: usize = self.bits.len();
        let mut out: Vec<bool> = Vec::new();
        let mut borrow: bool = false;
        let mut i: usize = 0;
        proof {
            assert(pow2(0) == 1) by {
                lemma2_to64();
            }
            assert(self@.take(0) =~= Seq::<bool>::empty());
            assert(rhs@.take(0) =~= Seq::<bool>::empty());
        }
        while i < n
            invariant
                i <= n,
                n == self@.len(),
                rhs@.len() == n,
                out@.len() == i,
                uval(out@) as int == uval(self@.take(i as int)) - uval(rhs@.take(i as int)) + (
                if borrow {
                    1int
                } else {
                    0int
                }) * pow2(i as nat),
            decreases n - i,
        {
            let a: bool = self.bits[i];
            let b: bool = rhs.bits[i];
            let t: u8 = 2 + (if a {
                1u8
            } else {
                0u8
            }) - (if b {
                1u8
            } else {
                0u8
            }) - (if borrow {
                1u8
            } else {
                0u8
            });
            let bit: bool = t % 2 == 1;
            let newborrow: bool = t < 2;
            let ghost old_out = out@;
            out.push(bit);
            borrow = newborrow;
            proof {
                lemma_uval_snoc(old_out, bit);
                lemma_pow2_unfold((i + 1) as nat);
                assert(self@.take(i + 1) =~= self@.take(i as int).push(self@[i as int]));
                assert(rhs@.take(i + 1) =~= rhs@.take(i as int).push(rhs@[i as int]));
                lemma_uval_snoc(self@.take(i as int), a);
                lemma_uval_snoc(rhs@.take(i as int), b);
            }
            i = i + 1;
        }
        proof {
            assert(self@.take(n as int) =~= self@);
            assert(rhs@.take(n as int) =~= rhs@);
            let w = n as nat;
            let total: nat = (self.uint() + pow2(w) - rhs.uint()) as nat;
            lemma_uval_bound(out@);
            lemma_uval_bound(rhs@);
            lemma_pow2_pos(w);
            lemma_fundamental_div_mod_converse(
                total as int,
                pow2(w) as int,
                if borrow {
                    0int
                } else {
                    1int
                },
                uval(out@) as int,
            );
            lemma_uval_bits_of(total, w);
            lemma_uval_injective(out@, bits_of(total, w));
        }
        Value { bits: out }
    }

    /// Bit-per-bit conjunction, width-preserving.
    pub fn and(&self, rhs: &Value) -> (r: Value)
        requires
            self.spec_width() == rhs.spec_width(),
        ensures
            r@ == and_bits(self@, rhs@),
            r.spec_width() == self.spec_width(),
    {
        let n: usize = self.bits.len();
        let mut out: Vec<bool> = Vec::new();
        let mut i: usize = 0;
        while i < n
            invariant
                i <= n,
                n == self@.len(),
                rhs@.len() == n,
                out@ =~= and_bits(self@, rhs@).take(i as int),
            decreases n - i,
        {
            out.push(self.bits[i] && rhs.bits[i]);
            assert(out@ =~= and_bits(self@, rhs@).take(i + 1));
            i = i + 1;
        }
        assert(out@ =~= and_bits(self@, rhs@));
        Value { bits: out }
    }

    /// Bit-per-bit disjunction, width-preserving.
    pub fn or(&self, rhs: &Value) -> (r: Value)
        requires
            self.spec_width() == rhs.spec_width(),
        ensures
            r@ == or_bits(self@, rhs@),
            r.spec_width() == self.spec_width(),
    {
        let n: usize = self.bits.len();
        let mut out: Vec<bool> = Vec::new();
        let mut i: usize = 0;
        while i < n
            invariant
                i <= n,
                n == self@.len(),
                rhs@.len() == n,
                out@ =~= or_bits(self@, rhs@).take(i as int),
            decreases n - i,
        {
            out.push(self.bits[i] || rhs.bits[i]);
            assert(out@ =~= or_bits(self@, rhs@).take(i + 1));
            i = i + 1;
        }
        assert(out@ =~= or_bits(self@, rhs@));
        Value { bits: out }
    }

    /// Bit-per-bit exclusive or, width-preserving.
    pub fn xor(&self, rhs: &Value) -> (r: Value)
        requires
            self.spec_width() == rhs.spec_width(),
        ensures
            r@ == xor_bits(self@, rhs@),
            r.spec_width() == self.spec_width(),
    {
        let n: usize = self.bits.len();
        let mut out: Vec<bool> = Vec::new();
        let mut i: usize = 0;
        while i < n
            invariant
                i <= n,
                n == self@.len(),
                rhs@.len() == n,
                out@ =~= xor_bits(self@, rhs@).take(i as int),
            decreases n - i,
        {
            out.push(self.bits[i] != rhs.bits[i]);
            assert(out@ =~= xor_bits(self@, rhs@).take(i + 1));
            i = i + 1;
        }
        assert(out@ =~= xor_bits(self@, rhs@));
        Value { bits: out }
    }

    /// Width-sensitive bit-pattern equality.
    pub fn is_equal(&self, rhs: &Value) -> (r: bool)
        requires
            self.spec_width() == rhs.spec_width(),
        ensures
            r == (self@ == rhs@),
    {
        let n: usize = self.bits.len();
        let mut i: usize = 0;
        while i < n
            invariant
                i <= n,
                n == self@.len(),
                rhs@.len() == n,
                self@.take(i as int) == rhs@.take(i as int),
            decreases n - i,
        {
            if self.bits[i] != rhs.bits[i] {
                assert(self@[i as int] != rhs@[i as int]);
                return false;
            }
            assert(self@.take(i + 1) =~= rhs@.take(i + 1)) by {
                assert(self@.take(i + 1) =~= self@.take(i as int).push(self@[i as int]));
                assert(rhs@.take(i + 1) =~= rhs@.take(i as int).push(rhs@[i as int]));
            }
            i = i + 1;
        }
        proof {
            assert(self@.take(n as int) =~= self@);
            assert(rhs@.take(n as int) =~= rhs@);
        }
        true
    }

    /// A single-bit value holding a boolean.
    pub fn from_bool(b: bool) -> (r: Value)
        ensures
            r@ =~= seq![b],
            r.spec_width() == 1,
    {
        let mut bits: Vec<bool> = Vec::new();
        bits.push(b);
        Value { bits }
    }

    /// Whole-value equality: equal widths and equal bit patterns.
    pub fn same_as(&self, other: &Value) -> (r: bool)
        ensures
            r == (self@ == other@),
    {
        if self.bits.len() != other.bits.len() {
            proof {
                assert(self@ != other@);
            }
            false
        } else {
            self.is_equal(other)
        }
    }

    /// Width-sensitive bit-pattern disequality.
    pub fn is_not_equal(&self, rhs: &Value) -> (r: bool)
        requires
            self.spec_width() == rhs.spec_width(),
        ensures
            r == (self@ != rhs@),
    {
        !self.is_equal(rhs)
    }

    /// Unsigned magnitude comparison.
    pub fn is_less(&self, rhs: &Value) -> (r: bool)
        requires
            self.spec_width() == rhs.spec_width(),
        ensures
            r == (self.uint() < rhs.uint()),
    {
        let n: usize = self.bits.len();
        let mut i: usize = n;
        proof {
            assert(self@.skip(n as int) =~= rhs@.skip(n as int));
        }
        while i > 0
            invariant
                i <= n,
                n == self@.len(),
                rhs@.len() == n,
                self@.skip(i as int) == rhs@.skip(i as int),
            decreases i,
        {
            let a: bool = self.bits[i - 1];
            let b: bool = rhs.bits[i - 1];
            if a != b {
                proof {
                    if b {
                        lemma_uval_msb_compare(self@, rhs@, i - 1);
                    } else {
                        lemma_uval_msb_compare(rhs@, self@, i - 1);
                    }
                }
                return b;
            }
            proof {
                assert(self@.skip(i - 1) =~= rhs@.skip(i - 1)) by {
                    assert forall|j: int| 0 <= j < n - (i - 1) implies #[trigger] self@.skip(
                        i - 1,
                    )[j] == rhs@.skip(i - 1)[j] by {
                        if j == 0 {
                        } else {
                            assert(self@.skip(i as int)[j - 1] == rhs@.skip(i as int)[j - 1]);
                        }
                    }
                }
            }
            i = i - 1;
        }
        proof {
            assert(self@.skip(0) =~= self@);
            assert(rhs@.skip(0) =~= rhs@);
        }
        false
    }

    /// Unsigned magnitude comparison.
    pub fn is_greater(&self, rhs: &Value) -> (r: bool)
        requires
            self.spec_width() == rhs.spec_width(),
        ensures
            r == (self.uint() > rhs.uint()),
    {
        rhs.is_less(self)
    }

    /// Unsigned magnitude comparison.
    pub fn is_greater_or_equal(&self, rhs: &Value) -> (r: bool)
        requires
            self.spec_width() == rhs.spec_width(),
        ensures
            r == (self.uint() >= rhs.uint()),
    {
        !self.is_less(rhs)
    }

    /// Unsigned magnitude comparison.
    pub fn is_less_or_equal(&self, rhs: &Value) -> (r: bool)
        requires
            self.spec_width() == rhs.spec_width(),
        ensures
            r == (self.uint() <= rhs.uint()),
    {
        !rhs.is_less(self)
    }

    /// Two's-complement magnitude comparison.
    pub fn is_less_signed(&self, rhs: &Value) -> (r: bool)
        requires
            self.spec_width() == rhs.spec_width(),
        ensures
            r == (self.int_val() < rhs.int_val()),
    {
        let n: usize = self.bits.len();
        if n == 0 {
            return false;
        }
        let sa: bool = self.bits[n - 1];
        let sb: bool = rhs.bits[n - 1];
        if sa != sb {
            // a negative value is below any non-negative one
            proof {
                lemma_sval_bound(self@);
                lemma_sval_bound(rhs@);
            }
            sa
        } else {
            // equal signs: the offset pow2(n) cancels
            self.is_less(rhs)
        }
    }

    /// Two's-complement magnitude comparison.
    pub fn is_greater_signed(&self, rhs: &Value) -> (r: bool)
        requires
            self.spec_width() == rhs.spec_width(),
        ensures
            r == (self.int_val() > rhs.int_val()),
    {
        rhs.is_less_signed(self)
    }

    /// Two's-complement magnitude comparison.
    pub fn is_greater_or_equal_signed(&self, rhs: &Value) -> (r: bool)
        requires
            self.spec_width() == rhs.spec_width(),
        ensures
            r == (self.int_val() >= rhs.int_val()),
    {
        !self.is_less_signed(rhs)
    }

    /// Two's-complement magnitude comparison.
    pub fn is_less_or_equal_signed(&self, rhs: &Value) -> (r: bool)
        requires
            self.spec_width() == rhs.spec_width(),
        ensures
            r == (self.int_val() <= rhs.int_val()),
    {
        !rhs.is_less_signed(self)
    }

    /// Reads a shift amount from this value's unsigned reading, clamped to
    /// `w`: every amount at or above the width shifts everything out anyway.
    fn shift_amount(&self, w: usize) -> (k: usize)
        ensures
            self.uint() < w ==> k == self.uint(),
            self.uint() >= w ==> k == w,
    {
        let n: usize = self.bits.len();
        let wa: u128 = w as u128;
        let mut acc: u128 = 0;
        let mut i: usize = n;
        proof {
            assert(self@.skip(n as int) =~= Seq::<bool>::empty());
        }
        while i > 0
            invariant
                i <= n,
                n == self@.len(),
                wa == w,
                uval(self@.skip(i as int)) < w ==> acc == uval(self@.skip(i as int)),
                uval(self@.skip(i as int)) >= w ==> acc == w,
                acc <= wa,
            decreases i,
        {
            let b: bool = self.bits[i - 1];
            proof {
                let s = self@;
                let j = i - 1;
                assert(s.skip(j).drop_first() =~= s.skip(i as int));
                assert(uval(s.skip(j)) == (if s[j] {
                    1nat
                } else {
                    0nat
                }) + 2 * uval(s.skip(i as int)));
            }
            if acc < wa {
                acc = acc * 2 + (if b {
                    1u128
                } else {
                    0u128
                });
                if acc > wa {
                    acc = wa;
                }
            }
            i = i - 1;
        }
        proof {
            assert(self@.skip(0) =~= self@);
        }
        acc as usize
    }

    /// Logical shift left: the amount is the second operand's unsigned value;
    /// bits shifted beyond the width are discarded, vacated bits are zero.
    pub fn shift_left(&self, rhs: &Value) -> (r: Value)
        ensures
            r@ == shl_bits(self@, rhs.uint()),
            r.spec_width() == self.spec_width(),
            r.uint() == (self.uint() * pow2(rhs.uint())) % pow2(self.spec_width()),
    {
        let n: usize = self.bits.len();
        let k: usize = rhs.shift_amount(n);
        let ghost target = zeros(k as nat) + self@.take(n - k);
        let mut out: Vec<bool> = Vec::new();
        let mut i: usize = 0;
        while i < n
            invariant
                i <= n,
                n == self@.len(),
                k <= n,
                target == zeros(k as nat) + self@.take(n - k),
                out@ =~= target.take(i as int),
            decreases n - i,
        {
            out.push(i >= k && self.bits[i - k]);
            assert(out@ =~= target.take(i + 1));
            i = i + 1;
        }
        proof {
            assert(out@ =~= target);
            let amt = rhs.uint();
            let wn = n as nat;
            let lo = (n - k) as int;
            let tt = uval(self@.take(lo));
            let hh = uval(self@.skip(lo));
            lemma_uval_prepend_zeros(self@.take(lo), k as nat);
            assert(uval(out@) == pow2(k as nat) * tt);
            lemma_uval_split(self@, lo);
            lemma_uval_bound(self@.take(lo));
            lemma_pow2_pos(wn);
            lemma_uval_bound(self@);
            if amt < wn {
                assert(k == amt);
                lemma_pow2_adds((n - k) as nat, k as nat);
                assert(self.uint() * pow2(k as nat) == tt * pow2(k as nat) + hh * pow2(wn))
                    by (nonlinear_arith)
                    requires
                        self.uint() == tt + pow2((n - k) as nat) * hh,
                        pow2((n - k) as nat) * pow2(k as nat) == pow2(wn),
                ;
                lemma_pow2_pos(k as nat);
                assert(tt * pow2(k as nat) < pow2(wn)) by (nonlinear_arith)
                    requires
                        tt < pow2((n - k) as nat),
                        pow2((n - k) as nat) * pow2(k as nat) == pow2(wn),
                        pow2(k as nat) > 0,
                ;
                lemma_pow2_pos(k as nat);
                assert((pow2(wn) as int * hh + (tt * pow2(k as nat)) as int) % (pow2(
                    wn,
                ) as int) == ((tt * pow2(k as nat)) as int) % (pow2(wn) as int)) by {
                    lemma_mod_multiples_vanish(
                        hh as int,
                        (tt * pow2(k as nat)) as int,
                        pow2(wn) as int,
                    );
                }
                lemma_small_mod((tt * pow2(k as nat)) as nat, pow2(wn));
                assert(uval(out@) == (self.uint() * pow2(amt)) % pow2(wn)) by (nonlinear_arith)
                    requires
                        uval(out@) == pow2(k as nat) * tt,
                        self.uint() * pow2(k as nat) == tt * pow2(k as nat) + hh * pow2(wn),
                        (pow2(wn) as int * hh + (tt * pow2(k as nat)) as int) % (pow2(
                            wn,
                        ) as int) == ((tt * pow2(k as nat)) as int) % (pow2(wn) as int),
                        ((tt * pow2(k as nat)) as int) % (pow2(wn) as int) == tt * pow2(
                            k as nat,
                        ),
                        k == amt,
                ;
            } else {
                assert(k == n);
                assert(self@.take(0) =~= Seq::<bool>::empty());
                assert(uval(out@) == pow2(wn) * 0);
                lemma_pow2_adds((amt - wn) as nat, wn);
                assert((self.uint() * pow2(amt)) % pow2(wn) == 0) by {
                    lemma_mod_multiples_basic(
                        (self.uint() * pow2((amt - wn) as nat)) as int,
                        pow2(wn) as int,
                    );
                    assert(self.uint() * pow2(amt) == (self.uint() * pow2((amt - wn) as nat))
                        * pow2(wn)) by (nonlinear_arith)
                        requires
                            pow2(amt) == pow2((amt - wn) as nat) * pow2(wn),
                    ;
                }
            }
            lemma_uval_bits_of(self.uint() * pow2(amt), wn);
            lemma_uval_injective(out@, bits_of(self.uint() * pow2(amt), wn));
        }
        Value { bits: out }
    }

    /// Logical shift right: the amount is the second operand's unsigned
    /// value; vacated high bits are zero.
    pub fn shift_right(&self, rhs: &Value) -> (r: Value)
        ensures
            r@ == lshr_bits(self@, rhs.uint()),
            r.spec_width() == self.spec_width(),
            r.uint() == self.uint() / pow2(rhs.uint()),
    {
        let n: usize = self.bits.len();
        let k: usize = rhs.shift_amount(n);
        let ghost target = self@.skip(k as int) + zeros(k as nat);
        let mut out: Vec<bool> = Vec::new();
        let mut i: usize = 0;
        while i < n
            invariant
                i <= n,
                n == self@.len(),
                k <= n,
                target == self@.skip(k as int) + zeros(k as nat),
                out@ =~= target.take(i as int),
            decreases n - i,
        {
            out.push(i < n - k && self.bits[i + k]);
            assert(out@ =~= target.take(i + 1));
            i = i + 1;
        }
        proof {
            assert(out@ =~= target);
            let amt = rhs.uint();
            let wn = n as nat;
            let tt = uval(self@.take(k as int));
            let ss = uval(self@.skip(k as int));
            lemma_uval_append_zeros(self@.skip(k as int), k as nat);
            assert(uval(out@) == ss);
            lemma_uval_split(self@, k as int);
            lemma_uval_bound(self@.take(k as int));
            lemma_uval_bound(self@);
            lemma_pow2_pos(k as nat);
            assert(self.uint() as int == ss * (pow2(k as nat) as int) + tt) by (nonlinear_arith)
                requires
                    self.uint() == tt + pow2(k as nat) * ss,
            ;
            lemma_fundamental_div_mod_converse(
                self.uint() as int,
                pow2(k as nat) as int,
                ss as int,
                tt as int,
            );
            assert(ss == self.uint() / pow2(k as nat));
            if amt < wn {
                assert(k == amt);
            } else {
                assert(k == n);
                assert(self@.skip(n as int) =~= Seq::<bool>::empty());
                assert(ss == 0);
                assert(pow2(wn) <= pow2(amt)) by {
                    if wn < amt {
                        lemma_pow2_strictly_increases(wn, amt);
                    }
                }
                lemma_pow2_pos(amt);
                lemma_basic_div(self.uint() as int, pow2(amt) as int);
            }
            lemma_uval_bits_of(self.uint() / pow2(amt), wn);
            lemma_pow2_pos(amt);
            lemma_div_is_ordered_by_denominator(self.uint() as int, 1, pow2(amt) as int);
            lemma_div_basics(self.uint() as int);
            lemma_small_mod(self.uint() / pow2(amt), pow2(wn));
            lemma_uval_injective(out@, bits_of(self.uint() / pow2(amt), wn));
        }
        Value { bits: out }
    }

    /// Arithmetic shift right: like the logical shift but vacated high bits
    /// repeat the sign bit; a floor division of the signed reading.
    pub fn arithmetic_shift_right(&self, rhs: &Value) -> (r: Value)
        ensures
            r@ == ashr_bits(self@, rhs.uint()),
            r.spec_width() == self.spec_width(),
            r.int_val() == self.int_val() / (pow2(rhs.uint()) as int),
    {
        let n: usize = self.bits.len();
        let k: usize = rhs.shift_amount(n);
        let g: bool = n > 0 && self.bits[n - 1];
        let ghost rep = if g {
            ones(k as nat)
        } else {
            zeros(k as nat)
        };
        let ghost target = self@.skip(k as int) + rep;
        let mut out: Vec<bool> = Vec::new();
        let mut i: usize = 0;
        while i < n
            invariant
                i <= n,
                n == self@.len(),
                k <= n,
                g == (n > 0 && self@[n - 1]),
                rep == if g {
                    ones(k as nat)
                } else {
                    zeros(k as nat)
                },
                target == self@.skip(k as int) + rep,
                out@ =~= target.take(i as int),
            decreases n - i,
        {
            out.push(
                if i < n - k {
                    self.bits[i + k]
                } else {
                    g
                },
            );
            assert(out@ =~= target.take(i + 1));
            i = i + 1;
        }
        proof {
            assert(out@ =~= target);
            lemma_ashr_value(self@, rhs.uint(), k as nat, out@);
        }
        Value { bits: out }
    }

    /// An identical copy of the value.
    pub fn duplicate(&self) -> (r: Value)
        ensures
            r@ == self@,
    {
        Value { bits: self.to_bits() }
    }

    /// Two's-complement negation at the operand width.
    pub fn negate(&self) -> (r: Value)
        requires
            self.spec_width() < usize::MAX,
        ensures
            r.spec_width() == self.spec_width(),
            self.uint() == 0 ==> r.uint() == 0,
            self.uint() > 0 ==> r.uint() == pow2(self.spec_width()) - self.uint(),
    {
        let n: usize = self.bits.len();
        let one = Value::from_u64(1, n);
        let r = self.not().add(&one);
        proof {
            let w = n as nat;
            lemma_uval_not(self@);
            lemma_pow2_pos(w);
            lemma_uval_bound(self@);
            if n == 0 {
                assert(pow2(0) == 1) by {
                    lemma2_to64();
                }
                lemma_small_mod(0, 1);
            } else {
                assert(pow2(w) > 1) by {
                    lemma_pow2_strictly_increases(0, w);
                    lemma2_to64();
                }
                lemma_small_mod(1, pow2(w));
                assert(one.uint() == 1);
                if self.uint() == 0 {
                    assert((pow2(w) - 1) + 1 == pow2(w));
                    assert(pow2(w) % pow2(w) == 0) by {
                        lemma_mod_self_0(pow2(w) as int);
                    }
                } else {
                    assert((pow2(w) - 1 - self.uint()) + 1 == pow2(w) - self.uint());
                    lemma_small_mod((pow2(w) - self.uint()) as nat, pow2(w));
                }
            }
        }
        r
    }

    /// Wraparound product at the operand width, computed bit by bit: exact
    /// big-integer multiplication truncated to the width. The unsigned and
    /// the two's-complement product agree modulo `pow2` of the width.
    pub fn multiply(&self, rhs: &Value) -> (r: Value)
        requires
            self.spec_width() == rhs.spec_width(),
        ensures
            r@ == mul_bits(self@, rhs@),
            r.spec_width() == self.spec_width(),
            r.uint() == (self.uint() * rhs.uint()) % pow2(self.spec_width()),
            r.uint() as int == (self.int_val() * rhs.int_val()) % (pow2(self.spec_width()) as int),
    {
        let n: usize = self.bits.len();
        let ghost w = n as nat;
        let ghost vv = rhs.uint();
        let mut acc = Value::from_u64(0, n);
        let mut t = rhs.duplicate();
        let mut i: usize = 0;
        proof {
            lemma_pow2_pos(w);
            lemma_small_mod(0, pow2(w));
            assert(self@.take(0) =~= Seq::<bool>::empty());
            lemma_uval_bound(rhs@);
            lemma_small_mod(vv, pow2(w));
            assert(pow2(0) == 1) by {
                lemma2_to64();
            }
            assert(uval(Seq::<bool>::empty()) * vv == 0) by (nonlinear_arith);
            assert(vv * pow2(0) == vv) by (nonlinear_arith)
                requires
                    pow2(0) == 1,
            ;
        }
        while i < n
            invariant
                i <= n,
                n == self@.len(),
                rhs@.len() == n,
                w == n as nat,
                vv == rhs.uint(),
                acc.spec_width() == w,
                t.spec_width() == w,
                acc.uint() == (uval(self@.take(i as int)) * vv) % pow2(w),
                t.uint() == (vv * pow2(i as nat)) % pow2(w),
            decreases n - i,
        {
            let ghost old_acc = acc.uint();
            let ghost old_t = t.uint();
            let ghost ti = uval(self@.take(i as int));
            if self.bits[i] {
                acc = acc.add(&t);
            }
            let doubled = t.add(&t);
            t = doubled;
            proof {
                lemma_pow2_pos(w);
                assert(self@.take(i + 1) =~= self@.take(i as int).push(self@[i as int]));
                lemma_uval_snoc(self@.take(i as int), self@[i as int]);
                lemma_pow2_unfold((i + 1) as nat);
                // the doubled partial multiplicand
                assert((old_t + old_t) % pow2(w) == (vv * pow2(i as nat) + vv * pow2(
                    i as nat,
                )) % pow2(w)) by {
                    lemma_add_mod_noop(
                        (vv * pow2(i as nat)) as int,
                        (vv * pow2(i as nat)) as int,
                        pow2(w) as int,
                    );
                }
                assert(vv * pow2(i as nat) + vv * pow2(i as nat) == vv * pow2((i + 1) as nat))
                    by (nonlinear_arith)
                    requires
                        pow2((i + 1) as nat) == 2 * pow2(i as nat),
                ;
                if self@[i as int] {
                    // accumulate the shifted multiplicand
                    assert((old_acc + old_t) % pow2(w) == (ti * vv + vv * pow2(i as nat)) % pow2(
                        w,
                    )) by {
                        lemma_add_mod_noop(
                            (ti * vv) as int,
                            (vv * pow2(i as nat)) as int,
                            pow2(w) as int,
                        );
                    }
                    assert(ti * vv + vv * pow2(i as nat) == (ti + pow2(i as nat)) * vv)
                        by (nonlinear_arith);
                    assert(uval(self@.take(i + 1)) == ti + pow2(i as nat));
                } else {
                    assert(uval(self@.take(i + 1)) == ti);
                }
            }
            i = i + 1;
        }
        proof {
            assert(self@.take(n as int) =~= self@);
            lemma_pow2_pos(w);
            // the signed product is congruent to the unsigned one
            lemma_sval_congruent(self@);
            lemma_sval_congruent(rhs@);
            lemma_mul_mod_noop_general(self.int_val(), rhs.int_val(), pow2(w) as int);
            assert((self.int_val() % (pow2(w) as int)) * (rhs.int_val() % (pow2(w) as int))
                == self.uint() * rhs.uint()) by (nonlinear_arith)
                requires
                    self.int_val() % (pow2(w) as int) == self.uint() as int,
                    rhs.int_val() % (pow2(w) as int) == rhs.uint() as int,
            ;
            lemma_uval_bits_of(self.uint() * rhs.uint(), w);
            lemma_uval_injective(acc@, bits_of(self.uint() * rhs.uint(), w));
        }
        acc
    }

    /// Restoring long division: exact unsigned quotient and remainder.
    fn div_rem(&self, rhs: &Value) -> (qr: (Value, Value))
        requires
            self.spec_width() == rhs.spec_width(),
            self.spec_width() < usize::MAX,
            rhs.uint() != 0,
        ensures
            qr.0.spec_width() == self.spec_width(),
            qr.1.spec_width() == self.spec_width(),
            qr.0.uint() == self.uint() / rhs.uint(),
            qr.1.uint() == self.uint() % rhs.uint(),
    {
        let n: usize = self.bits.len();
        let ghost w = n as nat;
        let ghost vv = rhs.uint();
        let mut q: Vec<bool> = Vec::new();
        let mut rem = Value::from_u64(0, n);
        let mut i: usize = n;
        proof {
            assert(self@.skip(n as int) =~= Seq::<bool>::empty());
            lemma_pow2_pos(w);
            lemma_small_mod(0, pow2(w));
            lemma_uval_bound(rhs@);
            assert(uval(Seq::<bool>::empty()) * vv == 0) by (nonlinear_arith);
        }
        while i > 0
            invariant
                i <= n,
                n == self@.len(),
                rhs@.len() == n,
                n < usize::MAX,
                w == n as nat,
                vv == rhs.uint(),
                vv > 0,
                vv < pow2(w),
                q@.len() == n - i,
                rem.spec_width() == w,
                rem.uint() < vv,
                uval(self@.skip(i as int)) == uval(q@) * vv + rem.uint(),
            decreases i,
        {
            let j = i - 1;
            let ghost old_q = q@;
            let ghost old_rem = rem.uint();
            let abit: bool = self.bits[j];
            // bring down the next dividend bit below the running remainder
            let mut rem2bits: Vec<bool> = Vec::new();
            rem2bits.push(abit);
            let rembits = rem.to_bits();
            let mut tcopy: usize = 0;
            while tcopy < n
                invariant
                    tcopy <= n,
                    rembits@.len() == n,
                    rem2bits@ =~= seq![abit] + rembits@.take(tcopy as int),
                decreases n - tcopy,
            {
                rem2bits.push(rembits[tcopy]);
                assert(rem2bits@ =~= seq![abit] + rembits@.take(tcopy + 1));
                tcopy = tcopy + 1;
            }
            let rem2 = Value::from_bits(rem2bits);
            proof {
                assert(rem2@ =~= seq![abit] + rem@);
                assert(rem2@.drop_first() =~= rem@);
                assert(rem2@[0] == abit);
                assert(rem2.uint() == (if abit {
                    1nat
                } else {
                    0nat
                }) + 2 * old_rem);
            }
            let bext = rhs.ext(n + 1);
            let ge = rem2.is_greater_or_equal(&bext);
            proof {
                lemma_pow2_pos((n + 1) as nat);
                lemma_uval_bound(rem2@);
            }
            if ge {
                let rem3 = rem2.subtract(&bext);
                proof {
                    // no wrap: the difference lies below the divisor
                    let m1 = pow2((n + 1) as nat) as int;
                    assert((rem2.uint() + pow2((n + 1) as nat) - vv) % m1 == (rem2.uint()
                        - vv) % m1) by {
                        lemma_mod_add_multiples_vanish(rem2.uint() - vv, m1);
                    }
                    lemma_small_mod((rem2.uint() - vv) as nat, pow2((n + 1) as nat));
                    assert(rem3.uint() == rem2.uint() - vv);
                }
                rem = rem3.truncate(n);
                proof {
                    lemma_small_mod((rem2.uint() - vv) as nat, pow2(w));
                }
                q.insert(0, true);
            } else {
                rem = rem2.truncate(n);
                proof {
                    lemma_small_mod(rem2.uint(), pow2(w));
                }
                q.insert(0, false);
            }
            proof {
                assert(q@.drop_first() =~= old_q);
                assert(q@[0] == ge);
                assert(uval(q@) == (if ge {
                    1nat
                } else {
                    0nat
                }) + 2 * uval(old_q));
                assert(self@.skip(j as int).drop_first() =~= self@.skip(i as int));
                assert(uval(self@.skip(j as int)) == (if abit {
                    1nat
                } else {
                    0nat
                }) + 2 * uval(self@.skip(i as int)));
                let bq: nat = if ge {
                    1nat
                } else {
                    0nat
                };
                let ba: nat = if abit {
                    1nat
                } else {
                    0nat
                };
                assert(uval(self@.skip(j as int)) == uval(q@) * vv + rem.uint())
                    by (nonlinear_arith)
                    requires
                        uval(self@.skip(j as int)) == ba + 2 * uval(self@.skip(i as int)),
                        uval(self@.skip(i as int)) == uval(old_q) * vv + old_rem,
                        uval(q@) == bq + 2 * uval(old_q),
                        rem.uint() + bq * vv == ba + 2 * old_rem,
                ;
            }
            i = j;
        }
        proof {
            assert(self@.skip(0) =~= self@);
            assert(self.uint() as int == uval(q@) * (vv as int) + rem.uint()) by (nonlinear_arith)
                requires
                    uval(self@) == uval(q@) * vv + rem.uint(),
                    self.uint() == uval(self@),
            ;
            lemma_fundamental_div_mod_converse(
                self.uint() as int,
                vv as int,
                uval(q@) as int,
                rem.uint() as int,
            );
        }
        let qv = Value::from_bits(q);
        (qv, rem)
    }

    /// Exact unsigned quotient (big-integer division, truncated to the
    /// operand width, where it always fits).
    pub fn divide(&self, rhs: &Value) -> (r: Value)
        requires
            self.spec_width() == rhs.spec_width(),
            self.spec_width() < usize::MAX,
            rhs.uint() != 0,
        ensures
            r@ == udiv_bits(self@, rhs@),
            r.spec_width() == self.spec_width(),
            r.uint() == self.uint() / rhs.uint(),
    {
        let qr = self.div_rem(rhs);
        proof {
            let w = self.spec_width();
            lemma_uval_bound(self@);
            lemma_div_is_ordered_by_denominator(self.uint() as int, 1, rhs.uint() as int);
            lemma_div_basics(self.uint() as int);
            lemma_pow2_pos(w);
            lemma_small_mod(self.uint() / rhs.uint(), pow2(w));
            lemma_uval_bits_of(self.uint() / rhs.uint(), w);
            lemma_uval_injective(qr.0@, bits_of(self.uint() / rhs.uint(), w));
        }
        qr.0
    }

    /// Exact unsigned remainder.
    pub fn remainder(&self, rhs: &Value) -> (r: Value)
        requires
            self.spec_width() == rhs.spec_width(),
            self.spec_width() < usize::MAX,
            rhs.uint() != 0,
        ensures
            r@ == umod_bits(self@, rhs@),
            r.spec_width() == self.spec_width(),
            r.uint() == self.uint() % rhs.uint(),
    {
        let qr = self.div_rem(rhs);
        proof {
            let w = self.spec_width();
            lemma_mod_bound(self.uint() as int, rhs.uint() as int);
            lemma_uval_bound(rhs@);
            lemma_pow2_pos(w);
            lemma_small_mod(self.uint() % rhs.uint(), pow2(w));
            lemma_uval_bits_of(self.uint() % rhs.uint(), w);
            lemma_uval_injective(qr.1@, bits_of(self.uint() % rhs.uint(), w));
        }
        qr.1
    }

    /// The magnitude of the two's-complement reading, as an unsigned value of
    /// the same width (it always fits: the magnitude is at most `pow2(w-1)`).
    fn magnitude(&self) -> (r: Value)
        requires
            self.spec_width() < usize::MAX,
        ensures
            r.spec_width() == self.spec_width(),
            r.uint() == iabs(self.int_val()),
    {
        let n: usize = self.bits.len();
        if n > 0 && self.bits[n - 1] {
            proof {
                lemma_sval_bound(self@);
                lemma_uval_high_bit(self@, n - 1);
                lemma_pow2_pos((n - 1) as nat);
            }
            self.negate()
        } else {
            self.duplicate()
        }
    }

    /// Truncating signed quotient: exact big-integer division of the
    /// two's-complement readings, rounded toward zero, re-encoded at the
    /// operand width.
    pub fn divide_signed(&self, rhs: &Value) -> (r: Value)
        requires
            self.spec_width() == rhs.spec_width(),
            self.spec_width() < usize::MAX,
            rhs.int_val() != 0,
        ensures
            r@ == sdiv_bits(self@, rhs@),
            r.spec_width() == self.spec_width(),
            r.uint() as int == tdiv(self.int_val(), rhs.int_val()) % (pow2(
                self.spec_width(),
            ) as int),
    {
        let n: usize = self.bits.len();
        let ghost w = n as nat;
        proof {
            lemma_pow2_pos(w);
            if n > 0 {
                lemma_sval_bound(self@);
                lemma_sval_bound(rhs@);
            }
        }
        let neg_a: bool = n > 0 && self.bits[n - 1];
        let neg_b: bool = n > 0 && rhs.bits[n - 1];
        let mag_a = self.magnitude();
        let mag_b = rhs.magnitude();
        let qm = mag_a.divide(&mag_b);
        let ghost aa = iabs(self.int_val());
        let ghost bb = iabs(rhs.int_val());
        let ghost td = tdiv(self.int_val(), rhs.int_val());
        proof {
            lemma_uval_bound(self@);
            lemma_div_is_ordered_by_denominator(aa as int, 1, bb as int);
            lemma_div_basics(aa as int);
            assert(aa < pow2(w)) by {
                if neg_a {
                    lemma_uval_high_bit(self@, n - 1);
                    lemma_pow2_unfold(w);
                } else {
                }
            }
            assert(qm.uint() < pow2(w));
            assert(neg_a == (self.int_val() < 0));
            assert(neg_b == (rhs.int_val() < 0));
        }
        let r = if neg_a != neg_b {
            proof {
                assert(td == -(qm.uint() as int));
            }
            qm.negate()
        } else {
            proof {
                assert(td == qm.uint() as int);
                lemma_small_mod(qm.uint(), pow2(w));
            }
            qm
        };
        proof {
            if neg_a != neg_b {
                if qm.uint() == 0 {
                    assert(td == 0);
                    lemma_small_mod(0, pow2(w));
                } else {
                    lemma_fundamental_div_mod_converse(
                        td,
                        pow2(w) as int,
                        -1,
                        pow2(w) - qm.uint(),
                    );
                }
            }
            assert(r.uint() as int == td % (pow2(w) as int));
            lemma_mod_bound(td, pow2(w) as int);
            lemma_uval_bits_of((td % (pow2(w) as int)) as nat, w);
            lemma_small_mod((td % (pow2(w) as int)) as nat, pow2(w));
            lemma_uval_injective(r@, sdiv_bits(self@, rhs@));
        }
        r
    }

    /// Floored signed modulo: `a - b * floor(a / b)` computed exactly, then
    /// re-encoded at the operand width. For operands of opposite sign this
    /// differs from the truncating remainder: the result is consistent in
    /// sign with the divisor.
    pub fn signed_mod(&self, rhs: &Value) -> (r: Value)
        requires
            self.spec_width() == rhs.spec_width(),
            self.spec_width() < usize::MAX,
            rhs.int_val() != 0,
        ensures
            r@ == smod_bits(self@, rhs@),
            r.spec_width() == self.spec_width(),
            r.uint() as int == fmod(self.int_val(), rhs.int_val()) % (pow2(
                self.spec_width(),
            ) as int),
    {
        let n: usize = self.bits.len();
        let ghost w = n as nat;
        proof {
            lemma_pow2_pos(w);
            if n > 0 {
                lemma_sval_bound(self@);
                lemma_sval_bound(rhs@);
            }
        }
        let neg_a: bool = n > 0 && self.bits[n - 1];
        let neg_b: bool = n > 0 && rhs.bits[n - 1];
        let mag_a = self.magnitude();
        let mag_b = rhs.magnitude();
        let rm = mag_a.remainder(&mag_b);
        let ghost aa = iabs(self.int_val());
        let ghost bb = iabs(rhs.int_val());
        let ghost fm = fmod(self.int_val(), rhs.int_val());
        proof {
            lemma_fmod_cases(self.int_val(), rhs.int_val());
            lemma_mod_bound(aa as int, bb as int);
            lemma_uval_bound(rhs@);
            assert(bb < pow2(w)) by {
                if neg_b {
                    lemma_uval_high_bit(rhs@, n - 1);
                    lemma_pow2_unfold(w);
                } else {
                }
            }
            assert(neg_a == (self.int_val() < 0));
            assert(neg_b == (rhs.int_val() < 0));
        }
        let zero = Value::from_u64(0, n);
        let r = if rm.is_equal(&zero) {
            proof {
                assert(uval(rm@) == uval(zero@));
                assert(fm == 0);
                lemma_small_mod(0, pow2(w));
            }
            zero
        } else {
            proof {
                lemma_small_mod(0, pow2(w));
                if rm.uint() == 0 {
                    lemma_uval_injective(rm@, zero@);
                    assert(false);
                }
            }
            if neg_a == neg_b {
                if neg_a {
                    proof {
                        assert(fm == -(rm.uint() as int));
                        lemma_fundamental_div_mod_converse(
                            fm,
                            pow2(w) as int,
                            -1,
                            pow2(w) - rm.uint(),
                        );
                    }
                    rm.negate()
                } else {
                    proof {
                        assert(fm == rm.uint() as int);
                        lemma_small_mod(rm.uint(), pow2(w));
                    }
                    rm
                }
            } else {
                let t = mag_b.subtract(&rm);
                proof {
                    let m1 = pow2(w) as int;
                    assert((bb + pow2(w) - rm.uint()) % m1 == (bb - rm.uint()) % m1) by {
                        lemma_mod_add_multiples_vanish(bb - rm.uint(), m1);
                    }
                    lemma_small_mod((bb - rm.uint()) as nat, pow2(w));
                    assert(t.uint() == bb - rm.uint());
                }
                if neg_b {
                    proof {
                        assert(fm == -(t.uint() as int));
                        lemma_fundamental_div_mod_converse(
                            fm,
                            pow2(w) as int,
                            -1,
                            pow2(w) - t.uint(),
                        );
                    }
                    t.negate()
                } else {
                    proof {
                        assert(fm == t.uint() as int);
                        lemma_small_mod(t.uint(), pow2(w));
                    }
                    t
                }
            }
        };
        proof {
            assert(r.uint() as int == fm % (pow2(w) as int));
            lemma_mod_bound(fm, pow2(w) as int);
            lemma_uval_bits_of((fm % (pow2(w) as int)) as nat, w);
            lemma_small_mod((fm % (pow2(w) as int)) as nat, pow2(w));
            lemma_uval_injective(r@, smod_bits(self@, rhs@));
        }
        r
    }

    /// Keeps the `new_width` low-order bits.
    pub fn truncate(&self, new_width: usize) -> (r: Value)
        requires
            new_width <= self.spec_width(),
        ensures
            r@ == self@.take(new_width as int),
            r.spec_width() == new_width,
            r.uint() == self.uint() % pow2(new_width as nat),
    {
        let mut out: Vec<bool> = Vec::new();
        let mut i: usize = 0;
        while i < new_width
            invariant
                i <= new_width,
                new_width <= self@.len(),
                out@ =~= self@.take(i as int),
            decreases new_width - i,
        {
            out.push(self.bits[i]);
            assert(out@ =~= self@.take(i + 1));
            i = i + 1;
        }
        proof {
            let nw = new_width as int;
            lemma_uval_split(self@, nw);
            lemma_uval_bound(self@.take(nw));
            lemma_pow2_pos(new_width as nat);
            assert(self.uint() as int == uval(self@.skip(nw)) * (pow2(new_width as nat) as int)
                + uval(self@.take(nw))) by (nonlinear_arith)
                requires
                    uval(self@) == uval(self@.take(nw)) + pow2(new_width as nat) * uval(
                        self@.skip(nw),
                    ),
                    self.uint() == uval(self@),
            ;
            lemma_fundamental_div_mod_converse(
                self.uint() as int,
                pow2(new_width as nat) as int,
                uval(self@.skip(nw)) as int,
                uval(self@.take(nw)) as int,
            );
        }
        Value { bits: out }
    }

    /// Zero-extends to `new_width`: the unsigned numeric value is unchanged.
    pub fn ext(&self, new_width: usize) -> (r: Value)
        requires
            new_width >= self.spec_width(),
        ensures
            r@ == self@ + zeros((new_width - self.spec_width()) as nat),
            r.spec_width() == new_width,
            r.uint() == self.uint(),
    {
        let w: usize = self.bits.len();
        let mut out: Vec<bool> = self.to_bits();
        let mut i: usize = w;
        while i < new_width
            invariant
                w <= i <= new_width,
                w == self@.len(),
                out@ =~= self@ + zeros((i - w) as nat),
            decreases new_width - i,
        {
            out.push(false);
            assert(out@ =~= self@ + zeros((i + 1 - w) as nat));
            i = i + 1;
        }
        proof {
            lemma_uval_append_zeros(self@, (new_width - w) as nat);
        }
        Value { bits: out }
    }

    /// Sign-extends to `new_width`: the two's-complement numeric value is
    /// unchanged.
    pub fn sext(&self, new_width: usize) -> (r: Value)
        requires
            new_width >= self.spec_width(),
        ensures
            r.spec_width() == new_width,
            r.int_val() == self.int_val(),
    {
        let w: usize = self.bits.len();
        let g: bool = w > 0 && self.bits[w - 1];
        let mut out: Vec<bool> = self.to_bits();
        let ghost rep = if g {
            ones((new_width - w) as nat)
        } else {
            zeros((new_width - w) as nat)
        };
        let mut i: usize = w;
        while i < new_width
            invariant
                w <= i <= new_width,
                w == self@.len(),
                rep == if g {
                    ones((new_width - w) as nat)
                } else {
                    zeros((new_width - w) as nat)
                },
                out@ =~= self@ + rep.take((i - w) as int),
            decreases new_width - i,
        {
            out.push(g);
            assert(out@ =~= self@ + rep.take((i + 1 - w) as int));
            i = i + 1;
        }
        proof {
            assert(out@ =~= self@ + rep);
            let e = (new_width - w) as nat;
            let t = out@;
            lemma_uval_split(t, w as int);
            assert(t.take(w as int) =~= self@);
            assert(t.skip(w as int) =~= rep);
            if g {
                lemma_uval_ones(e);
            } else {
                lemma_uval_zeros(e);
            }
            lemma_pow2_adds(w as nat, e);
            if e == 0 {
                assert(t =~= self@);
            } else {
                assert(t[t.len() - 1] == g);
                if g {
                    assert(uval(t) == uval(self@) + pow2(w as nat) * (pow2(e) - 1));
                    assert(pow2(w as nat) * (pow2(e) - 1) == pow2(w as nat) * pow2(e) - pow2(
                        w as nat,
                    )) by (nonlinear_arith);
                    assert(uval(t) == uval(self@) + pow2((w + e) as nat) - pow2(w as nat));
                    assert(sval(t) == uval(self@) - pow2(w as nat));
                    assert(w > 0 && self@[w - 1]);
                } else {
                    assert(uval(t) == uval(self@) + pow2(w as nat) * 0);
                    if w > 0 {
                        assert(!self@[w - 1]);
                    }
                }
            }
        }
        Value { bits: out }
    }

    /// Concatenation: `high` occupies the most-significant bits of the result,
    /// whose width is the sum of the operand widths.
    pub fn concat(high: &Value, low: &Value) -> (r: Value)
        ensures
            r@ == concat_bits(high@, low@),
            r.spec_width() == high.spec_width() + low.spec_width(),
            r.uint() == low.uint() + pow2(low.spec_width()) * high.uint(),
    {
        let wl: usize = low.bits.len();
        let wh: usize = high.bits.len();
        let mut out: Vec<bool> = low.to_bits();
        let mut i: usize = 0;
        while i < wh
            invariant
                i <= wh,
                wh == high@.len(),
                wl == low@.len(),
                out@ =~= low@ + high@.take(i as int),
            decreases wh - i,
        {
            out.push(high.bits[i]);
            assert(out@ =~= low@ + high@.take(i + 1));
            i = i + 1;
        }
        proof {
            assert(out@ =~= low@ + high@);
            lemma_uval_split(out@, wl as int);
            assert(out@.take(wl as int) =~= low@);
            assert(out@.skip(wl as int) =~= high@);
        }
        Value { bits: out }
    }

    /// Strips common powers of two and leading zeros to build the reduced
    /// fraction `(sign) uval / pow2(f)`.
    fn reduce_to_fraction(&self, f: usize, neg: bool) -> (r: Fraction)
        requires
            f <= self.spec_width(),
            neg ==> self.uint() > 0,
        ensures
            r.wf(),
            r.spec_neg() == neg,
            r.numerator() * (pow2(f as nat) as int) == (if neg {
                -(self.uint() as int)
            } else {
                self.uint() as int
            }) * (pow2(r.denom_exp()) as int),
    {
        let n: usize = self.bits.len();
        let mut k: usize = 0;
        while k < f && !self.bits[k]
            invariant
                k <= f,
                f <= n,
                n == self@.len(),
                forall|j: int| 0 <= j < k ==> !self@[j],
            decreases f - k,
        {
            k = k + 1;
        }
        let mut top: usize = n;
        while top > k && !self.bits[top - 1]
            invariant
                k <= top <= n,
                n == self@.len(),
                forall|j: int| top <= j < n ==> !self@[j],
            decreases top,
        {
            top = top - 1;
        }
        let mut num: Vec<bool> = Vec::new();
        let mut i: usize = k;
        while i < top
            invariant
                k <= i <= top,
                top <= n,
                n == self@.len(),
                num@ =~= self@.subrange(k as int, i as int),
            decreases top - i,
        {
            num.push(self.bits[i]);
            assert(num@ =~= self@.subrange(k as int, i + 1));
            i = i + 1;
        }
        let fb: usize = f - k;
        proof {
            let s = self@;
            let kk = k as int;
            let tt = top as int;
            // below k and above top only zero bits stand
            lemma_uval_split(s, kk);
            assert(s.take(kk) =~= zeros(k as nat));
            lemma_uval_zeros(k as nat);
            lemma_uval_split(s.skip(kk), tt - kk);
            assert(s.skip(kk).take(tt - kk) =~= s.subrange(kk, tt));
            assert(s.skip(kk).skip(tt - kk) =~= zeros((n - top) as nat));
            lemma_uval_zeros((n - top) as nat);
            assert(uval(s.skip(kk)) == uval(num@) + pow2((tt - kk) as nat) * 0);
            assert(self.uint() == pow2(k as nat) * uval(num@));
            // the reduced pair denotes the same rational
            lemma_pow2_adds(k as nat, fb as nat);
            assert(uval(num@) * pow2(f as nat) == (pow2(k as nat) * uval(num@)) * pow2(
                fb as nat,
            )) by (nonlinear_arith)
                requires
                    pow2(f as nat) == pow2(k as nat) * pow2(fb as nat),
            ;
            // reducedness
            if top > k {
                assert(s[tt - 1]);
                assert(num@[num@.len() - 1]);
            }
            if k < f {
                assert(s[kk]);
                assert(top > k);
                assert(num@[0]);
            }
            if num@.len() == 0 {
                assert(top == k);
                assert(k == f);
                assert(uval(num@) == 0);
                assert(self.uint() == pow2(k as nat) * 0);
            }
            if neg {
                assert(num@.len() > 0);
            }
            assert(uval(num@) * pow2(f as nat) == self.uint() * pow2(fb as nat));
            if neg {
                assert((-(uval(num@) as int)) * (pow2(f as nat) as int) == (-(
                self.uint() as int)) * (pow2(fb as nat) as int)) by (nonlinear_arith)
                    requires
                        uval(num@) * pow2(f as nat) == self.uint() * pow2(fb as nat),
                ;
            }
        }
        Fraction::from_raw(neg, num, fb)
    }

    /// Interprets the low `fractional_width` bits as a binary fraction and
    /// the rest as the unsigned integer part: the exact rational
    /// `uint / pow2(fractional_width)`.
    pub fn to_unsigned_fixed_point(&self, fractional_width: usize) -> (r: Fraction)
        requires
            fractional_width <= self.spec_width(),
        ensures
            r.wf(),
            !r.spec_neg(),
            r.numerator() * (pow2(fractional_width as nat) as int) == (self.uint() as int) * (
            pow2(r.denom_exp()) as int),
    {
        self.reduce_to_fraction(fractional_width, false)
    }

    /// Interprets the whole pattern as two's-complement, then divides by
    /// `pow2(fractional_width)`: the exact rational
    /// `int_val / pow2(fractional_width)`.
    pub fn to_signed_fixed_point(&self, fractional_width: usize) -> (r: Fraction)
        requires
            fractional_width <= self.spec_width(),
            self.spec_width() < usize::MAX,
        ensures
            r.wf(),
            r.numerator() * (pow2(fractional_width as nat) as int) == self.int_val() * (pow2(
                r.denom_exp(),
            ) as int),
    {
        let n: usize = self.bits.len();
        let negative: bool = n > 0 && self.bits[n - 1];
        let mag = self.magnitude();
        proof {
            if n > 0 {
                lemma_sval_bound(self@);
                if negative {
                    assert(self.int_val() < 0);
                    assert(mag.uint() > 0);
                }
            }
            assert(mag.uint() == iabs(self.int_val()));
        }
        mag.reduce_to_fraction(fractional_width, negative)
    }

    /// Reads the value back as a signed (two's-complement) 64-bit integer.
    pub fn as_i64(&self) -> (r: i64)
        requires
            -(pow2(63) as int) <= self.int_val() < pow2(63),
        ensures
            r as int == self.int_val(),
    {
        proof {
            assert(pow2(63) < pow2(127)) by {
                lemma_pow2_strictly_increases(63, 127);
            }
            assert(pow2(63) == 0x8000000000000000) by {
                lemma2_to64_rest();
            }
        }
        let wide = self.as_i128();
        wide as i64
    }
}

impl Fraction {
    /// Builds the reduced fraction `numerator / denominator`; the
    /// denominator must be a power of two.
    pub fn new(numerator: u128, denominator: u128) -> (r: Fraction)
        requires
            exists|e: nat| e <= 127 && denominator == pow2(e),
        ensures
            r.wf(),
            !r.spec_neg(),
            r.numerator() * (denominator as int) == (numerator as int) * (pow2(
                r.denom_exp(),
            ) as int),
    {
        let e = Fraction::denom_log2(denominator);
        let v = Value::from_u128(numerator, 128);
        proof {
            lemma_pow2_128();
            lemma_small_mod(numerator as nat, pow2(128));
        }
        v.reduce_to_fraction(e, false)
    }

    /// Builds the reduced fraction `-numerator / denominator`; the
    /// denominator must be a power of two.
    pub fn new_neg(numerator: u128, denominator: u128) -> (r: Fraction)
        requires
            exists|e: nat| e <= 127 && denominator == pow2(e),
        ensures
            r.wf(),
            r.numerator() * (denominator as int) == -(numerator as int) * (pow2(
                r.denom_exp(),
            ) as int),
    {
        let e = Fraction::denom_log2(denominator);
        let v = Value::from_u128(numerator, 128);
        proof {
            lemma_pow2_128();
            lemma_small_mod(numerator as nat, pow2(128));
        }
        if numerator == 0 {
            v.reduce_to_fraction(e, false)
        } else {
            v.reduce_to_fraction(e, true)
        }
    }

    /// Recovers the exponent of a power-of-two denominator.
    fn denom_log2(denominator: u128) -> (e: usize)
        requires
            exists|e0: nat| e0 <= 127 && denominator == pow2(e0),
        ensures
            e <= 127,
            denominator == pow2(e as nat),
    {
        let ghost e0 = choose|e0: nat| e0 <= 127 && denominator == pow2(e0);
        proof {
            lemma_pow2_128();
            assert(pow2(e0) <= pow2(127)) by {
                if e0 < 127 {
                    lemma_pow2_strictly_increases(e0, 127);
                }
            }
            assert(pow2(0) == 1) by {
                lemma2_to64();
            }
            lemma_pow2_pos(e0);
        }
        let mut p: u128 = 1;
        let mut e: usize = 0;
        while p < denominator
            invariant
                p >= 1,
                p == pow2(e as nat),
                p <= denominator,
                e <= e0,
                e0 <= 127,
                denominator == pow2(e0),
                denominator <= pow2(127),
            decreases denominator - p,
        {
            proof {
                assert(e < e0) by {
                    if e0 <= e as nat {
                        if e0 < e as nat {
                            lemma_pow2_strictly_increases(e0, e as nat);
                        }
                        assert(pow2(e as nat) >= pow2(e0));
                    }
                }
                lemma_pow2_unfold((e + 1) as nat);
                assert(pow2((e + 1) as nat) <= pow2(e0)) by {
                    if ((e + 1) as nat) < e0 {
                        lemma_pow2_strictly_increases((e + 1) as nat, e0);
                    }
                }
                lemma_pow2_128();
            }
            p = p * 2;
            e = e + 1;
        }
        proof {
            assert(p >= denominator && p <= denominator);
        }
        e
    }
}

} // verus!
